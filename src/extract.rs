//! Copying the residues of a window of wrapped lines out of the file bytes.

use crate::layout::{lemma_next_line, lemma_same_line, layout_byte};
use vstd::arithmetic::div_mod::lemma_fundamental_div_mod_converse;
use vstd::prelude::*;

verus! {

/// Position of the `j`-th residue of a window that starts at byte `start`,
/// `line_pos` residues into its physical line.
pub open spec fn window_byte(start: int, line_pos: int, lb: int, lw: int, j: int) -> int {
    layout_byte(start - line_pos, lb, lw, line_pos + j)
}

/// Smaller of the record end and the end of the source.
pub open spec fn read_limit(source_len: int, record_end: int) -> int {
    if record_end < source_len {
        record_end
    } else {
        source_len
    }
}

/// `out` holds the window's residues in order, as many as lie before both
/// the record end and the end of the source, and at most `max`.
pub open spec fn is_extraction(
    source: Seq<u8>,
    start: int,
    line_pos: int,
    max: int,
    lb: int,
    lw: int,
    record_end: int,
    out: Seq<u8>,
) -> bool {
    let limit = read_limit(source.len() as int, record_end);
    &&& out.len() <= max
    &&& forall|j: int|
        0 <= j < out.len() ==> {
            &&& #[trigger] window_byte(start, line_pos, lb, lw, j) < limit
            &&& out[j] == source[window_byte(start, line_pos, lb, lw, j)]
        }
    &&& out.len() == max || window_byte(start, line_pos, lb, lw, out.len() as int) >= limit
}

/// Appends to `buf` up to `max_bases` residues read line by line from
/// `source`, starting at byte `start`, which is `line_pos` residues into its
/// line; terminator bytes are skipped and nothing at or past `record_end` or
/// the end of `source` is read. Returns the number of residues appended.
pub fn read_sequence_limit(
    source: &[u8],
    start: u64,
    line_pos: u64,
    max_bases: u64,
    line_bases: u64,
    line_width: u64,
    record_end: u64,
    buf: &mut Vec<u8>,
) -> (r: u64)
    requires
        line_bases > 0,
        line_width >= line_bases,
        line_pos < line_bases,
        line_pos <= start,
    ensures
        final(buf)@.len() == old(buf)@.len() + r,
        final(buf)@.subrange(0, old(buf)@.len() as int) == old(buf)@,
        is_extraction(
            source@,
            start as int,
            line_pos as int,
            max_bases as int,
            line_bases as int,
            line_width as int,
            record_end as int,
            final(buf)@.subrange(old(buf)@.len() as int, final(buf)@.len() as int),
        ),
{
    let ghost buf0 = buf@;
    let ghost base: int = start - line_pos;
    let ghost lb = line_bases as int;
    let ghost lw = line_width as int;
    let source_len = source.len() as u64;
    let limit = if record_end < source_len {
        record_end
    } else {
        source_len
    };
    let padding = line_width - line_bases;
    let mut count: u64 = 0;
    let mut position: u64 = start;
    let mut in_line: u64 = line_pos;
    let mut more = true;
    proof {
        lemma_fundamental_div_mod_converse(line_pos as int, lb, 0, line_pos as int);
        assert(window_byte(start as int, line_pos as int, lb, lw, 0) == start);
    }
    while more && count < max_bases && position < limit
        invariant
            limit == read_limit(source@.len() as int, record_end as int),
            limit <= source@.len(),
            padding == line_width - line_bases,
            base == start - line_pos,
            lb == line_bases,
            lw == line_width,
            line_bases > 0,
            line_width >= line_bases,
            line_pos < line_bases,
            count <= max_bases,
            in_line < line_bases,
            (line_pos + count) % lb == in_line,
            more ==> position == window_byte(start as int, line_pos as int, lb, lw, count as int),
            !more ==> window_byte(start as int, line_pos as int, lb, lw, count as int) >= limit,
            buf@.len() == buf0.len() + count,
            buf@.subrange(0, buf0.len() as int) == buf0,
            forall|j: int|
                0 <= j < count ==> {
                    &&& #[trigger] window_byte(start as int, line_pos as int, lb, lw, j) < limit
                    &&& buf@[buf0.len() + j] == source@[window_byte(
                        start as int,
                        line_pos as int,
                        lb,
                        lw,
                        j,
                    )]
                },
        decreases max_bases - count,
    {
        let line_left = line_bases - in_line;
        let mut take = max_bases - count;
        if line_left < take {
            take = line_left;
        }
        if limit - position < take {
            take = limit - position;
        }
        let ghost k: int = line_pos + count;
        let mut t: u64 = 0;
        while t < take
            invariant
                0 <= t <= take,
                take <= line_left,
                line_left == line_bases - in_line,
                position + take <= limit,
                limit <= source@.len(),
                k == line_pos + count,
                k % lb == in_line,
                lb == line_bases,
                lw == line_width,
                line_bases > 0,
                position == window_byte(start as int, line_pos as int, lb, lw, count as int),
                buf@.len() == buf0.len() + count + t,
                buf@.subrange(0, buf0.len() as int) == buf0,
                forall|j: int|
                    0 <= j < count + t ==> {
                        &&& #[trigger] window_byte(start as int, line_pos as int, lb, lw, j)
                            < limit
                        &&& buf@[buf0.len() + j] == source@[window_byte(
                            start as int,
                            line_pos as int,
                            lb,
                            lw,
                            j,
                        )]
                    },
            decreases take - t,
        {
            proof {
                lemma_same_line(base, lb, lw, k, t as int);
                assert(window_byte(start as int, line_pos as int, lb, lw, count + t) == position
                    + t);
            }
            let ghost prev = buf@;
            buf.push(source[(position + t) as usize]);
            proof {
                assert(buf@.subrange(0, buf0.len() as int) =~= prev.subrange(
                    0,
                    buf0.len() as int,
                ));
            }
            t = t + 1;
        }
        proof {
            lemma_same_line(base, lb, lw, k, take - 1);
            if in_line + take < line_bases {
                lemma_same_line(base, lb, lw, k, take as int);
            }
        }
        count = count + take;
        position = position + take;
        in_line = in_line + take;
        if in_line == line_bases {
            proof {
                lemma_next_line(base, lb, lw, k + take - 1);
            }
            if limit - position <= padding {
                more = false;
            } else {
                position = position + padding;
            }
            in_line = 0;
        }
    }
    proof {
        assert(buf@.subrange(buf0.len() as int, buf@.len() as int).len() == count);
        assert forall|j: int| 0 <= j < count implies buf@.subrange(
            buf0.len() as int,
            buf@.len() as int,
        )[j] == buf@[buf0.len() + j] by {}
    }
    count
}

} // verus!
