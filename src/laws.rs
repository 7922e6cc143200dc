//! Properties that relate queries to a plain decoding of whole records.

use crate::query::{answers, first_index, first_match, has_name, is_window, lemma_before_end, lemma_first_match_unique};
use crate::record::RecordModel;
use crate::region::QueryError;
use vstd::arithmetic::div_mod::lemma_fundamental_div_mod_converse;
use vstd::prelude::*;

verus! {

/// Residues on physical line `n` (0-based) of the record.
pub open spec fn line_len(rec: RecordModel, n: int) -> int {
    let rest = rec.length - n * rec.line_bases;
    if rest < rec.line_bases {
        rest
    } else {
        rec.line_bases as int
    }
}

/// Byte position where physical line `n` of the record starts.
pub open spec fn line_start(rec: RecordModel, n: int) -> int {
    rec.offset + n * rec.line_width
}

/// Number of physical lines that hold the record's residues.
pub open spec fn line_count(rec: RecordModel) -> nat {
    ((rec.length + rec.line_bases - 1) / rec.line_bases as int) as nat
}

/// Residue bytes of the first `n` physical lines of the record, read line by
/// line with terminators dropped.
pub open spec fn lines_prefix(source: Seq<u8>, rec: RecordModel, n: nat) -> Seq<u8>
    decreases n,
{
    if n == 0 {
        Seq::empty()
    } else {
        let m = n - 1;
        lines_prefix(source, rec, m as nat) + source.subrange(
            line_start(rec, m),
            line_start(rec, m) + line_len(rec, m),
        )
    }
}

/// The whole record decoded into memory: every physical line's residues,
/// concatenated.
pub open spec fn decoded(source: Seq<u8>, rec: RecordModel) -> Seq<u8> {
    lines_prefix(source, rec, line_count(rec))
}

proof fn lemma_lines_prefix(source: Seq<u8>, rec: RecordModel, n: nat)
    requires
        rec.wf(),
        rec.end_byte() <= source.len(),
        n <= line_count(rec),
    ensures
        lines_prefix(source, rec, n).len() == if n * rec.line_bases <= rec.length {
            n * rec.line_bases
        } else {
            rec.length
        },
        forall|i: int|
            0 <= i < lines_prefix(source, rec, n).len() ==> #[trigger] lines_prefix(source, rec, n)[i]
                == source[rec.residue_byte(i)],
    decreases n,
{
    let lb = rec.line_bases as int;
    let lw = rec.line_width as int;
    let len = rec.length as int;
    if n > 0 {
        let m = (n - 1) as int;
        lemma_lines_prefix(source, rec, m as nat);
        assert(m * lb < len) by (nonlinear_arith)
            requires
                lb > 0,
                m + 1 <= (len + lb - 1) / lb,
                len >= 0,
        ;
        let l = line_len(rec, m);
        assert(0 < l <= lb);
        assert(m * lb + l == if n * lb <= len { n * lb } else { len }) by (nonlinear_arith)
            requires
                n == m + 1,
                l == if len - m * lb < lb { len - m * lb } else { lb },
        ;
        lemma_before_end(rec, m * lb + l - 1);
        lemma_fundamental_div_mod_converse(m * lb + l - 1, lb, m, l - 1);
        assert(0 <= m * lw) by (nonlinear_arith)
            requires m >= 0, lw >= 0;
        let prev = lines_prefix(source, rec, m as nat);
        let cur = source.subrange(line_start(rec, m), line_start(rec, m) + l);
        assert(lines_prefix(source, rec, n) == prev + cur);
        assert forall|i: int|
            0 <= i < lines_prefix(source, rec, n).len() implies #[trigger] lines_prefix(
            source,
            rec,
            n,
        )[i] == source[rec.residue_byte(i)] by {
            if i >= m * lb {
                lemma_fundamental_div_mod_converse(i, lb, m, i - m * lb);
            }
        }
    }
}

/// Residues `a ..= b` (1-based) of the record, as read from `source`.
proof fn lemma_bounded_query(
    index: Seq<RecordModel>,
    source: Seq<u8>,
    k: int,
    a: u64,
    b: u64,
    r: Result<Seq<u8>, QueryError>,
)
    requires
        first_match(index, index[k].name, k),
        index[k].wf(),
        index[k].end_byte() <= source.len(),
        1 <= a <= b <= index[k].length,
        answers(index, source, (index[k].name, Some(a), Some(b)), r),
    ensures
        r is Ok,
        r->Ok_0.len() == b - a + 1,
        forall|j: int|
            0 <= j < r->Ok_0.len() ==> #[trigger] r->Ok_0[j] == source[index[k].residue_byte(
                a - 1 + j,
            )],
{
    let rec = index[k];
    assert(has_name(index, rec.name));
    lemma_first_match_unique(index, rec.name, k);
    let out = r->Ok_0;
    let first = a - 1;
    let want = b - a + 1;
    assert(is_window(source, rec, first, want, out));
    if out.len() < want {
        assert(first + out.len() < rec.length);
        lemma_before_end(rec, first + out.len());
    }
    assert forall|j: int| 0 <= j < out.len() implies #[trigger] out[j] == source[rec.residue_byte(
        a - 1 + j,
    )] by {
        assert(out[j] == source[rec.residue_byte(first + j)]);
    }
}

/// Querying the whole range `1 ..= length` of a record that lies inside the
/// file gives every physical line's residues, concatenated, with the line
/// terminators removed, whatever the terminator width.
pub proof fn lemma_full_range_is_whole_record(
    index: Seq<RecordModel>,
    source: Seq<u8>,
    k: int,
    r: Result<Seq<u8>, QueryError>,
)
    requires
        first_match(index, index[k].name, k),
        index[k].wf(),
        index[k].end_byte() <= source.len(),
        1 <= index[k].length <= u64::MAX,
        answers(index, source, (index[k].name, Some(1u64), Some(index[k].length as u64)), r),
    ensures
        r == Ok::<Seq<u8>, QueryError>(decoded(source, index[k])),
{
    let rec = index[k];
    lemma_range_matches_decoded(index, source, k, 1, rec.length as u64, r);
    lemma_decoded_len(source, rec);
    assert(decoded(source, rec).subrange(0, rec.length as int) =~= decoded(source, rec));
}

proof fn lemma_decoded_len(source: Seq<u8>, rec: RecordModel)
    requires
        rec.wf(),
        rec.end_byte() <= source.len(),
    ensures
        decoded(source, rec).len() == rec.length,
        forall|i: int|
            0 <= i < rec.length ==> #[trigger] decoded(source, rec)[i] == source[rec.residue_byte(i)],
{
    let n = line_count(rec);
    let lb = rec.line_bases as int;
    let len = rec.length as int;
    assert(n * lb >= len) by (nonlinear_arith)
        requires lb > 0, len >= 0, n == (len + lb - 1) / lb;
    lemma_lines_prefix(source, rec, n);
}

/// For a bounded range `a ..= b` inside a record that lies inside the file,
/// the query gives the same bytes as decoding the whole record into memory
/// and slicing residues `a ..= b` out of it.
pub proof fn lemma_range_matches_decoded(
    index: Seq<RecordModel>,
    source: Seq<u8>,
    k: int,
    a: u64,
    b: u64,
    r: Result<Seq<u8>, QueryError>,
)
    requires
        first_match(index, index[k].name, k),
        index[k].wf(),
        index[k].end_byte() <= source.len(),
        1 <= a <= b <= index[k].length,
        answers(index, source, (index[k].name, Some(a), Some(b)), r),
    ensures
        r == Ok::<Seq<u8>, QueryError>(decoded(source, index[k]).subrange(a - 1, b as int)),
{
    let rec = index[k];
    lemma_bounded_query(index, source, k, a, b, r);
    lemma_decoded_len(source, rec);
    let want = decoded(source, rec).subrange(a - 1, b as int);
    assert forall|j: int| 0 <= j < want.len() implies #[trigger] r->Ok_0[j] == want[j] by {
        assert(decoded(source, rec)[a - 1 + j] == source[rec.residue_byte(a - 1 + j)]);
    }
    assert(r->Ok_0 =~= want);
}

/// Two queries of the same range over the same index and file bytes give
/// the same outcome.
pub proof fn lemma_query_deterministic(
    index: Seq<RecordModel>,
    source: Seq<u8>,
    c: (Seq<u8>, Option<u64>, Option<u64>),
    r1: Result<Seq<u8>, QueryError>,
    r2: Result<Seq<u8>, QueryError>,
)
    requires
        answers(index, source, c, r1),
        answers(index, source, c, r2),
    ensures
        r1 == r2,
{
    if r1 is Ok && r2 is Ok {
        let rec = index[first_index(index, c.0)];
        let first = c.1->0 - 1;
        let o1 = r1->Ok_0;
        let o2 = r2->Ok_0;
        assert(o1.len() == o2.len()) by {
            if o1.len() < o2.len() {
                assert(rec.residue_byte(first + o1.len()) < source.len());
            } else if o2.len() < o1.len() {
                assert(rec.residue_byte(first + o2.len()) < source.len());
            }
        }
        assert forall|j: int| 0 <= j < o1.len() implies #[trigger] o1[j] == o2[j] by {
            assert(o2[j] == source[rec.residue_byte(first + j)]);
        }
        assert(o1 =~= o2);
    }
}

/// A range that ends at the record's last residue gives exactly the
/// residues asked for, each read from a residue position of its line and
/// none from a terminator.
pub proof fn lemma_range_to_record_end(
    index: Seq<RecordModel>,
    source: Seq<u8>,
    k: int,
    a: u64,
    r: Result<Seq<u8>, QueryError>,
)
    requires
        first_match(index, index[k].name, k),
        index[k].wf(),
        index[k].end_byte() <= source.len(),
        1 <= a <= index[k].length <= u64::MAX,
        answers(index, source, (index[k].name, Some(a), Some(index[k].length as u64)), r),
    ensures
        r is Ok,
        r->Ok_0.len() == index[k].length - a + 1,
        r->Ok_0 == decoded(source, index[k]).subrange(a - 1, index[k].length as int),
        forall|j: int|
            0 <= j < r->Ok_0.len() ==> {
                let p = #[trigger] index[k].residue_byte(a - 1 + j);
                &&& r->Ok_0[j] == source[p]
                &&& p < index[k].end_byte()
                &&& (p - index[k].offset) % (index[k].line_width as int) < index[k].line_bases
            },
{
    let rec = index[k];
    let lb = rec.line_bases as int;
    let lw = rec.line_width as int;
    lemma_bounded_query(index, source, k, a, rec.length as u64, r);
    lemma_range_matches_decoded(index, source, k, a, rec.length as u64, r);
    assert forall|j: int| 0 <= j < r->Ok_0.len() implies {
        let p = #[trigger] rec.residue_byte(a - 1 + j);
        &&& r->Ok_0[j] == source[p]
        &&& p < rec.end_byte()
        &&& (p - rec.offset) % lw < lb
    } by {
        let i = a - 1 + j;
        assert(r->Ok_0[j] == source[rec.residue_byte(a - 1 + j)]);
        lemma_before_end(rec, i);
        assert(0 <= i % lb < lb) by (nonlinear_arith)
            requires lb > 0;
        lemma_fundamental_div_mod_converse((i / lb) * lw + i % lb, lw, i / lb, i % lb);
    }
}

/// A range that lies inside the record's last line, when that line is
/// shorter than a full one, gives exactly the requested slice of that line.
pub proof fn lemma_range_in_short_last_line(
    index: Seq<RecordModel>,
    source: Seq<u8>,
    k: int,
    a: u64,
    b: u64,
    r: Result<Seq<u8>, QueryError>,
)
    requires
        first_match(index, index[k].name, k),
        index[k].wf(),
        index[k].end_byte() <= source.len(),
        1 <= a <= b <= index[k].length,
        index[k].length % index[k].line_bases != 0,
        (a - 1) / (index[k].line_bases as int) == index[k].length / index[k].line_bases,
        answers(index, source, (index[k].name, Some(a), Some(b)), r),
    ensures
        r == Ok::<Seq<u8>, QueryError>(
            source.subrange(
                line_start(index[k], (index[k].length / index[k].line_bases) as int) + (a - 1) % (
                index[k].line_bases as int),
                line_start(index[k], (index[k].length / index[k].line_bases) as int) + (b - 1) % (
                index[k].line_bases as int) + 1,
            ),
        ),
{
    let rec = index[k];
    let lb = rec.line_bases as int;
    let lw = rec.line_width as int;
    let q = rec.length / rec.line_bases;
    let ls = line_start(rec, q as int);
    lemma_bounded_query(index, source, k, a, b, r);
    let ra = (a - 1) % lb;
    assert(a - 1 == q * lb + ra && 0 <= ra < lb) by (nonlinear_arith)
        requires lb > 0, (a - 1) / lb == q, ra == (a - 1) % lb, a >= 1;
    let len = rec.length as int;
    assert(len == q * lb + len % lb && len % lb < lb) by (nonlinear_arith)
        requires lb > 0, q == len / lb;
    let rb = ra + (b - a);
    assert(rb < lb);
    lemma_fundamental_div_mod_converse(b - 1, lb, q as int, rb);
    lemma_before_end(rec, b - 1);
    lemma_fundamental_div_mod_converse(b - 1, lb, q as int, rb);
    let want = source.subrange(ls + ra, ls + rb + 1);
    assert forall|j: int| 0 <= j < want.len() implies #[trigger] r->Ok_0[j] == want[j] by {
        assert(r->Ok_0[j] == source[rec.residue_byte(a - 1 + j)]);
        lemma_fundamental_div_mod_converse(a - 1 + j, lb, q as int, ra + j);
    }
    assert(r->Ok_0 =~= want);
}

} // verus!
