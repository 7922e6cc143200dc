//! Resolving a coordinate range against the index and serving its residues.

use crate::extract::{is_extraction, read_limit, read_sequence_limit, window_byte};
use crate::layout::{lemma_rebase, lemma_strictly_increasing};
use crate::record::{IndexRecord, RecordModel};
use crate::region::{
    parse_region, parsed_region, region_length, requested_length, CoordinateRange, QueryError,
};
use vstd::prelude::*;

verus! {

/// Models of the records of an index, in order.
pub open spec fn models(index: Seq<IndexRecord>) -> Seq<RecordModel> {
    index.map_values(|r: IndexRecord| r@)
}

/// Some record of the index carries `name`.
pub open spec fn has_name(index: Seq<RecordModel>, name: Seq<u8>) -> bool {
    exists|i: int| 0 <= i < index.len() && #[trigger] index[i].name == name
}

/// `k` is the first record of the index that carries `name`.
pub open spec fn first_match(index: Seq<RecordModel>, name: Seq<u8>, k: int) -> bool {
    &&& 0 <= k < index.len()
    &&& index[k].name == name
    &&& forall|i: int| 0 <= i < k ==> #[trigger] index[i].name != name
}

/// The first record of the index that carries `name`.
pub open spec fn first_index(index: Seq<RecordModel>, name: Seq<u8>) -> int {
    choose|k: int| first_match(index, name, k)
}

/// `out` holds residues `first, first + 1, ...` (0-based) of `rec`, in order:
/// as many as lie inside the record and inside `source`, and at most `want`.
pub open spec fn is_window(
    source: Seq<u8>,
    rec: RecordModel,
    first: int,
    want: int,
    out: Seq<u8>,
) -> bool {
    &&& out.len() <= want
    &&& out.len() == 0 || first + out.len() <= rec.length
    &&& forall|j: int| 0 <= j < out.len() ==> #[trigger] rec.residue_byte(first + j) < source.len()
    &&& forall|j: int| 0 <= j < out.len() ==> #[trigger] out[j] == source[rec.residue_byte(first + j)]
    &&& out.len() == want || first + out.len() >= rec.length || rec.residue_byte(
        first + out.len(),
    ) >= source.len()
}

/// What querying `index` over the file bytes `source` for the range `c`
/// (name, 1-based inclusive start and end) gives.
pub open spec fn answers(
    index: Seq<RecordModel>,
    source: Seq<u8>,
    c: (Seq<u8>, Option<u64>, Option<u64>),
    r: Result<Seq<u8>, QueryError>,
) -> bool {
    if !has_name(index, c.0) {
        r == Err::<Seq<u8>, QueryError>(QueryError::NotFound)
    } else {
        match requested_length(c.1, c.2) {
            Err(e) => r == Err::<Seq<u8>, QueryError>(e),
            Ok(want) => match r {
                Ok(out) => is_window(
                    source,
                    index[first_index(index, c.0)],
                    c.1->0 - 1,
                    want,
                    out,
                ),
                Err(_) => false,
            },
        }
    }
}

/// The bytes of a query's outcome.
pub open spec fn bytes_of(r: Result<Vec<u8>, QueryError>) -> Result<Seq<u8>, QueryError> {
    match r {
        Ok(v) => Ok(v@),
        Err(e) => Err(e),
    }
}

/// Where a resolved range starts and what bounds its extraction.
#[derive(Debug, Clone, Copy)]
pub struct ResolvedRange {
    /// Position in the index of the record the range names.
    pub record: usize,
    /// Absolute position of the first residue asked for, or the record end
    /// when the range starts past the record.
    pub start_byte: u64,
    /// Residues of the same line that precede `start_byte`.
    pub line_pos: u64,
    /// Number of residues asked for.
    pub length: u64,
    pub line_bases: u64,
    pub line_width: u64,
    /// Absolute position just after the record's last residue.
    pub record_end: u64,
}

/// `res` locates residue `first` (0-based) of `rec`, clamped to the record
/// end, with `want` residues asked for.
pub open spec fn locates(rec: RecordModel, first: int, want: int, res: ResolvedRange) -> bool {
    let p = if first < rec.length {
        first
    } else {
        rec.length as int
    };
    &&& res.start_byte == rec.residue_byte(p)
    &&& res.line_pos == p % (rec.line_bases as int)
    &&& res.length == want
    &&& res.line_bases == rec.line_bases
    &&& res.line_width == rec.line_width
    &&& res.record_end == rec.end_byte()
}

fn bytes_equal(a: &[u8], b: &[u8]) -> (r: bool)
    ensures
        r == (a@ == b@),
{
    if a.len() != b.len() {
        return false;
    }
    let mut i: usize = 0;
    while i < a.len()
        invariant
            a.len() == b.len(),
            i <= a.len(),
            forall|j: int| 0 <= j < i ==> a@[j] == b@[j],
        decreases a.len() - i,
    {
        if a[i] != b[i] {
            return false;
        }
        i = i + 1;
    }
    proof {
        assert(a@ =~= b@);
    }
    true
}

/// Position of the first record named `name`, if any.
pub fn find_record(index: &[IndexRecord], name: &[u8]) -> (r: Option<usize>)
    ensures
        r is None <==> !has_name(models(index@), name@),
        r matches Some(k) ==> first_match(models(index@), name@, k as int),
{
    let mut i: usize = 0;
    while i < index.len()
        invariant
            i <= index.len(),
            forall|j: int| 0 <= j < i ==> #[trigger] models(index@)[j].name != name@,
        decreases index.len() - i,
    {
        if bytes_equal(index[i].name(), name) {
            assert(models(index@)[i as int].name == name@);
            return Some(i);
        }
        i = i + 1;
    }
    None
}

/// Residue `i` of a well-formed record lies before the record end exactly
/// when `i` is below the residue count.
pub proof fn lemma_before_end(rec: RecordModel, i: int)
    requires
        rec.wf(),
        i >= 0,
    ensures
        i < rec.length <==> rec.residue_byte(i) < rec.end_byte(),
{
    let lb = rec.line_bases as int;
    let lw = rec.line_width as int;
    assert(rec.residue_byte(rec.length as int) == rec.end_byte());
    if i < rec.length {
        lemma_strictly_increasing(rec.offset as int, lb, lw, i, rec.length as int);
    } else if i > rec.length {
        lemma_strictly_increasing(rec.offset as int, lb, lw, rec.length as int, i);
    }
}

/// Two records that are both the first to carry a name are the same.
pub proof fn lemma_first_match_unique(index: Seq<RecordModel>, name: Seq<u8>, k: int)
    requires
        first_match(index, name, k),
    ensures
        first_index(index, name) == k,
{
    let c = first_index(index, name);
    assert(first_match(index, name, c));
    if c < k {
        assert(index[c].name != name);
    } else if k < c {
        assert(index[k].name != name);
    }
}

/// The extractor's output, on a window located by `locates`, is the window
/// of residues that the query asks for.
pub proof fn lemma_extraction_is_window(
    source: Seq<u8>,
    rec: RecordModel,
    first: int,
    want: int,
    res: ResolvedRange,
    out: Seq<u8>,
)
    requires
        rec.wf(),
        first >= 0,
        locates(rec, first, want, res),
        is_extraction(
            source,
            res.start_byte as int,
            res.line_pos as int,
            want,
            rec.line_bases as int,
            rec.line_width as int,
            res.record_end as int,
            out,
        ),
    ensures
        is_window(source, rec, first, want, out),
{
    let lb = rec.line_bases as int;
    let lw = rec.line_width as int;
    let o = rec.offset as int;
    let p = if first < rec.length {
        first
    } else {
        rec.length as int
    };
    let limit = read_limit(source.len() as int, res.record_end as int);
    assert(res.start_byte - res.line_pos == o + (p / lb) * lw);
    assert forall|j: int| j >= 0 implies #[trigger] window_byte(
        res.start_byte as int,
        res.line_pos as int,
        lb,
        lw,
        j,
    ) == rec.residue_byte(p + j) by {
        lemma_rebase(o, lb, lw, p, j);
    }
    if first >= rec.length {
        lemma_before_end(rec, p);
        assert(window_byte(res.start_byte as int, res.line_pos as int, lb, lw, 0) >= limit);
    } else {
        assert forall|j: int| 0 <= j < out.len() implies #[trigger] rec.residue_byte(first + j)
            < source.len() && out[j] == source[rec.residue_byte(first + j)] by {
            assert(window_byte(res.start_byte as int, res.line_pos as int, lb, lw, j) < limit);
        }
        if out.len() > 0 {
            let last = out.len() - 1;
            assert(window_byte(res.start_byte as int, res.line_pos as int, lb, lw, last) < limit);
            lemma_before_end(rec, first + last);
        }
        if out.len() != want {
            assert(window_byte(
                res.start_byte as int,
                res.line_pos as int,
                lb,
                lw,
                out.len() as int,
            ) >= limit);
            lemma_before_end(rec, first + out.len());
        }
    }
}

/// Locates the range `region` asks for: the first record carrying its name,
/// the byte of its first residue and the record's geometry.
pub fn resolve_region(index: &[IndexRecord], region: &CoordinateRange) -> (r: Result<
    ResolvedRange,
    QueryError,
>)
    ensures
        !has_name(models(index@), region.name@) ==> r == Err::<ResolvedRange, QueryError>(
            QueryError::NotFound,
        ),
        has_name(models(index@), region.name@) ==> match requested_length(region.start, region.end) {
            Err(e) => r == Err::<ResolvedRange, QueryError>(e),
            Ok(want) => match r {
                Ok(res) => {
                    &&& first_match(models(index@), region.name@, res.record as int)
                    &&& models(index@)[res.record as int].wf()
                    &&& locates(
                        models(index@)[res.record as int],
                        region.start->0 - 1,
                        want,
                        res,
                    )
                },
                Err(_) => false,
            },
        },
{
    let k = match find_record(index, region.name.as_slice()) {
        Some(k) => k,
        None => return Err(QueryError::NotFound),
    };
    let want = match region_length(region) {
        Ok(n) => n,
        Err(e) => return Err(e),
    };
    let start = match region.start {
        Some(s) => s,
        None => return Err(QueryError::UnsupportedRange),
    };
    let rec = &index[k];
    let length = rec.length();
    let offset = rec.offset();
    let line_bases = rec.line_bases();
    let line_width = rec.line_width();
    let record_end = rec.end_byte();
    let first = start - 1;
    let p = if first < length {
        first
    } else {
        length
    };
    proof {
        let lb = line_bases as int;
        let lw = line_width as int;
        if p < length {
            lemma_strictly_increasing(offset as int, lb, lw, p as int, length as int);
        }
        assert(0 <= (p / line_bases) * line_width) by (nonlinear_arith)
            requires line_bases > 0, line_width >= 0, p >= 0;
    }
    let start_byte = offset + (p / line_bases) * line_width + p % line_bases;
    Ok(
        ResolvedRange {
            record: k,
            start_byte,
            line_pos: p % line_bases,
            length: want,
            line_bases,
            line_width,
            record_end,
        },
    )
}

/// Residues of the range `region` asks for, read from the file bytes
/// `source` with the index `index`. Fewer than asked for come back only
/// where the record or the file ends first.
pub fn query(index: &[IndexRecord], source: &[u8], region: &CoordinateRange) -> (r: Result<
    Vec<u8>,
    QueryError,
>)
    ensures
        answers(models(index@), source@, region@, bytes_of(r)),
{
    let res = match resolve_region(index, region) {
        Ok(res) => res,
        Err(e) => return Err(e),
    };
    let mut buf: Vec<u8> = Vec::new();
    let _ = read_sequence_limit(
        source,
        res.start_byte,
        res.line_pos,
        res.length,
        res.line_bases,
        res.line_width,
        res.record_end,
        &mut buf,
    );
    proof {
        let m = models(index@);
        let rec = m[res.record as int];
        let want = requested_length(region.start, region.end)->Ok_0;
        lemma_first_match_unique(m, region.name@, res.record as int);
        assert(buf@.subrange(0, buf@.len() as int) =~= buf@);
        lemma_extraction_is_window(source@, rec, region.start->0 - 1, want, res, buf@);
    }
    Ok(buf)
}

/// Residues of the region written as `name[:start[-end]]`.
pub fn query_region(index: &[IndexRecord], source: &[u8], region_str: &str) -> (r: Result<
    Vec<u8>,
    QueryError,
>)
    ensures
        match parsed_region(region_str@) {
            None => r == Err::<Vec<u8>, QueryError>(QueryError::MalformedRegion),
            Some(c) => answers(models(index@), source@, c, bytes_of(r)),
        },
{
    match parse_region(region_str) {
        Ok(region) => query(index, source, &region),
        Err(e) => Err(e),
    }
}

} // verus!
