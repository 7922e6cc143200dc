//! Coordinate ranges and the conditions a query can fail with.

use vstd::prelude::*;

verus! {

/// Why a query produced no residues.
#[derive(Debug, Clone, Copy, PartialEq, Eq, Structural)]
pub enum QueryError {
    /// The region text could not be parsed.
    MalformedRegion,
    /// No index record carries the requested name.
    NotFound,
    /// The range lacks a start or an end; only bounded ranges are served.
    UnsupportedRange,
    /// The range starts before position 1 or ends before it starts.
    InvalidRange,
}

/// A named interval of 1-based, inclusive residue positions; either bound
/// may be absent.
#[derive(Debug, Clone)]
pub struct CoordinateRange {
    pub name: Vec<u8>,
    pub start: Option<u64>,
    pub end: Option<u64>,
}

impl View for CoordinateRange {
    type V = (Seq<u8>, Option<u64>, Option<u64>);

    open spec fn view(&self) -> (Seq<u8>, Option<u64>, Option<u64>) {
        (self.name@, self.start, self.end)
    }
}

/// Number of residues a range of bounds `start` and `end` asks for, or why
/// it asks for none.
pub open spec fn requested_length(start: Option<u64>, end: Option<u64>) -> Result<
    int,
    QueryError,
> {
    match (start, end) {
        (Some(s), Some(e)) => if 1 <= s && s <= e {
            Ok(e - s + 1)
        } else {
            Err(QueryError::InvalidRange)
        },
        _ => Err(QueryError::UnsupportedRange),
    }
}

/// Number of residues that `region` asks for: `end - start + 1` for a
/// bounded range with `1 <= start <= end`.
pub fn region_length(region: &CoordinateRange) -> (r: Result<u64, QueryError>)
    ensures
        match r {
            Ok(n) => requested_length(region.start, region.end) == Ok::<int, QueryError>(n as int),
            Err(e) => requested_length(region.start, region.end) == Err::<int, QueryError>(e),
        },
{
    match (region.start, region.end) {
        (Some(s), Some(e)) => {
            if 1 <= s && s <= e {
                Ok(e - s + 1)
            } else {
                Err(QueryError::InvalidRange)
            }
        },
        _ => Err(QueryError::UnsupportedRange),
    }
}

/// noodles_core's error for region text it cannot read, carried opaque.
#[verifier::external_type_specification]
#[verifier::external_body]
pub struct ExRegionParseError(noodles_core::region::ParseError);

/// The region that noodles_core reads from a text of the form
/// `name[:start[-end]]`, as name bytes and bounds.
pub uninterp spec fn parsed_region(s: Seq<char>) -> Option<(Seq<u8>, Option<u64>, Option<u64>)>;

/// Relies on noodles_core's `Region::from_str` to read the region text; its
/// positions are non-zero and an empty text is refused.
#[verifier::external_body]
fn region_from_str(s: &str) -> (r: Result<CoordinateRange, noodles_core::region::ParseError>)
    ensures
        match r {
            Ok(c) => parsed_region(s@) == Some(c@),
            Err(_) => parsed_region(s@) is None,
        },
        s@.len() == 0 ==> r is Err,
        r matches Ok(c) ==> (c.start matches Some(p) ==> p >= 1) && (c.end matches Some(p) ==> p
            >= 1),
{
    match s.parse::<noodles_core::Region>() {
        Ok(region) => Ok(CoordinateRange {
            name: region.name().to_vec(),
            start: region.interval().start().map(|p| p.get() as u64),
            end: region.interval().end().map(|p| p.get() as u64),
        }),
        Err(e) => Err(e),
    }
}

/// Reads region text `name[:start[-end]]` into a coordinate range.
pub fn parse_region(s: &str) -> (r: Result<CoordinateRange, QueryError>)
    ensures
        match r {
            Ok(c) => parsed_region(s@) == Some(c@),
            Err(e) => parsed_region(s@) is None && e == QueryError::MalformedRegion,
        },
        s@.len() == 0 ==> r == Err::<CoordinateRange, QueryError>(QueryError::MalformedRegion),
{
    match region_from_str(s) {
        Ok(c) => Ok(c),
        Err(_) => Err(QueryError::MalformedRegion),
    }
}

} // verus!
