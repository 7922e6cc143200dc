//! Random-access extraction of residue ranges from line-wrapped sequence
//! files, driven by a per-record byte-offset index.

pub mod extract;
pub mod laws;
pub mod layout;
pub mod query;
pub mod record;
pub mod region;

pub use crate::extract::read_sequence_limit;
pub use crate::query::{find_record, query, query_region, resolve_region, ResolvedRange};
pub use crate::record::IndexRecord;
pub use crate::region::{parse_region, region_length, CoordinateRange, QueryError};
