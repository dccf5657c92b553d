//! A term-frequency store addressed through boundary-safe handles, together
//! with a parser for flat-text document indexes and the assembly step of an
//! ingestion pipeline that attaches fetched content to parsed entries.

use vstd::prelude::*;

pub mod boundary;
pub mod encoding;
pub mod ingest;
pub mod parse;
pub mod store;
pub mod text;

verus! {

/// Sum of two counters.
pub fn add(left: u64, right: u64) -> (r: u64)
    requires
        left + right <= u64::MAX,
    ensures
        r == left + right,
{
    left + right
}

} // verus!
