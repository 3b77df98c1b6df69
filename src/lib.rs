//! Streaming statistics over a product catalog delivered as a byte stream.
//!
//! Records are cut out of a bounded working buffer at the `},` delimiter,
//! their fields are located by literal markers and decoded, and every
//! record is folded into a running accumulator.
use vstd::prelude::*;

pub mod search;
pub mod splitter;
pub mod decimal;
pub mod extract;
pub mod stats;
pub mod ingest;

pub use decimal::Price;
pub use ingest::Ingest;
pub use stats::{MyData, Product};

verus! {

/// Why a run stops.
#[derive(Clone, Copy, Debug, PartialEq, Eq, Structural)]
pub enum StreamError {
    /// The byte source failed.
    SourceRead,
    /// A record, with what was pending before it, does not fit in the buffer.
    BufferOverflow,
    /// A numeric field of a record does not decode.
    FieldDecode,
    /// The average was asked for with no record seen.
    FinalizeOnEmptyInput,
    /// A counter or the sum would pass the largest `u64`.
    CounterOverflow,
}

} // verus!
