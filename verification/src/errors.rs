//! What can go wrong while aggregating.

use vstd::prelude::*;

verus! {

/// Why an aggregation step was refused. A refused step changes nothing.
#[derive(Clone, Copy, PartialEq, Eq, Structural, Debug)]
pub enum AggregationError {
    /// The document is not a mapping from names to values: it is no object,
    /// or two of its members have the same name.
    MalformedDocument,
    /// The two sides of a merge were built under different classification
    /// rules or with different tracking strategies.
    IncompatibleMerge,
    /// The snapshot is not that of an aggregate.
    InvalidSnapshot,
}

} // verus!
