//! Why an operation is refused.

use vstd::prelude::*;

verus! {

/// The part of an opening request that the collection cannot serve.
#[derive(Debug, Clone, Copy, PartialEq, Eq, Structural)]
pub enum ConfigFault {
    /// The metric is not `"cosine"`.
    Metric,
    /// The index type is not `"hnsw"`.
    IndexType,
    /// The requested vector length is zero.
    Dimensions,
}

/// Why an operation was refused.
#[derive(Debug, Clone, Copy, PartialEq, Eq, Structural)]
pub enum Error {
    /// The configuration names a metric, an index type or a vector length
    /// that is not supported.
    UnsupportedConfiguration(ConfigFault),
    /// No collection is open under the given path.
    NotFound,
    /// A vector, a query or a stored snapshot has another length than the
    /// collection was declared with.
    DimensionMismatch { expected: usize, got: usize },
    /// A component of an inserted vector is infinite or not a number.
    NonFiniteComponent,
    /// The stored snapshot does not describe a collection.
    CorruptSnapshot,
}

} // verus!
