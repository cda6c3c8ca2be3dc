//! The similarity metrics a collection can rank by.

use vstd::prelude::*;

verus! {

/// How two vectors are compared. The arithmetic itself is floating point and
/// belongs to the host; the library only carries the choice.
#[derive(Debug, Clone, Copy, PartialEq, Eq, Structural)]
pub enum DistanceMetric {
    /// Cosine similarity, in [-1, 1].
    Cosine,
    /// Euclidean distance, ranked through `1 / (1 + d)`.
    Euclidean,
    /// Dot product.
    DotProduct,
}

impl Default for DistanceMetric {
    fn default() -> (r: Self)
        ensures
            r == DistanceMetric::Cosine,
    {
        DistanceMetric::Cosine
    }
}

} // verus!
