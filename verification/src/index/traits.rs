//! What every index kind reports about itself.

use vstd::prelude::*;

verus! {

/// The three kinds of index.
#[derive(Debug, Clone, Copy, PartialEq, Eq, Structural)]
pub enum IndexType {
    /// Linear scan over all vectors.
    Flat,
    /// Layered proximity graph.
    Hnsw,
    /// Inverted lists under k-means centroids.
    Ivf,
}

/// What is particular to one kind of index.
#[derive(Debug)]
pub enum IndexDetails {
    Flat,
    Hnsw {
        /// Highest layer in use (`None` for an empty graph).
        max_layer: Option<usize>,
        /// Number of nodes present at each layer, layer 0 first.
        layer_sizes: Vec<usize>,
        /// Sum of the lengths of all neighbour lists.
        total_connections: usize,
        /// Nodes marked as removed.
        tombstones: usize,
    },
    Ivf {
        /// Number of centroids (0: not trained yet).
        num_clusters: usize,
    },
}

/// Figures of an index.
#[derive(Debug)]
pub struct IndexStats {
    pub index_type: IndexType,
    /// Vectors the index answers for.
    pub total_vectors: usize,
    /// Approximate memory taken by the index, in bytes.
    pub memory_usage_bytes: usize,
    pub details: IndexDetails,
}

} // verus!
