//! HNSW types and configuration.

use vstd::prelude::*;
use crate::config::execution::ExecutionMode;
use crate::distance::DistanceMetric;

verus! {

/// The bits of the single-precision float `1 / ln 16`, the layer multiplier
/// that goes with 16 connections per node.
pub const DEFAULT_ML_BITS: u32 = 0x3eb8_aa3b;

#[derive(Debug, Clone, Copy, PartialEq, Eq, Structural)]
pub struct HnswConfig {
    /// Most connections of a node above layer 0.
    pub m: usize,
    /// Most connections of a node at layer 0.
    pub m_max: usize,
    /// Size of the dynamic candidate list while inserting.
    pub ef_construction: usize,
    /// Size of the dynamic candidate list while searching.
    pub ef_search: usize,
    /// Layer multiplier `1 / ln(m)`, as the bits of a single-precision float.
    pub ml: u32,
    /// Similarity metric.
    pub metric: DistanceMetric,
    /// Which distance kernels the host runs.
    pub mode: ExecutionMode,
}

impl Default for HnswConfig {
    fn default() -> (r: Self)
        ensures
            r == (HnswConfig {
                m: 16,
                m_max: 32,
                ef_construction: 200,
                ef_search: 200,
                ml: DEFAULT_ML_BITS,
                metric: DistanceMetric::Cosine,
                mode: ExecutionMode::Auto,
            }),
    {
        HnswConfig {
            m: 16,
            m_max: 32,
            ef_construction: 200,
            ef_search: 200,
            ml: DEFAULT_ML_BITS,
            metric: DistanceMetric::Cosine,
            mode: ExecutionMode::Auto,
        }
    }
}

/// Figures of a graph index.
#[derive(Debug, Clone)]
pub struct HnswStats {
    /// Nodes in the graph, tombstoned ones included.
    pub total_nodes: usize,
    /// Highest layer in use (`None` for an empty graph).
    pub max_layer: Option<usize>,
    /// Number of nodes present at each layer, layer 0 first.
    pub layer_sizes: Vec<usize>,
    /// Nodes marked as removed.
    pub tombstones: usize,
    /// Sum of the lengths of all neighbour lists.
    pub total_connections: usize,
    /// Approximate memory taken by the graph, in bytes.
    pub memory_usage_bytes: usize,
}

} // verus!
