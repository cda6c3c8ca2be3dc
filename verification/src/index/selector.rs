//! Choosing the index kind for a collection.

use vstd::prelude::*;
use crate::DocId;
use crate::config::execution::ExecutionMode;
use crate::distance::DistanceMetric;
use crate::index::ann::AnnIndex;
use crate::index::flat::config::FlatConfig;
use crate::index::flat::scan::FlatIndex;
use crate::index::hnsw::config::{HnswConfig, DEFAULT_ML_BITS};
use crate::index::hnsw::graph::HnswIndex;
use crate::index::ivf::config::IvfConfig;
use crate::index::ivf::lists::IvfIndex;
use crate::index::traits::IndexType;

verus! {

/// Below this many vectors an automatic choice is the flat index.
pub const FLAT_BELOW: usize = 10_000;

/// Below this many vectors (and from `FLAT_BELOW` on) an automatic choice is
/// the inverted-file index; from here on it is the graph index.
pub const IVF_BELOW: usize = 100_000;

/// Unified index configuration.
#[derive(Debug, Clone, Copy, PartialEq, Eq, Structural)]
pub enum IndexConfig {
    /// Choose by the size of the collection.
    Auto { metric: DistanceMetric },
    /// Flat index (brute force).
    Flat { metric: DistanceMetric },
    /// HNSW index. `ml` holds the bits of a single-precision float.
    Hnsw { m: usize, m_max: usize, ef_construction: usize, ml: u32, metric: DistanceMetric },
    /// IVF index.
    Ivf { num_clusters: usize, num_probes: usize, max_iterations: usize, metric: DistanceMetric },
}

impl Default for IndexConfig {
    fn default() -> (r: Self)
        ensures
            r == (IndexConfig::Auto { metric: DistanceMetric::Cosine }),
    {
        IndexConfig::Auto { metric: DistanceMetric::Cosine }
    }
}

impl IndexConfig {
    /// The kind of index for `num_vectors` vectors: the configured one, or by
    /// size where the configuration leaves it open.
    pub open spec fn selected(self, num_vectors: usize) -> IndexType {
        match self {
            IndexConfig::Auto { .. } => if num_vectors < FLAT_BELOW {
                IndexType::Flat
            } else if num_vectors < IVF_BELOW {
                IndexType::Ivf
            } else {
                IndexType::Hnsw
            },
            IndexConfig::Flat { .. } => IndexType::Flat,
            IndexConfig::Hnsw { .. } => IndexType::Hnsw,
            IndexConfig::Ivf { .. } => IndexType::Ivf,
        }
    }

    /// The metric this configuration ranks by.
    pub open spec fn metric(self) -> DistanceMetric {
        match self {
            IndexConfig::Auto { metric } => metric,
            IndexConfig::Flat { metric } => metric,
            IndexConfig::Hnsw { metric, .. } => metric,
            IndexConfig::Ivf { metric, .. } => metric,
        }
    }

    /// Whether `r` is an index as this configuration makes it for
    /// `num_vectors` vectors: of the selected kind, ranking by the
    /// configured metric, under the parameters that the configuration gives
    /// for its kind or, where the kind was chosen by size, 16 connections
    /// per node (32 on layer 0) and candidate lists of 200 for a graph, and
    /// the clusters of `IvfConfig::auto` for an inverted-file index.
    pub open spec fn makes(self, num_vectors: usize, r: AnnIndex) -> bool {
        &&& match self.selected(num_vectors) {
            IndexType::Flat => r is Flat,
            IndexType::Hnsw => r is Hnsw,
            IndexType::Ivf => r is Ivf,
        }
        &&& match r {
            AnnIndex::Flat(f) => f.config.metric == self.metric(),
            AnnIndex::Hnsw(h) => h.config.metric == self.metric() && match self {
                IndexConfig::Hnsw { m, m_max, ef_construction, ml, .. } => h.config.m == m
                    && h.config.m_max == m_max && h.config.ef_construction == ef_construction
                    && h.config.ml == ml,
                _ => h.config.m == 16 && h.config.m_max == 32 && h.config.ef_construction == 200
                    && h.config.ml == DEFAULT_ML_BITS,
            },
            AnnIndex::Ivf(i) => i.config.metric == self.metric() && match self {
                IndexConfig::Ivf { num_clusters, num_probes, max_iterations, .. } =>
                    i.config.num_clusters == num_clusters && i.config.num_probes == num_probes
                        && i.config.max_iterations == max_iterations,
                _ => crate::index::ivf::config::auto_clusters(
                    num_vectors as int,
                    i.config.num_clusters as int,
                ),
            },
        }
    }

    pub fn select_type(&self, num_vectors: usize) -> (r: IndexType)
        ensures
            r == self.selected(num_vectors),
    {
        match self {
            IndexConfig::Auto { .. } => {
                if num_vectors < FLAT_BELOW {
                    IndexType::Flat
                } else if num_vectors < IVF_BELOW {
                    IndexType::Ivf
                } else {
                    IndexType::Hnsw
                }
            },
            IndexConfig::Flat { .. } => IndexType::Flat,
            IndexConfig::Hnsw { .. } => IndexType::Hnsw,
            IndexConfig::Ivf { .. } => IndexType::Ivf,
        }
    }

    /// An empty index of the kind that `select_type` chooses for
    /// `num_vectors` vectors, ranking by this configuration's metric. A
    /// graph or an inverted-file index takes the parameters that the
    /// configuration gives for its kind; where the kind was chosen by size,
    /// a graph has 16 connections per node (32 on layer 0) and candidate
    /// lists of 200, and an inverted-file index is sized by `IvfConfig::auto`.
    pub fn create_index(&self, num_vectors: usize) -> (r: AnnIndex)
        ensures
            r.wf(),
            self.makes(num_vectors, r),
            match r {
                AnnIndex::Flat(_) => true,
                AnnIndex::Hnsw(h) => h.nodes@.len() == 0,
                AnnIndex::Ivf(i) => i.centroids@.len() == 0 && i.cluster_of@ == Map::<
                    DocId,
                    usize,
                >::empty(),
            },
    {
        let metric = self.get_metric();
        match self.select_type(num_vectors) {
            IndexType::Flat => AnnIndex::Flat(
                FlatIndex::new(FlatConfig { metric, mode: ExecutionMode::Auto }),
            ),
            IndexType::Hnsw => {
                let config = match self {
                    IndexConfig::Hnsw { m, m_max, ef_construction, ml, metric } => HnswConfig {
                        m: *m,
                        m_max: *m_max,
                        ef_construction: *ef_construction,
                        ef_search: 200,
                        ml: *ml,
                        metric: *metric,
                        mode: ExecutionMode::Auto,
                    },
                    _ => HnswConfig {
                        m: 16,
                        m_max: 32,
                        ef_construction: 200,
                        ef_search: 200,
                        ml: DEFAULT_ML_BITS,
                        metric,
                        mode: ExecutionMode::Auto,
                    },
                };
                AnnIndex::Hnsw(HnswIndex::new(config))
            },
            IndexType::Ivf => {
                let config = match self {
                    IndexConfig::Ivf { num_clusters, num_probes, max_iterations, metric } => IvfConfig {
                        num_clusters: *num_clusters,
                        num_probes: *num_probes,
                        max_iterations: *max_iterations,
                        metric: *metric,
                        mode: ExecutionMode::Auto,
                    },
                    _ => {
                        let auto = IvfConfig::auto(num_vectors);
                        IvfConfig {
                            num_clusters: auto.num_clusters,
                            num_probes: auto.num_probes,
                            max_iterations: auto.max_iterations,
                            metric,
                            mode: ExecutionMode::Auto,
                        }
                    },
                };
                AnnIndex::Ivf(IvfIndex::new(config))
            },
        }
    }

    pub fn get_metric(&self) -> (r: DistanceMetric)
        ensures
            r == self.metric(),
    {
        match self {
            IndexConfig::Auto { metric } => *metric,
            IndexConfig::Flat { metric } => *metric,
            IndexConfig::Hnsw { metric, .. } => *metric,
            IndexConfig::Ivf { metric, .. } => *metric,
        }
    }
}

} // verus!
