//! Nearest-neighbour indices: the capability and its three kinds.

pub mod ann;
pub mod flat;
pub mod hnsw;
pub mod ivf;
pub mod ranking;
pub mod selector;
pub mod traits;

pub use ann::AnnIndex;
pub use flat::config::FlatConfig;
pub use flat::scan::FlatIndex;
pub use hnsw::config::{HnswConfig, HnswStats};
pub use hnsw::graph::HnswIndex;
pub use ivf::lists::IvfIndex;
pub use ivf::config::IvfConfig;
pub use ranking::{top_k, Scored};
pub use selector::IndexConfig;
pub use traits::{IndexDetails, IndexStats, IndexType};
