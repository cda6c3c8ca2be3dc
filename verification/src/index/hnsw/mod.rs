//! The HNSW index: a layered proximity graph.

pub mod config;
pub mod figures;
pub mod graph;
pub mod reach;
pub mod snapshot;
pub mod walk;

pub use graph::HnswIndex;
