//! The IVF index: inverted lists under k-means centroids.

pub mod config;
pub mod lists;
pub mod snapshot;
pub mod train;

pub use lists::IvfIndex;
