//! The flat index: an exact linear scan.

pub mod config;
pub mod scan;

pub use scan::FlatIndex;
