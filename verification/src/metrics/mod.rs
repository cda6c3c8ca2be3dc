//! Counters of the process.

pub mod embed;

pub use embed::{EmbedMetrics, EmbedMetricsSnapshot};
