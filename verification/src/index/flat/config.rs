//! Flat index configuration.

use vstd::prelude::*;
use crate::config::execution::ExecutionMode;
use crate::distance::DistanceMetric;

verus! {

#[derive(Debug, Clone, Copy, PartialEq, Eq, Structural)]
pub struct FlatConfig {
    pub metric: DistanceMetric,
    pub mode: ExecutionMode,
}

impl Default for FlatConfig {
    fn default() -> (r: Self)
        ensures
            r == (FlatConfig { metric: DistanceMetric::Cosine, mode: ExecutionMode::Auto }),
    {
        FlatConfig { metric: DistanceMetric::Cosine, mode: ExecutionMode::Auto }
    }
}

} // verus!
