//! Search mode configuration.

use vstd::prelude::*;
use crate::score::Score;

verus! {

#[derive(Debug, Clone, Copy, PartialEq, Eq, Structural)]
pub enum SearchMode {
    /// K-nearest neighbours: the best k results.
    KNN,
    /// Range search: everything within a threshold.
    Range,
}

impl Default for SearchMode {
    fn default() -> (r: Self)
        ensures
            r == SearchMode::KNN,
    {
        SearchMode::KNN
    }
}

/// Parameters of a range search.
#[derive(Debug, Clone, Copy, PartialEq, Eq, Structural)]
pub struct RangeSearchParams {
    /// The threshold a result has to reach.
    pub max_distance: Score,
    /// Maximum number of results (`None`: unlimited).
    pub max_results: Option<usize>,
}

impl RangeSearchParams {
    pub fn new(max_distance: Score) -> (r: Self)
        ensures
            r == (RangeSearchParams { max_distance, max_results: None }),
    {
        RangeSearchParams { max_distance, max_results: None }
    }

    pub fn with_limit(max_distance: Score, max_results: usize) -> (r: Self)
        ensures
            r == (RangeSearchParams { max_distance, max_results: Some(max_results) }),
    {
        RangeSearchParams { max_distance, max_results: Some(max_results) }
    }
}

} // verus!
