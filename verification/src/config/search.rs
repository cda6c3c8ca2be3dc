//! Search tuning.

use vstd::prelude::*;

verus! {

#[derive(Debug, Clone, Copy, PartialEq, Eq, Structural)]
pub struct SearchConfig {
    /// Size of the dynamic candidate list of a graph search (`None`: the index's own).
    pub ef: Option<usize>,
    /// Number of clusters an inverted-file search probes (`None`: the index's own).
    pub nprobe: Option<usize>,
    /// Factor by which `k` is inflated when a filter will drop hits afterwards.
    pub filter_overfetch: usize,
}

impl Default for SearchConfig {
    fn default() -> (r: Self)
        ensures
            r == (SearchConfig { ef: None, nprobe: None, filter_overfetch: 10 }),
    {
        SearchConfig { ef: None, nprobe: None, filter_overfetch: 10 }
    }
}

} // verus!
