//! Size limits of a collection.

use vstd::prelude::*;

verus! {

#[derive(Debug, Clone, Copy, PartialEq, Eq, Structural)]
pub struct LimitsConfig {
    /// Most vectors a collection may hold (`None`: unlimited).
    pub max_vectors: Option<usize>,
    /// Most bytes of the data region that documents may occupy (`None`: unlimited).
    pub max_bytes: Option<u64>,
    /// Most bytes one encoded document may take (`None`: unlimited).
    pub max_vector_bytes: Option<usize>,
}

impl Default for LimitsConfig {
    fn default() -> (r: Self)
        ensures
            r == (LimitsConfig { max_vectors: None, max_bytes: None, max_vector_bytes: None }),
    {
        LimitsConfig { max_vectors: None, max_bytes: None, max_vector_bytes: None }
    }
}

} // verus!
