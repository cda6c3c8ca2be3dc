//! Which implementation of the distance kernels the host runs.

use vstd::prelude::*;

verus! {

#[derive(Debug, Clone, Copy, PartialEq, Eq, Structural)]
pub enum ExecutionMode {
    /// Let the collection's configuration decide.
    Auto,
    /// Eight lanes at a time.
    Simd,
    /// One component at a time.
    Scalar,
    /// Chunks on a thread pool.
    Parallel,
}

impl Default for ExecutionMode {
    fn default() -> (r: Self)
        ensures
            r == ExecutionMode::Auto,
    {
        ExecutionMode::Auto
    }
}

} // verus!
