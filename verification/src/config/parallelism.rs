//! Parallelism configuration for concurrent operations.

use vstd::prelude::*;

verus! {

#[derive(Debug, Clone, Copy, PartialEq, Eq, Structural)]
pub enum ParallelismMode {
    /// Single-threaded execution.
    SingleThreaded,
    /// Use all available CPU cores.
    Auto,
    /// Use a specific number of threads.
    Fixed(usize),
}

impl Default for ParallelismMode {
    fn default() -> (r: Self)
        ensures
            r == ParallelismMode::Auto,
    {
        ParallelismMode::Auto
    }
}

#[derive(Debug, Clone, Copy, PartialEq, Eq, Structural)]
pub struct ParallelismConfig {
    /// Thread pool mode.
    pub mode: ParallelismMode,
    /// Enable parallel search (when applicable).
    pub parallel_search: bool,
}

impl Default for ParallelismConfig {
    fn default() -> (r: Self)
        ensures
            r == (ParallelismConfig { mode: ParallelismMode::Auto, parallel_search: true }),
    {
        ParallelismConfig { mode: ParallelismMode::Auto, parallel_search: true }
    }
}

/// `num_cpus::get`: the number of logical CPUs available to this process.
/// The crate documents that it is at least 1; which number it is depends on
/// the machine and is not stated.
#[verifier::external_body]
fn available_cpus() -> (n: usize)
    ensures
        n >= 1,
{
    num_cpus::get()
}

impl ParallelismConfig {
    /// One thread, no parallel search.
    pub fn single_threaded() -> (r: Self)
        ensures
            r == (ParallelismConfig {
                mode: ParallelismMode::SingleThreaded,
                parallel_search: false,
            }),
    {
        ParallelismConfig { mode: ParallelismMode::SingleThreaded, parallel_search: false }
    }

    /// A pool of `num_threads` threads.
    pub fn fixed(num_threads: usize) -> (r: Self)
        ensures
            r == (ParallelismConfig {
                mode: ParallelismMode::Fixed(num_threads),
                parallel_search: true,
            }),
    {
        ParallelismConfig { mode: ParallelismMode::Fixed(num_threads), parallel_search: true }
    }

    /// The thread count for a machine with `cpus` logical CPUs.
    pub open spec fn threads_on(self, cpus: usize) -> usize {
        match self.mode {
            ParallelismMode::SingleThreaded => 1,
            ParallelismMode::Auto => cpus,
            ParallelismMode::Fixed(n) => n,
        }
    }

    /// The thread count for a machine with `cpus` logical CPUs.
    pub fn num_threads_on(&self, cpus: usize) -> (r: usize)
        ensures
            r == self.threads_on(cpus),
    {
        match self.mode {
            ParallelismMode::SingleThreaded => 1,
            ParallelismMode::Auto => cpus,
            ParallelismMode::Fixed(n) => n,
        }
    }

    /// The number of threads to use on this machine.
    pub fn num_threads(&self) -> (r: usize)
        ensures
            exists|cpus: usize| cpus >= 1 && r == self.threads_on(cpus),
            !(self.mode is Auto) ==> r == self.threads_on(1),
    {
        let cpus: usize = available_cpus();
        self.num_threads_on(cpus)
    }

    /// The same configuration with a fixed pool of `n` threads; search runs
    /// in parallel when there is more than one thread.
    pub fn with_num_threads(self, n: usize) -> (r: Self)
        ensures
            r == (ParallelismConfig { mode: ParallelismMode::Fixed(n), parallel_search: n > 1 }),
    {
        ParallelismConfig { mode: ParallelismMode::Fixed(n), parallel_search: n > 1 }
    }
}

} // verus!
