//! Memory management configuration.

use vstd::prelude::*;

verus! {

/// Bytes in a mebibyte.
pub const MIB: usize = 1_048_576;

#[derive(Debug, Clone, Copy, PartialEq, Eq, Structural)]
pub struct MemoryConfig {
    /// Maximum memory per collection in bytes (`None`: unlimited).
    pub max_memory_per_collection: Option<usize>,
    /// Initial size of the data region in bytes.
    pub initial_mmap_size: usize,
    /// Whether the data file is memory-mapped.
    pub use_mmap: bool,
}

impl Default for MemoryConfig {
    fn default() -> (r: Self)
        ensures
            r == (MemoryConfig {
                max_memory_per_collection: None,
                initial_mmap_size: MIB,
                use_mmap: true,
            }),
    {
        MemoryConfig { max_memory_per_collection: None, initial_mmap_size: MIB, use_mmap: true }
    }
}

impl MemoryConfig {
    /// At most `limit_mb` MiB per collection.
    pub fn with_limit_mb(limit_mb: usize) -> (r: Self)
        requires
            limit_mb * MIB <= usize::MAX,
        ensures
            r == (MemoryConfig {
                max_memory_per_collection: Some((limit_mb * MIB) as usize),
                initial_mmap_size: MIB,
                use_mmap: true,
            }),
    {
        MemoryConfig {
            max_memory_per_collection: Some(limit_mb * MIB),
            initial_mmap_size: MIB,
            use_mmap: true,
        }
    }

    /// A data region that starts at `size_mb` MiB.
    pub fn with_mmap_size_mb(size_mb: usize) -> (r: Self)
        requires
            size_mb * MIB <= usize::MAX,
        ensures
            r == (MemoryConfig {
                max_memory_per_collection: None,
                initial_mmap_size: (size_mb * MIB) as usize,
                use_mmap: true,
            }),
    {
        MemoryConfig {
            max_memory_per_collection: None,
            initial_mmap_size: size_mb * MIB,
            use_mmap: true,
        }
    }

    /// No memory mapping.
    pub fn no_mmap() -> (r: Self)
        ensures
            r == (MemoryConfig {
                max_memory_per_collection: None,
                initial_mmap_size: 0,
                use_mmap: false,
            }),
    {
        MemoryConfig { max_memory_per_collection: None, initial_mmap_size: 0, use_mmap: false }
    }

    /// The size a data file is brought to when it is opened: the configured
    /// initial size under memory mapping, one MiB otherwise.
    pub open spec fn initial_size_spec(self) -> u64 {
        if self.use_mmap {
            self.initial_mmap_size as u64
        } else {
            MIB as u64
        }
    }

    pub fn initial_size(&self) -> (r: u64)
        ensures
            r == self.initial_size_spec(),
    {
        if self.use_mmap {
            self.initial_mmap_size as u64
        } else {
            MIB as u64
        }
    }
}

} // verus!
