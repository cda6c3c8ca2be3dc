//! Everything one collection is configured with.

use vstd::prelude::*;
use crate::config::execution::ExecutionMode;
use crate::config::limits::LimitsConfig;
use crate::config::memory::{MemoryConfig, MIB};
use crate::config::parallelism::{ParallelismConfig, ParallelismMode};
use crate::config::quantization::{QuantizationConfig, QuantizationLevel};
use crate::distance::DistanceMetric;
use crate::config::search::SearchConfig;
use crate::config::wal::WalConfig;
use crate::index::selector::IndexConfig;

verus! {

#[derive(Debug, Clone, Copy, PartialEq, Eq, Structural)]
pub struct CollectionConfig {
    pub index: IndexConfig,
    pub search: SearchConfig,
    pub quantization: QuantizationConfig,
    pub memory: MemoryConfig,
    pub wal: WalConfig,
    pub parallelism: ParallelismConfig,
    pub execution: ExecutionMode,
    pub limits: LimitsConfig,
}

/// The configuration of a collection where nothing is asked for: the index
/// chosen by size under the cosine metric, the kernels chosen by the
/// machine, no quantization, a memory map of one MiB to start with, no
/// ceiling on memory, the log enabled with a checkpoint every 1000
/// operations and none by time, a log of at most 100 MiB, no sync on every
/// write, threads as the machine has them, ten candidates for each wanted
/// hit under a filter, and no limits.
pub open spec fn default_collection_config() -> CollectionConfig {
    CollectionConfig {
        index: IndexConfig::Auto { metric: DistanceMetric::Cosine },
        search: SearchConfig { ef: None, nprobe: None, filter_overfetch: 10 },
        quantization: QuantizationConfig { level: QuantizationLevel::Off, disk_only: false },
        memory: MemoryConfig {
            max_memory_per_collection: None,
            initial_mmap_size: MIB,
            use_mmap: true,
        },
        wal: WalConfig {
            enabled: true,
            checkpoint_frequency: 1000,
            checkpoint_interval_secs: None,
            max_log_size: (100 * MIB) as usize,
            sync_on_write: false,
        },
        parallelism: ParallelismConfig { mode: ParallelismMode::Auto, parallel_search: true },
        execution: ExecutionMode::Auto,
        limits: LimitsConfig { max_vectors: None, max_bytes: None, max_vector_bytes: None },
    }
}

impl Default for CollectionConfig {
    fn default() -> (r: Self)
        ensures
            r == default_collection_config(),
    {
        CollectionConfig {
            index: IndexConfig::default(),
            search: SearchConfig::default(),
            quantization: QuantizationConfig::default(),
            memory: MemoryConfig::default(),
            wal: WalConfig::default(),
            parallelism: ParallelismConfig::default(),
            execution: ExecutionMode::Auto,
            limits: LimitsConfig::default(),
        }
    }
}

} // verus!
