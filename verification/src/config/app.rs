//! The application's configuration: every part a collection needs, its
//! validation, and the overrides that the environment may impose.

use vstd::prelude::*;
use crate::config::collection::default_collection_config;
use crate::config::collection::CollectionConfig;
use crate::config::execution::ExecutionMode;
use crate::config::limits::LimitsConfig;
use crate::config::memory::{MemoryConfig, MIB};
use crate::config::parallelism::{ParallelismConfig, ParallelismMode};
use crate::config::quantization::QuantizationConfig;
use crate::config::search::SearchConfig;
use crate::config::wal::WalConfig;
use crate::distance::DistanceMetric;
use crate::index::hnsw::config::DEFAULT_ML_BITS;
use crate::index::selector::IndexConfig;
use crate::index::traits::IndexType;

verus! {

#[derive(Debug, Clone, Copy, PartialEq, Eq, Structural)]
pub struct AppConfig {
    pub index: IndexConfig,
    pub quantization: QuantizationConfig,
    pub memory: MemoryConfig,
    pub wal: WalConfig,
    pub parallelism: ParallelismConfig,
    pub execution: ExecutionMode,
    pub search: SearchConfig,
    pub limits: LimitsConfig,
}

/// Why a configuration is refused.
#[derive(Debug, Clone, Copy, PartialEq, Eq, Structural)]
pub enum ConfigFault {
    /// The log is enabled with a checkpoint frequency of 0.
    CheckpointFrequencyZero,
    /// The filter overfetch factor is 0.
    FilterOverfetchZero,
    /// Memory mapping is enabled with an initial size of 0.
    InitialMmapSizeZero,
}

/// Settings taken from the process environment, already parsed. A field is
/// `None` where the variable is unset or does not parse.
#[derive(Debug, Clone, Copy, PartialEq, Eq, Structural)]
pub struct Overrides {
    /// The index kind asked for by name.
    pub index_type: Option<IndexType>,
    pub wal_enabled: Option<bool>,
    pub wal_checkpoint_frequency: Option<usize>,
    pub wal_checkpoint_interval_secs: Option<u64>,
    pub memory_use_mmap: Option<bool>,
    /// Initial size of the data region, in MiB.
    pub memory_initial_mmap_mb: Option<usize>,
    pub parallel_search: Option<bool>,
    pub num_threads: Option<usize>,
    pub execution_mode: Option<ExecutionMode>,
    pub search_filter_overfetch: Option<usize>,
    pub limit_max_vectors: Option<usize>,
    pub limit_max_bytes: Option<u64>,
    pub limit_max_vector_bytes: Option<usize>,
}

/// The index configuration that naming a kind in the environment stands for.
pub open spec fn index_preset(kind: IndexType) -> IndexConfig {
    match kind {
        IndexType::Flat => IndexConfig::Flat { metric: DistanceMetric::Cosine },
        IndexType::Hnsw => IndexConfig::Hnsw {
            m: 16,
            m_max: 32,
            ef_construction: 200,
            ml: DEFAULT_ML_BITS,
            metric: DistanceMetric::Cosine,
        },
        IndexType::Ivf => IndexConfig::Ivf {
            num_clusters: 256,
            num_probes: 8,
            max_iterations: 20,
            metric: DistanceMetric::Cosine,
        },
    }
}

/// `x`, but at least 1.
pub open spec fn at_least_one(x: int) -> int {
    if x < 1 {
        1
    } else {
        x
    }
}

/// The override where there is one, the current setting otherwise.
fn or_keep<T: Copy>(over: Option<T>, current: T) -> (r: T)
    ensures
        r == match over {
            Some(v) => v,
            None => current,
        },
{
    match over {
        Some(v) => v,
        None => current,
    }
}

/// The override where there is one, the current optional setting otherwise.
fn or_keep_some<T: Copy>(over: Option<T>, current: Option<T>) -> (r: Option<T>)
    ensures
        r == match over {
            Some(v) => Some(v),
            None => current,
        },
{
    match over {
        Some(v) => Some(v),
        None => current,
    }
}

/// The index configuration that naming `kind` in the environment stands for.
fn preset_for(kind: IndexType) -> (r: IndexConfig)
    ensures
        r == index_preset(kind),
{
    match kind {
        IndexType::Flat => IndexConfig::Flat { metric: DistanceMetric::Cosine },
        IndexType::Hnsw => IndexConfig::Hnsw {
            m: 16,
            m_max: 32,
            ef_construction: 200,
            ml: DEFAULT_ML_BITS,
            metric: DistanceMetric::Cosine,
        },
        IndexType::Ivf => IndexConfig::Ivf {
            num_clusters: 256,
            num_probes: 8,
            max_iterations: 20,
            metric: DistanceMetric::Cosine,
        },
    }
}

/// The configuration of the application where nothing is asked for: that
/// of a collection where nothing is asked for.
pub open spec fn default_app_config() -> AppConfig {
    let c = default_collection_config();
    AppConfig {
        index: c.index,
        quantization: c.quantization,
        memory: c.memory,
        wal: c.wal,
        parallelism: c.parallelism,
        execution: c.execution,
        search: c.search,
        limits: c.limits,
    }
}

impl Default for AppConfig {
    fn default() -> (r: Self)
        ensures
            r == default_app_config(),
            r.valid(),
    {
        Self {
            index: IndexConfig::default(),
            quantization: QuantizationConfig::default(),
            memory: MemoryConfig::default(),
            wal: WalConfig::default(),
            parallelism: ParallelismConfig::default(),
            execution: ExecutionMode::Auto,
            search: SearchConfig::default(),
            limits: LimitsConfig::default(),
        }
    }
}

impl AppConfig {
    /// The first fault of this configuration, in the order in which
    /// `validate` looks for them.
    pub open spec fn fault(self) -> Option<ConfigFault> {
        if self.wal.enabled && self.wal.checkpoint_frequency == 0 {
            Some(ConfigFault::CheckpointFrequencyZero)
        } else if self.search.filter_overfetch == 0 {
            Some(ConfigFault::FilterOverfetchZero)
        } else if self.memory.use_mmap && self.memory.initial_mmap_size == 0 {
            Some(ConfigFault::InitialMmapSizeZero)
        } else {
            None
        }
    }

    /// A configuration without fault.
    pub open spec fn valid(self) -> bool {
        self.fault() is None
    }

    pub fn validate(&self) -> (r: Result<(), ConfigFault>)
        ensures
            r == match self.fault() {
                Some(f) => Err::<(), ConfigFault>(f),
                None => Ok::<(), ConfigFault>(()),
            },
    {
        if self.wal.enabled {
            if self.wal.checkpoint_frequency == 0 {
                return Err(ConfigFault::CheckpointFrequencyZero);
            }
        }
        if self.search.filter_overfetch == 0 {
            return Err(ConfigFault::FilterOverfetchZero);
        }
        if self.memory.use_mmap && self.memory.initial_mmap_size == 0 {
            return Err(ConfigFault::InitialMmapSizeZero);
        }
        Ok(())
    }

    pub fn to_collection_config(&self) -> (r: CollectionConfig)
        ensures
            r == (CollectionConfig {
                index: self.index,
                search: self.search,
                quantization: self.quantization,
                memory: self.memory,
                wal: self.wal,
                parallelism: self.parallelism,
                execution: self.execution,
                limits: self.limits,
            }),
    {
        CollectionConfig {
            index: self.index,
            search: self.search,
            quantization: self.quantization,
            memory: self.memory,
            wal: self.wal,
            parallelism: self.parallelism,
            execution: self.execution,
            limits: self.limits,
        }
    }

    /// This configuration with `o` laid over it. A field of `o` that is `None`
    /// leaves its setting alone. Frequencies, intervals and the overfetch
    /// factor are raised to 1 where a smaller value is given; a thread count
    /// fixes the pool and turns parallel search on exactly when it is above 1
    /// (after an explicit `parallel_search`, which it overrides).
    pub open spec fn overridden(self, o: Overrides) -> AppConfig {
        AppConfig {
            index: match o.index_type {
                Some(kind) => index_preset(kind),
                None => self.index,
            },
            quantization: self.quantization,
            memory: MemoryConfig {
                max_memory_per_collection: self.memory.max_memory_per_collection,
                initial_mmap_size: match o.memory_initial_mmap_mb {
                    Some(mb) => (mb * MIB) as usize,
                    None => self.memory.initial_mmap_size,
                },
                use_mmap: match o.memory_use_mmap {
                    Some(b) => b,
                    None => self.memory.use_mmap,
                },
            },
            wal: WalConfig {
                enabled: match o.wal_enabled {
                    Some(b) => b,
                    None => self.wal.enabled,
                },
                checkpoint_frequency: match o.wal_checkpoint_frequency {
                    Some(f) => at_least_one(f as int) as usize,
                    None => self.wal.checkpoint_frequency,
                },
                checkpoint_interval_secs: match o.wal_checkpoint_interval_secs {
                    Some(s) => Some(at_least_one(s as int) as u64),
                    None => self.wal.checkpoint_interval_secs,
                },
                max_log_size: self.wal.max_log_size,
                sync_on_write: self.wal.sync_on_write,
            },
            parallelism: match o.num_threads {
                Some(n) => ParallelismConfig { mode: ParallelismMode::Fixed(n), parallel_search: n > 1 },
                None => ParallelismConfig {
                    mode: self.parallelism.mode,
                    parallel_search: match o.parallel_search {
                        Some(b) => b,
                        None => self.parallelism.parallel_search,
                    },
                },
            },
            execution: match o.execution_mode {
                Some(m) => m,
                None => self.execution,
            },
            search: SearchConfig {
                ef: self.search.ef,
                nprobe: self.search.nprobe,
                filter_overfetch: match o.search_filter_overfetch {
                    Some(f) => at_least_one(f as int) as usize,
                    None => self.search.filter_overfetch,
                },
            },
            limits: LimitsConfig {
                max_vectors: match o.limit_max_vectors {
                    Some(v) => Some(v),
                    None => self.limits.max_vectors,
                },
                max_bytes: match o.limit_max_bytes {
                    Some(v) => Some(v),
                    None => self.limits.max_bytes,
                },
                max_vector_bytes: match o.limit_max_vector_bytes {
                    Some(v) => Some(v),
                    None => self.limits.max_vector_bytes,
                },
            },
        }
    }

    /// Lay the environment's settings over this configuration.
    pub fn apply_env_overrides(&mut self, o: &Overrides)
        requires
            o.memory_initial_mmap_mb matches Some(mb) ==> mb * MIB <= usize::MAX,
        ensures
            *final(self) == old(self).overridden(*o),
    {
        let index = match o.index_type {
            Some(kind) => preset_for(kind),
            None => self.index,
        };
        let memory = MemoryConfig {
            max_memory_per_collection: self.memory.max_memory_per_collection,
            initial_mmap_size: match o.memory_initial_mmap_mb {
                Some(mb) => mb * MIB,
                None => self.memory.initial_mmap_size,
            },
            use_mmap: or_keep(o.memory_use_mmap, self.memory.use_mmap),
        };
        let wal = WalConfig {
            enabled: or_keep(o.wal_enabled, self.wal.enabled),
            checkpoint_frequency: match o.wal_checkpoint_frequency {
                Some(f) => if f < 1 { 1 } else { f },
                None => self.wal.checkpoint_frequency,
            },
            checkpoint_interval_secs: match o.wal_checkpoint_interval_secs {
                Some(s) => Some(if s < 1 { 1 } else { s }),
                None => self.wal.checkpoint_interval_secs,
            },
            max_log_size: self.wal.max_log_size,
            sync_on_write: self.wal.sync_on_write,
        };
        let parallelism = match o.num_threads {
            Some(n) => self.parallelism.with_num_threads(n),
            None => ParallelismConfig {
                mode: self.parallelism.mode,
                parallel_search: or_keep(o.parallel_search, self.parallelism.parallel_search),
            },
        };
        let search = SearchConfig {
            ef: self.search.ef,
            nprobe: self.search.nprobe,
            filter_overfetch: match o.search_filter_overfetch {
                Some(f) => if f < 1 { 1 } else { f },
                None => self.search.filter_overfetch,
            },
        };
        let limits = LimitsConfig {
            max_vectors: or_keep_some(o.limit_max_vectors, self.limits.max_vectors),
            max_bytes: or_keep_some(o.limit_max_bytes, self.limits.max_bytes),
            max_vector_bytes: or_keep_some(o.limit_max_vector_bytes, self.limits.max_vector_bytes),
        };
        *self = AppConfig {
            index,
            quantization: self.quantization,
            memory,
            wal,
            parallelism,
            execution: or_keep(o.execution_mode, self.execution),
            search,
            limits,
        };
    }

    /// The default configuration under the environment's settings.
    pub fn from_env(o: &Overrides) -> (r: Self)
        requires
            o.memory_initial_mmap_mb matches Some(mb) ==> mb * MIB <= usize::MAX,
        ensures
            r.index == match o.index_type {
                Some(kind) => index_preset(kind),
                None => IndexConfig::Auto { metric: DistanceMetric::Cosine },
            },
            r.wal.enabled == match o.wal_enabled {
                Some(b) => b,
                None => true,
            },
            r.wal.checkpoint_frequency == match o.wal_checkpoint_frequency {
                Some(f) => at_least_one(f as int) as usize,
                None => 1000,
            },
            r.search.filter_overfetch == match o.search_filter_overfetch {
                Some(f) => at_least_one(f as int) as usize,
                None => 10,
            },
            r.execution == match o.execution_mode {
                Some(m) => m,
                None => ExecutionMode::Auto,
            },
    {
        let mut cfg = AppConfig::default();
        cfg.apply_env_overrides(o);
        cfg
    }
}

} // verus!
