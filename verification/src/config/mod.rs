//! Configuration of a collection and of the process around it.

pub mod app;
pub mod cache;
pub mod collection;
pub mod execution;
pub mod limits;
pub mod memory;
pub mod parallelism;
pub mod quantization;
pub mod search;
pub mod search_mode;
pub mod storage;
pub mod wal;

pub use app::AppConfig;
pub use cache::CacheConfig;
pub use collection::CollectionConfig;
pub use execution::ExecutionMode;
pub use limits::LimitsConfig;
pub use memory::MemoryConfig;
pub use parallelism::{ParallelismConfig, ParallelismMode};
pub use quantization::{QuantizationConfig, QuantizationLevel};
pub use search::SearchConfig;
pub use search_mode::{RangeSearchParams, SearchMode};
pub use storage::StorageConfig;
pub use wal::WalConfig;
