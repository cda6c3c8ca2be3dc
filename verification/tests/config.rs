use piramid::config::app::{AppConfig, ConfigFault, Overrides};
use piramid::config::cache::CacheConfig;
use piramid::config::collection::CollectionConfig;
use piramid::config::execution::ExecutionMode;
use piramid::config::limits::LimitsConfig;
use piramid::config::memory::{MemoryConfig, MIB};
use piramid::config::parallelism::{ParallelismConfig, ParallelismMode};
use piramid::config::quantization::{QuantizationConfig, QuantizationLevel};
use piramid::config::search::SearchConfig;
use piramid::config::search_mode::{RangeSearchParams, SearchMode};
use piramid::config::storage::StorageConfig;
use piramid::config::wal::WalConfig;
use piramid::distance::DistanceMetric;
use piramid::error::context::ErrorContext;
use piramid::error::embedding::EmbeddingError;
use piramid::error::PiramidError;
use piramid::index::hnsw::config::{HnswConfig, DEFAULT_ML_BITS};
use piramid::index::ivf::config::{integer_sqrt, IvfConfig};
use piramid::index::selector::IndexConfig;
use piramid::index::traits::IndexType;
use piramid::index::{AnnIndex, FlatConfig};
use piramid::metrics::embed::EmbedMetrics;
use piramid::score::Score;
use piramid::server::handlers::version;
use piramid::server::state::{
    disk_free_bytes, enforce_cache_budget, ensure_write_allowed, rejection, RebuildJobStatus,
    RebuildState, WriteDecision,
};
use piramid::server::types::{default_k, default_limit, parse_metric};
use piramid::storage::utils::VectorIndex;

fn no_overrides() -> Overrides {
    Overrides {
        index_type: None,
        wal_enabled: None,
        wal_checkpoint_frequency: None,
        wal_checkpoint_interval_secs: None,
        memory_use_mmap: None,
        memory_initial_mmap_mb: None,
        parallel_search: None,
        num_threads: None,
        execution_mode: None,
        search_filter_overfetch: None,
        limit_max_vectors: None,
        limit_max_bytes: None,
        limit_max_vector_bytes: None,
    }
}

#[test]
fn test_auto_selection() {
    let config = IndexConfig::default();

    assert_eq!(config.select_type(1_000), IndexType::Flat);
    assert_eq!(config.select_type(50_000), IndexType::Ivf);
    assert_eq!(config.select_type(500_000), IndexType::Hnsw);
}

#[test]
fn test_forced_index_type() {
    let flat_config = IndexConfig::Flat { metric: DistanceMetric::Cosine };
    assert_eq!(flat_config.select_type(1_000_000), IndexType::Flat);

    let hnsw_config = IndexConfig::Hnsw {
        m: 16,
        m_max: 32,
        ef_construction: 200,
        ml: (1.0 / 16.0_f32.ln()).to_bits(),
        metric: DistanceMetric::Cosine,
    };
    assert_eq!(hnsw_config.select_type(100), IndexType::Hnsw);
}

#[test]
fn selection_changes_at_the_thresholds() {
    let config = IndexConfig::Auto { metric: DistanceMetric::Euclidean };
    assert_eq!(config.select_type(0), IndexType::Flat);
    assert_eq!(config.select_type(9_999), IndexType::Flat);
    assert_eq!(config.select_type(10_000), IndexType::Ivf);
    assert_eq!(config.select_type(99_999), IndexType::Ivf);
    assert_eq!(config.select_type(100_000), IndexType::Hnsw);
    assert_eq!(config.get_metric(), DistanceMetric::Euclidean);
    let ivf = IndexConfig::Ivf {
        num_clusters: 7,
        num_probes: 2,
        max_iterations: 3,
        metric: DistanceMetric::DotProduct,
    };
    assert_eq!(ivf.select_type(5), IndexType::Ivf);
    assert_eq!(ivf.get_metric(), DistanceMetric::DotProduct);
}

#[test]
fn created_index_is_of_the_selected_kind() {
    let auto = IndexConfig::default();
    assert!(matches!(auto.create_index(10), AnnIndex::Flat(_)));
    match auto.create_index(40_000) {
        AnnIndex::Ivf(i) => {
            assert_eq!(i.config.num_clusters, 200);
            assert_eq!(i.config.num_probes, 10);
            assert_eq!(i.config.metric, DistanceMetric::Cosine);
        }
        _ => panic!("an inverted-file index was due"),
    }
    match auto.create_index(100_000) {
        AnnIndex::Hnsw(h) => {
            assert_eq!(h.config.m, 16);
            assert_eq!(h.config.m_max, 32);
            assert_eq!(h.config.ef_construction, 200);
            assert_eq!(h.config.ml, DEFAULT_ML_BITS);
        }
        _ => panic!("a graph index was due"),
    }
    let forced = IndexConfig::Hnsw {
        m: 4,
        m_max: 8,
        ef_construction: 50,
        ml: 7,
        metric: DistanceMetric::Euclidean,
    };
    match forced.create_index(3) {
        AnnIndex::Hnsw(h) => {
            assert_eq!(h.config.m, 4);
            assert_eq!(h.config.m_max, 8);
            assert_eq!(h.config.ef_construction, 50);
            assert_eq!(h.config.ml, 7);
            assert_eq!(h.config.metric, DistanceMetric::Euclidean);
        }
        _ => panic!("a graph index was due"),
    }
}

#[test]
fn default_layer_multiplier_is_one_over_ln_16() {
    assert_eq!(DEFAULT_ML_BITS, (1.0 / 16.0_f32.ln()).to_bits());
    let config = HnswConfig::default();
    assert_eq!(config.m, 16);
    assert_eq!(config.m_max, 32);
    assert_eq!(config.ef_construction, 200);
    assert_eq!(config.ef_search, 200);
    assert_eq!(config.ml, DEFAULT_ML_BITS);
    assert_eq!(FlatConfig::default().metric, DistanceMetric::Cosine);
    assert_eq!(DistanceMetric::default(), DistanceMetric::Cosine);
}

#[test]
fn integer_square_roots() {
    assert_eq!(integer_sqrt(0), 0);
    assert_eq!(integer_sqrt(1), 1);
    assert_eq!(integer_sqrt(3), 1);
    assert_eq!(integer_sqrt(4), 2);
    assert_eq!(integer_sqrt(99), 9);
    assert_eq!(integer_sqrt(100), 10);
    assert_eq!(integer_sqrt(1_000_000), 1000);
    assert_eq!(integer_sqrt(usize::MAX), 4_294_967_295);
}

#[test]
fn ivf_sizes_itself_by_the_square_root() {
    let tiny = IvfConfig::auto(0);
    assert_eq!((tiny.num_clusters, tiny.num_probes, tiny.max_iterations), (10, 1, 10));
    let small = IvfConfig::auto(400);
    assert_eq!((small.num_clusters, small.num_probes), (20, 2));
    let medium = IvfConfig::auto(10_000);
    assert_eq!((medium.num_clusters, medium.num_probes), (100, 10));
    let large = IvfConfig::auto(1_000_000);
    assert_eq!((large.num_clusters, large.num_probes), (1000, 10));
    let default = IvfConfig::default();
    assert_eq!((default.num_clusters, default.num_probes, default.max_iterations), (100, 5, 10));
}

#[test]
fn cache_config_builders() {
    assert_eq!(
        CacheConfig::default(),
        CacheConfig { enabled: true, max_size: 10_000, ttl_seconds: None }
    );
    assert_eq!(
        CacheConfig::disabled(),
        CacheConfig { enabled: false, max_size: 0, ttl_seconds: None }
    );
    assert_eq!(
        CacheConfig::with_size(5),
        CacheConfig { enabled: true, max_size: 5, ttl_seconds: None }
    );
    assert_eq!(
        CacheConfig::with_size_and_ttl(5, 60),
        CacheConfig { enabled: true, max_size: 5, ttl_seconds: Some(60) }
    );
}

#[test]
fn memory_config_builders() {
    assert_eq!(MIB, 1024 * 1024);
    let default = MemoryConfig::default();
    assert_eq!(default.initial_mmap_size, 1024 * 1024);
    assert!(default.use_mmap);
    assert_eq!(default.max_memory_per_collection, None);
    assert_eq!(default.initial_size(), 1024 * 1024);
    let limited = MemoryConfig::with_limit_mb(3);
    assert_eq!(limited.max_memory_per_collection, Some(3 * 1024 * 1024));
    let sized = MemoryConfig::with_mmap_size_mb(2);
    assert_eq!(sized.initial_mmap_size, 2 * 1024 * 1024);
    assert_eq!(sized.initial_size(), 2 * 1024 * 1024);
    let none = MemoryConfig::no_mmap();
    assert!(!none.use_mmap);
    assert_eq!(none.initial_mmap_size, 0);
    assert_eq!(none.initial_size(), 1024 * 1024);
}

#[test]
fn parallelism_config_builders() {
    assert_eq!(ParallelismMode::default(), ParallelismMode::Auto);
    let single = ParallelismConfig::single_threaded();
    assert_eq!(single.mode, ParallelismMode::SingleThreaded);
    assert!(!single.parallel_search);
    assert_eq!(single.num_threads(), 1);
    let fixed = ParallelismConfig::fixed(4);
    assert_eq!(fixed.mode, ParallelismMode::Fixed(4));
    assert!(fixed.parallel_search);
    assert_eq!(fixed.num_threads(), 4);
    assert_eq!(fixed.num_threads_on(64), 4);
    let auto = ParallelismConfig::default();
    assert_eq!(auto.num_threads_on(12), 12);
    assert!(auto.num_threads() >= 1);
    let one = auto.with_num_threads(1);
    assert_eq!(one.mode, ParallelismMode::Fixed(1));
    assert!(!one.parallel_search);
    assert!(auto.with_num_threads(2).parallel_search);
}

#[test]
fn quantization_config_builders() {
    assert_eq!(QuantizationLevel::default(), QuantizationLevel::Off);
    assert_eq!(QuantizationConfig::default().level, QuantizationLevel::Off);
    assert_eq!(
        QuantizationConfig::int8(),
        QuantizationConfig { level: QuantizationLevel::Int8, disk_only: false }
    );
    assert_eq!(
        QuantizationConfig::int8_disk_only(),
        QuantizationConfig { level: QuantizationLevel::Int8, disk_only: true }
    );
    assert_eq!(
        QuantizationConfig::pq(8),
        QuantizationConfig { level: QuantizationLevel::Pq { subquantizers: 8 }, disk_only: false }
    );
}

#[test]
fn wal_config_builders() {
    let default = WalConfig::default();
    assert!(default.enabled);
    assert_eq!(default.checkpoint_frequency, 1000);
    assert_eq!(default.max_log_size, 100 * 1024 * 1024);
    assert!(!default.sync_on_write);
    assert_eq!(default.checkpoint_interval_secs, None);
    let disabled = WalConfig::disabled();
    assert!(!disabled.enabled);
    assert_eq!(disabled.checkpoint_frequency, 0);
    assert_eq!(disabled.max_log_size, 0);
    let durable = WalConfig::high_durability();
    assert_eq!(durable.checkpoint_frequency, 100);
    assert_eq!(durable.max_log_size, 50 * 1024 * 1024);
    assert!(durable.sync_on_write);
    let fast = WalConfig::fast();
    assert_eq!(fast.checkpoint_frequency, 10000);
    assert_eq!(fast.max_log_size, 500 * 1024 * 1024);
    assert!(!fast.sync_on_write);
}

#[test]
fn other_defaults() {
    assert_eq!(SearchMode::default(), SearchMode::KNN);
    assert_eq!(ExecutionMode::default(), ExecutionMode::Auto);
    assert_eq!(
        LimitsConfig::default(),
        LimitsConfig { max_vectors: None, max_bytes: None, max_vector_bytes: None }
    );
    assert_eq!(SearchConfig::default().filter_overfetch, 10);
    assert_eq!(StorageConfig::default().storage_path, "./data");
    assert_eq!(StorageConfig::new("/tmp/x".to_string()).storage_path, "/tmp/x");
    let range = RangeSearchParams::new(Score::new(9));
    assert_eq!((range.max_distance.key, range.max_results), (9, None));
    let limited = RangeSearchParams::with_limit(Score::new(9), 3);
    assert_eq!(limited.max_results, Some(3));
    assert!(Score::new(5).reaches(Score::new(5)));
    assert!(!Score::new(4).reaches(Score::new(5)));
    assert_eq!(VectorIndex::new(3, 4).pointer().offset, 3);
    assert_eq!(VectorIndex::new(3, 4).pointer().length, 4);
}

#[test]
fn validation_reports_the_first_fault() {
    let mut config = AppConfig::default();
    assert_eq!(config.validate(), Ok(()));
    config.memory.initial_mmap_size = 0;
    assert_eq!(config.validate(), Err(ConfigFault::InitialMmapSizeZero));
    config.memory.use_mmap = false;
    assert_eq!(config.validate(), Ok(()));
    config.search.filter_overfetch = 0;
    assert_eq!(config.validate(), Err(ConfigFault::FilterOverfetchZero));
    config.wal.checkpoint_frequency = 0;
    assert_eq!(config.validate(), Err(ConfigFault::CheckpointFrequencyZero));
    config.wal.enabled = false;
    assert_eq!(config.validate(), Err(ConfigFault::FilterOverfetchZero));
}

#[test]
fn overrides_are_laid_over_the_configuration() {
    let mut config = AppConfig::default();
    let before = config;
    config.apply_env_overrides(&no_overrides());
    assert_eq!(config, before);

    let mut o = no_overrides();
    o.index_type = Some(IndexType::Ivf);
    o.wal_enabled = Some(false);
    o.wal_checkpoint_frequency = Some(0);
    o.wal_checkpoint_interval_secs = Some(0);
    o.memory_use_mmap = Some(false);
    o.memory_initial_mmap_mb = Some(2);
    o.parallel_search = Some(false);
    o.num_threads = Some(3);
    o.execution_mode = Some(ExecutionMode::Scalar);
    o.search_filter_overfetch = Some(0);
    o.limit_max_vectors = Some(10);
    o.limit_max_bytes = Some(1000);
    o.limit_max_vector_bytes = Some(100);
    config.apply_env_overrides(&o);
    assert_eq!(
        config.index,
        IndexConfig::Ivf {
            num_clusters: 256,
            num_probes: 8,
            max_iterations: 20,
            metric: DistanceMetric::Cosine
        }
    );
    assert!(!config.wal.enabled);
    assert_eq!(config.wal.checkpoint_frequency, 1);
    assert_eq!(config.wal.checkpoint_interval_secs, Some(1));
    assert!(!config.memory.use_mmap);
    assert_eq!(config.memory.initial_mmap_size, 2 * 1024 * 1024);
    assert_eq!(config.parallelism.mode, ParallelismMode::Fixed(3));
    assert!(config.parallelism.parallel_search);
    assert_eq!(config.execution, ExecutionMode::Scalar);
    assert_eq!(config.search.filter_overfetch, 1);
    assert_eq!(config.limits.max_vectors, Some(10));
    assert_eq!(config.limits.max_bytes, Some(1000));
    assert_eq!(config.limits.max_vector_bytes, Some(100));

    let mut hnsw = no_overrides();
    hnsw.index_type = Some(IndexType::Hnsw);
    hnsw.wal_checkpoint_frequency = Some(7);
    let from_env = AppConfig::from_env(&hnsw);
    assert_eq!(
        from_env.index,
        IndexConfig::Hnsw {
            m: 16,
            m_max: 32,
            ef_construction: 200,
            ml: DEFAULT_ML_BITS,
            metric: DistanceMetric::Cosine
        }
    );
    assert_eq!(from_env.wal.checkpoint_frequency, 7);
    let collection: CollectionConfig = from_env.to_collection_config();
    assert_eq!(collection.index, from_env.index);
    assert_eq!(collection.wal, from_env.wal);
    assert_eq!(collection.limits, from_env.limits);
}

#[test]
fn recoverable_errors_are_those_worth_a_retry() {
    assert!(EmbeddingError::RequestFailed("x".into()).is_recoverable());
    assert!(EmbeddingError::ApiError("x".into()).is_recoverable());
    assert!(EmbeddingError::InvalidResponse("x".into()).is_recoverable());
    assert!(!EmbeddingError::ConfigError("x".into()).is_recoverable());
    assert!(EmbeddingError::RateLimitExceeded.is_recoverable());
    assert!(!EmbeddingError::AuthenticationFailed("x".into()).is_recoverable());
    assert!(EmbeddingError::ProviderUnavailable("x".into()).is_recoverable());
    assert!(EmbeddingError::Timeout("x".into()).is_recoverable());
    assert!(!EmbeddingError::InvalidModel("x".into()).is_recoverable());
}

#[test]
fn context_turns_absence_into_an_error() {
    assert_eq!(Some(3).context(PiramidError::NotFound), Ok(3));
    assert_eq!(None::<u8>.context(PiramidError::NotFound), Err(PiramidError::NotFound));
    let ok: Result<u8, String> = Ok(4);
    assert_eq!(ok.context(PiramidError::Io), Ok(4));
    let bad: Result<u8, String> = Err("no".to_string());
    assert_eq!(bad.context(PiramidError::Timeout), Err(PiramidError::Timeout));
    assert_eq!(Some(3).with_context(|| unreachable!()), Ok(3));
    assert_eq!(None::<u8>.with_context(|| PiramidError::NotFound), Err(PiramidError::NotFound));
    let bad: Result<u8, String> = Err("no".to_string());
    assert_eq!(bad.with_context(|| PiramidError::Io), Err(PiramidError::Io));
}

#[test]
fn metric_names() {
    assert_eq!(parse_metric(None), DistanceMetric::Cosine);
    assert_eq!(parse_metric(Some("cosine".to_string())), DistanceMetric::Cosine);
    assert_eq!(parse_metric(Some("euclidean".to_string())), DistanceMetric::Euclidean);
    assert_eq!(parse_metric(Some("dot".to_string())), DistanceMetric::DotProduct);
    assert_eq!(parse_metric(Some("dot_product".to_string())), DistanceMetric::DotProduct);
    assert_eq!(parse_metric(Some("Euclidean".to_string())), DistanceMetric::Cosine);
    assert_eq!(default_k(), 10);
    assert_eq!(default_limit(), 100);
    let v = version("1.2.3".to_string(), None);
    assert_eq!(v.version, "1.2.3");
    assert_eq!(v.git_commit, None);
}

#[test]
fn write_guards() {
    assert_eq!(ensure_write_allowed(true, false, None, None, false), WriteDecision::Reject);
    assert_eq!(ensure_write_allowed(false, true, None, None, false), WriteDecision::Reject);
    assert_eq!(ensure_write_allowed(false, false, None, Some(1), true), WriteDecision::Allow);
    assert_eq!(ensure_write_allowed(false, false, Some(100), None, true), WriteDecision::Allow);
    assert_eq!(ensure_write_allowed(false, false, Some(100), Some(100), true), WriteDecision::Allow);
    assert_eq!(
        ensure_write_allowed(false, false, Some(100), Some(99), true),
        WriteDecision::RejectAndLock
    );
    assert_eq!(
        ensure_write_allowed(false, false, Some(100), Some(99), false),
        WriteDecision::AllowWithWarning
    );
    assert_eq!(rejection(WriteDecision::Allow), None);
    assert_eq!(rejection(WriteDecision::AllowWithWarning), None);
    assert_eq!(rejection(WriteDecision::Reject), Some(PiramidError::ServiceUnavailable));
    assert_eq!(rejection(WriteDecision::RejectAndLock), Some(PiramidError::ServiceUnavailable));
    assert_eq!(disk_free_bytes(10, 4096), 40960);
    assert_eq!(disk_free_bytes(u64::MAX, 2), u64::MAX);
}

#[test]
fn cache_budget() {
    assert!(!enforce_cache_budget(None, &vec![u64::MAX, u64::MAX]));
    assert!(!enforce_cache_budget(Some(100), &vec![]));
    assert!(!enforce_cache_budget(Some(100), &vec![40, 60]));
    assert!(enforce_cache_budget(Some(100), &vec![40, 61]));
    assert!(enforce_cache_budget(Some(u64::MAX - 1), &vec![u64::MAX, 5]));
    assert!(!enforce_cache_budget(Some(u64::MAX), &vec![u64::MAX, 5]));
}

#[test]
fn rebuild_job_states() {
    let job = RebuildJobStatus::started(100);
    assert_eq!(job.status, RebuildState::Running);
    assert_eq!(job.started_at, 100);
    assert_eq!(job.finished_at, None);
    let done = job.clone().finished(103, None);
    assert_eq!(done.status, RebuildState::Completed);
    assert_eq!(done.finished_at, Some(103));
    assert_eq!(done.elapsed_ms, Some(3000));
    let failed = job.clone().finished(90, Some("disk".to_string()));
    assert_eq!(failed.status, RebuildState::Failed);
    assert_eq!(failed.error, Some("disk".to_string()));
    assert_eq!(failed.elapsed_ms, Some(0));
}

#[test]
fn embed_metrics_count() {
    let mut metrics = EmbedMetrics::new();
    let zero = metrics.snapshot();
    assert_eq!((zero.requests, zero.texts, zero.total_tokens, zero.total_latency_ns), (0, 0, 0, 0));
    metrics.record(1, 2, 30, 400);
    metrics.record(2, 3, 40, 500);
    let s = metrics.snapshot();
    assert_eq!((s.requests, s.texts, s.total_tokens, s.total_latency_ns), (3, 5, 70, 900));
    // A full counter starts again at zero.
    metrics.record(u64::MAX, 0, 0, u64::MAX - 899);
    let s = metrics.snapshot();
    assert_eq!((s.requests, s.texts, s.total_tokens, s.total_latency_ns), (2, 5, 70, 0));
}
