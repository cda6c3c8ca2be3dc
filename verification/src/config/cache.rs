//! Cache configuration for embeddings.

use vstd::prelude::*;

verus! {

#[derive(Debug, Clone, Copy, PartialEq, Eq, Structural)]
pub struct CacheConfig {
    /// Enable caching.
    pub enabled: bool,
    /// Maximum number of cached items.
    pub max_size: usize,
    /// Time-to-live in seconds (`None`: no expiration).
    pub ttl_seconds: Option<u64>,
}

impl Default for CacheConfig {
    fn default() -> (r: Self)
        ensures
            r == (CacheConfig { enabled: true, max_size: 10_000, ttl_seconds: None }),
    {
        CacheConfig { enabled: true, max_size: 10_000, ttl_seconds: None }
    }
}

impl CacheConfig {
    /// No caching at all.
    pub fn disabled() -> (r: Self)
        ensures
            r == (CacheConfig { enabled: false, max_size: 0, ttl_seconds: None }),
    {
        CacheConfig { enabled: false, max_size: 0, ttl_seconds: None }
    }

    /// A cache of `size` items that never expire.
    pub fn with_size(size: usize) -> (r: Self)
        ensures
            r == (CacheConfig { enabled: true, max_size: size, ttl_seconds: None }),
    {
        CacheConfig { enabled: true, max_size: size, ttl_seconds: None }
    }

    /// A cache of `size` items that expire after `ttl_seconds`.
    pub fn with_size_and_ttl(size: usize, ttl_seconds: u64) -> (r: Self)
        ensures
            r == (CacheConfig { enabled: true, max_size: size, ttl_seconds: Some(ttl_seconds) }),
    {
        CacheConfig { enabled: true, max_size: size, ttl_seconds: Some(ttl_seconds) }
    }
}

} // verus!
