//! IVF index configuration.

use vstd::prelude::*;
use crate::config::execution::ExecutionMode;
use crate::distance::DistanceMetric;

verus! {

#[derive(Debug, Clone, Copy, PartialEq, Eq, Structural)]
pub struct IvfConfig {
    /// Number of clusters.
    pub num_clusters: usize,
    /// Clusters a search looks into.
    pub num_probes: usize,
    /// Iterations of k-means.
    pub max_iterations: usize,
    pub metric: DistanceMetric,
    pub mode: ExecutionMode,
}

impl Default for IvfConfig {
    fn default() -> (r: Self)
        ensures
            r == (IvfConfig {
                num_clusters: 100,
                num_probes: 5,
                max_iterations: 10,
                metric: DistanceMetric::Cosine,
                mode: ExecutionMode::Auto,
            }),
    {
        IvfConfig {
            num_clusters: 100,
            num_probes: 5,
            max_iterations: 10,
            metric: DistanceMetric::Cosine,
            mode: ExecutionMode::Auto,
        }
    }
}

/// `r` is the integer square root of `n`.
pub open spec fn is_sqrt_floor(n: int, r: int) -> bool {
    0 <= r && r * r <= n && n < (r + 1) * (r + 1)
}

/// The number of clusters chosen for `n` vectors: the integer square root of
/// `n`, and never fewer than 10.
pub open spec fn auto_clusters(n: int, c: int) -> bool {
    exists|r: int| is_sqrt_floor(n, r) && c == if r < 10 { 10 } else { r }
}

/// The number of probes that goes with `c` clusters: a tenth of them, kept
/// between 1 and 10.
pub open spec fn auto_probes(c: int) -> int {
    if c / 10 < 1 {
        1
    } else if c / 10 > 10 {
        10
    } else {
        c / 10
    }
}

proof fn lemma_square_monotone(a: int, b: int)
    requires
        0 <= a <= b,
    ensures
        a * a <= b * b,
{
    assert(a * a <= a * b) by (nonlinear_arith)
        requires
            0 <= a <= b,
    ;
    assert(a * b <= b * b) by (nonlinear_arith)
        requires
            0 <= a <= b,
    ;
}

/// The integer square root is unique.
pub proof fn lemma_sqrt_floor_unique(n: int, r1: int, r2: int)
    requires
        is_sqrt_floor(n, r1),
        is_sqrt_floor(n, r2),
    ensures
        r1 == r2,
{
    if r1 < r2 {
        lemma_square_monotone(r1 + 1, r2);
    } else if r2 < r1 {
        lemma_square_monotone(r2 + 1, r1);
    }
}

/// The integer square root of `n`, by bisection.
pub fn integer_sqrt(n: usize) -> (r: usize)
    ensures
        is_sqrt_floor(n as int, r as int),
{
    // The root of a 64-bit number is below 2^32.
    let mut lo: u64 = 0;
    let mut hi: u64 = 4_294_967_296;
    let n64: u64 = n as u64;
    assert(n64 < hi * hi) by (nonlinear_arith)
        requires
            hi == 4_294_967_296u64,
            n64 <= u64::MAX,
    ;
    while hi - lo > 1
        invariant
            lo < hi <= 4_294_967_296,
            lo * lo <= n64,
            n64 < hi * hi,
        decreases hi - lo,
    {
        let mid: u64 = lo + (hi - lo) / 2;
        assert(mid * mid <= 4_294_967_295 * 4_294_967_295) by (nonlinear_arith)
            requires
                mid <= 4_294_967_295,
        ;
        if mid * mid <= n64 {
            lo = mid;
        } else {
            hi = mid;
        }
    }
    lo as usize
}

impl IvfConfig {
    /// A configuration sized for `num_vectors` vectors: about the square root
    /// of that many clusters (at least 10), a tenth of them probed (between 1
    /// and 10), ten iterations of k-means.
    pub fn auto(num_vectors: usize) -> (r: Self)
        ensures
            auto_clusters(num_vectors as int, r.num_clusters as int),
            r.num_probes == auto_probes(r.num_clusters as int),
            r.max_iterations == 10,
            r.metric == DistanceMetric::Cosine,
            r.mode == ExecutionMode::Auto,
    {
        let root: usize = integer_sqrt(num_vectors);
        let num_clusters: usize = if root < 10 { 10 } else { root };
        let tenth: usize = num_clusters / 10;
        let num_probes: usize = if tenth < 1 { 1 } else if tenth > 10 { 10 } else { tenth };
        IvfConfig {
            num_clusters,
            num_probes,
            max_iterations: 10,
            metric: DistanceMetric::Cosine,
            mode: ExecutionMode::Auto,
        }
    }
}

} // verus!
