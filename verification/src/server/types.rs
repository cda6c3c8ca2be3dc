//! Defaults and names in requests.

use vstd::prelude::*;
use crate::distance::DistanceMetric;
use crate::score::Score;

verus! {

/// The number of results of a search that names none.
pub fn default_k() -> (r: usize)
    ensures
        r == 10,
{
    10
}

/// The number of documents of a listing that names none.
pub fn default_limit() -> (r: usize)
    ensures
        r == 100,
{
    100
}

/// The metric that a name stands for.
pub open spec fn metric_named(name: Option<Seq<char>>) -> DistanceMetric {
    match name {
        Some(s) => if s == "euclidean"@ {
            DistanceMetric::Euclidean
        } else if s == "dot"@ || s == "dot_product"@ {
            DistanceMetric::DotProduct
        } else {
            DistanceMetric::Cosine
        },
        None => DistanceMetric::Cosine,
    }
}

/// The metric that a request asks for: `euclidean`, `dot` or `dot_product`
/// by name, cosine for every other name and for none.
pub fn parse_metric(s: Option<String>) -> (r: DistanceMetric)
    ensures
        r == metric_named(
            match s {
                Some(name) => Some(name@),
                None => None,
            },
        ),
{
    match s {
        Some(name) => {
            let euclidean: String = "euclidean".to_owned();
            let dot: String = "dot".to_owned();
            let dot_product: String = "dot_product".to_owned();
            if name == euclidean {
                DistanceMetric::Euclidean
            } else if name == dot || name == dot_product {
                DistanceMetric::DotProduct
            } else {
                DistanceMetric::Cosine
            }
        },
        None => DistanceMetric::Cosine,
    }
}

/// A request for everything at least as similar as `min_score` to a vector.
/// The vector itself stays with the host.
#[derive(Debug, Clone)]
pub struct RangeSearchRequest {
    pub min_score: Score,
    pub metric: Option<String>,
    pub k: usize,
    pub ef: Option<usize>,
    pub nprobe: Option<usize>,
    pub overfetch: Option<usize>,
    pub preset: Option<String>,
}

} // verus!
