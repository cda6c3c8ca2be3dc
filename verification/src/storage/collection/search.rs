//! Searching a collection.

use vstd::prelude::*;
use crate::config::execution::ExecutionMode;
use crate::distance::DistanceMetric;
use crate::error::PiramidError;
use crate::host::Host;
use crate::search::{
    fetch_of, first_refused, found, found_each, search_batch_collection, search_collection,
    search_refusal, tuning_of, Hit, SearchParams,
};
use crate::storage::collection::storage::Collection;

verus! {

/// Search the collection for the `k` documents most similar to `query`
/// under `metric`. Where `params` leave the kernels or the overfetch factor
/// open, the collection's own are taken.
///
/// Without a filter, an index that looks at every live document returns
/// `k` documents, or all where there are fewer. Fails with
/// `DimensionMismatch` where the collection has a dimension and the host
/// counts another number of components in the query.
pub fn search<H: Host>(
    collection: &Collection,
    query: &H::Query,
    k: usize,
    metric: DistanceMetric,
    params: SearchParams,
    host: &H,
) -> (r: Result<Vec<Hit>, PiramidError>)
    requires
        collection.inner_wf(),
    ensures
        exists|query_dim: usize|
            match r {
                Ok(hits) => #[trigger] search_refusal(collection, query_dim) is None,
                Err(e) => search_refusal(collection, query_dim) == Some(e),
            },
        r matches Ok(hits) ==> found(
            collection,
            hits@,
            k as int,
            params.filter,
            tuning_of(collection, &params),
            fetch_of(collection, k, &params),
        ),
{
    let mut params = params;
    if let ExecutionMode::Auto = params.mode {
        params.mode = collection.config.execution;
    }
    if params.filter_overfetch_override.is_none() {
        params.filter_overfetch_override = Some(collection.config.search.filter_overfetch);
    }
    search_collection(collection, query, k, metric, &params, host)
}

/// Search the collection once for each query, without a filter. Fails with
/// the refusal of the first query whose number of components, as the host
/// counts them, is not the collection's dimension.
pub fn search_batch<H: Host>(
    collection: &Collection,
    queries: &Vec<H::Query>,
    k: usize,
    metric: DistanceMetric,
    host: &H,
) -> (r: Result<Vec<Vec<Hit>>, PiramidError>)
    requires
        collection.inner_wf(),
    ensures
        exists|dims: Seq<usize>|
            dims.len() == queries@.len() && match r {
                Ok(all) => forall|q: int|
                    0 <= q < dims.len() ==> (#[trigger] search_refusal(collection, dims[q])) is None,
                Err(e) => exists|q: int| #[trigger]
                    first_refused(collection, dims, q) && search_refusal(collection, dims[q])
                        == Some(e),
            },
        r matches Ok(all) ==> all@.len() == queries@.len() && found_each(
            collection,
            all@,
            k as int,
            None,
            collection.config.search,
            k as int,
        ),
{
    let params: SearchParams = SearchParams {
        mode: collection.config.execution,
        filter: None,
        filter_overfetch_override: None,
        search_config_override: None,
    };
    search_batch_collection(collection, queries, k, metric, &params, host)
}

} // verus!
