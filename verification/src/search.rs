//! The search pipeline: candidates from the index, documents from the data
//! region, the filter, and the final ranking.

use vstd::prelude::*;
use crate::config::execution::ExecutionMode;
use crate::config::search::SearchConfig;
use crate::distance::DistanceMetric;
use crate::error::PiramidError;
use crate::host::{Host, Probe};
use crate::index::ann::{probes_of, sound_hits, AnnIndex};
use crate::index::hnsw::walk::has_id;
use crate::index::ranking::{distinct_ids, ranked, top_k, Scored};
use crate::metadata::Metadata;
use crate::query::{decided, Filter};
use crate::score::Score;
use crate::storage::collection::storage::Collection;
use crate::storage::document::{Document, DocumentView};
use crate::DocId;

verus! {

broadcast use vstd::std_specs::hash::group_hash_axioms;

/// One result of a search.
#[derive(Debug)]
pub struct Hit {
    pub id: DocId,
    pub score: Score,
    pub text: Vec<u8>,
    pub metadata: Metadata,
}

/// A search result under the name it has for callers of the storage layer.
pub type SearchResult = Hit;

/// How a search is to be run.
#[derive(Debug)]
pub struct SearchParams {
    /// Which kernels the host runs (`Auto`: the collection's own).
    pub mode: ExecutionMode,
    /// A predicate that every hit has to satisfy.
    pub filter: Option<Filter>,
    /// The overfetch factor for this search (`None`: the collection's own).
    pub filter_overfetch_override: Option<usize>,
    /// The index tuning for this search (`None`: the collection's own).
    pub search_config_override: Option<SearchConfig>,
}

/// How many candidates are asked of the index for `k` results: `k` itself
/// without a filter, `k` times the overfetch factor (at least 1) with one,
/// and never more than the machine can count.
pub open spec fn fetch_count(k: usize, filtered: bool, overfetch: usize) -> int {
    if !filtered {
        k as int
    } else {
        let factor: int = if overfetch < 1 { 1 } else { overfetch as int };
        if k * factor > usize::MAX {
            usize::MAX as int
        } else {
            k * factor
        }
    }
}

/// How many candidates are asked of the index for `k` results.
pub fn fetch_size(k: usize, filtered: bool, overfetch: usize) -> (r: usize)
    ensures
        r == fetch_count(k, filtered, overfetch),
        r >= k,
{
    if !filtered {
        return k;
    }
    let factor: usize = if overfetch < 1 { 1 } else { overfetch };
    assert(k * factor >= k) by (nonlinear_arith)
        requires
            factor >= 1,
            k >= 0,
    ;
    match k.checked_mul(factor) {
        Some(n) => n,
        None => usize::MAX,
    }
}

/// The kernels a search runs with: those it asks for, or the collection's
/// own where it leaves the choice open.
pub fn resolve_mode(asked: ExecutionMode, configured: ExecutionMode) -> (r: ExecutionMode)
    ensures
        r == if asked == ExecutionMode::Auto {
            configured
        } else {
            asked
        },
{
    match asked {
        ExecutionMode::Auto => configured,
        _ => asked,
    }
}

/// The ids and scores of hits.
pub open spec fn hit_scores(hits: Seq<Hit>) -> Seq<Scored> {
    Seq::new(hits.len(), |i: int| Scored { id: hits[i].id, score: hits[i].score })
}

/// Whether every hit is a live document with its text and metadata.
pub open spec fn hits_live(hits: Seq<Hit>, live: Map<DocId, DocumentView>) -> bool {
    forall|i: int|
        0 <= i < hits.len() ==> live.contains_key((#[trigger] hits[i]).id) && hits[i].text@
            == live[hits[i].id].text && hits[i].metadata@ == live[hits[i].id].metadata
}

/// Whether no hit is of a document that the filter is decided to reject.
pub open spec fn hits_pass(hits: Seq<Hit>, filter: Option<Filter>) -> bool {
    filter is Some ==> forall|i: int|
        0 <= i < hits.len() ==> decided(filter->0@, (#[trigger] hits[i]).metadata@) != Some(false)
}

/// The documents of the candidates, in the candidates' order, as far as the
/// filter accepts them, and at most `k`.
fn hydrate<H: Host>(
    collection: &Collection,
    candidates: &Vec<Scored>,
    k: usize,
    filter: &Option<Filter>,
    host: &H,
) -> (docs: Vec<Document>)
    requires
        collection.inner_wf(),
        distinct_ids(candidates@),
    ensures
        docs@.len() <= k,
        docs@.len() <= candidates@.len(),
        forall|i: int|
            0 <= i < docs@.len() ==> collection.live().contains_key((#[trigger] docs@[i]).id)
                && collection.live()[docs@[i].id] == docs@[i]@,
        forall|i: int, j: int| 0 <= i < j < docs@.len() ==> (#[trigger] docs@[i]).id != (
        #[trigger] docs@[j]).id,
        filter is Some ==> forall|i: int|
            0 <= i < docs@.len() ==> decided(filter->0@, (#[trigger] docs@[i])@.metadata) != Some(
                false,
            ),
        filter is None && candidates@.len() <= k && (forall|i: int|
            0 <= i < candidates@.len() ==> collection.live().contains_key(
                (#[trigger] candidates@[i]).id,
            )) ==> docs@.len() == candidates@.len(),
        forall|i: int| 0 <= i < docs@.len() ==> has_id(candidates@, (#[trigger] docs@[i]).id),
{
    let mut docs: Vec<Document> = Vec::new();
    let mut i: usize = 0;
    while i < candidates.len() && docs.len() < k
        invariant
            i <= candidates.len(),
            collection.inner_wf(),
            distinct_ids(candidates@),
            docs@.len() <= k,
            docs@.len() <= i,
            forall|a: int|
                0 <= a < docs@.len() ==> collection.live().contains_key((#[trigger] docs@[a]).id)
                    && collection.live()[docs@[a].id] == docs@[a]@,
            forall|a: int|
                0 <= a < docs@.len() ==> exists|c: int|
                    0 <= c < i && (#[trigger] candidates@[c]).id == (#[trigger] docs@[a]).id,
            forall|a: int, b: int| 0 <= a < b < docs@.len() ==> (#[trigger] docs@[a]).id != (
            #[trigger] docs@[b]).id,
            filter is Some ==> forall|a: int|
                0 <= a < docs@.len() ==> decided(filter->0@, (#[trigger] docs@[a])@.metadata)
                    != Some(false),
            filter is None && (forall|c: int|
                0 <= c < i ==> collection.live().contains_key((#[trigger] candidates@[c]).id))
                ==> docs@.len() == i,
        decreases candidates.len() - i,
    {
        let id = candidates[i].id;
        match collection.store.get(id) {
            Some(doc) => {
                let keep: bool = match filter {
                    Some(f) => f.matches(&doc.metadata, host),
                    None => true,
                };
                if keep {
                    let ghost before = docs@;
                    docs.push(doc);
                    proof {
                        let after = docs@;
                        assert forall|a: int, b: int| 0 <= a < b < after.len() implies (
                        #[trigger] after[a]).id != (#[trigger] after[b]).id by {
                            if b == before.len() {
                                assert(after[a] == before[a]);
                                let c = choose|c: int|
                                    0 <= c < i && (#[trigger] candidates@[c]).id == before[a].id;
                                assert(candidates@[c].id != candidates@[i as int].id);
                            } else {
                                assert(after[a] == before[a] && after[b] == before[b]);
                            }
                        }
                        assert forall|a: int| 0 <= a < after.len() implies exists|c: int|
                            0 <= c < i + 1 && (#[trigger] candidates@[c]).id == (
                            #[trigger] after[a]).id by {
                            if a < before.len() {
                                assert(after[a] == before[a]);
                                let c = choose|c: int|
                                    0 <= c < i && (#[trigger] candidates@[c]).id == before[a].id;
                                assert(candidates@[c].id == after[a].id);
                            } else {
                                assert(candidates@[i as int].id == after[a].id);
                            }
                        }
                    }
                }
            },
            None => {},
        }
        i += 1;
    }
    proof {
        assert forall|a: int| 0 <= a < docs@.len() implies has_id(
            candidates@,
            (#[trigger] docs@[a]).id,
        ) by {
            let c = choose|c: int|
                0 <= c < i && (#[trigger] candidates@[c]).id == (#[trigger] docs@[a]).id;
            assert(candidates@[c].id == docs@[a].id);
        }
    }
    docs
}

/// Why a search with a query of `query_dim` components is refused, if it
/// is: the collection has a dimension, and it is another.
pub open spec fn search_refusal(collection: &Collection, query_dim: usize) -> Option<PiramidError> {
    match collection.metadata.dimensions {
        Some(expected) => if expected != query_dim {
            Some(PiramidError::DimensionMismatch { expected, actual: query_dim })
        } else {
            None
        },
        None => None,
    }
}

/// What the hits of a search owe: at most `k` live documents with their
/// text and metadata, none twice, none that the filter is decided to
/// reject, ranked best first, all of them among the `fetch` candidates
/// that the index owes; and, without a filter, over consistent caches
/// and an index that looks at every live document, `k` of them, or all
/// where there are fewer.
pub open spec fn found(
    collection: &Collection,
    hits: Seq<Hit>,
    k: int,
    filter: Option<Filter>,
    tuning: SearchConfig,
    fetch: int,
) -> bool {
    &&& hits.len() <= k
    &&& ranked(hit_scores(hits))
    &&& distinct_ids(hit_scores(hits))
    &&& hits_live(hits, collection.live())
    &&& hits_pass(hits, filter)
    &&& exists|candidates: Seq<Scored>| #[trigger] among(collection, hits, candidates, tuning, fetch)
    &&& filter is None && collection.caches_consistent() && answers_fully(collection, tuning)
        ==> hits.len() == crate::index::ranking::least(k, collection.live().dom().len() as int)
}

/// Whether the hits are among `candidates`, and these are what the index
/// of the collection owes when it is asked for `fetch` neighbours of the
/// query among the documents of the table, with the cached vectors.
pub open spec fn among(
    collection: &Collection,
    hits: Seq<Hit>,
    candidates: Seq<Scored>,
    tuning: SearchConfig,
    fetch: int,
) -> bool {
    &&& sound_hits(candidates, fetch, collection.vector_cache@.dom())
    &&& collection.vector_index.exact_hits(
        candidates,
        fetch,
        collection.store.index.order(),
        collection.vector_cache@.dom(),
        tuning,
    )
    &&& forall|i: int| 0 <= i < hits.len() ==> has_id(candidates, (#[trigger] hits[i]).id)
}

/// The number of candidates that a search for `k` documents asks of the
/// index: `k` without a filter; with one, `k` times the overfetch factor of
/// the parameters or, where they give none, of the collection.
pub open spec fn fetch_of(collection: &Collection, k: usize, params: &SearchParams) -> int {
    fetch_count(
        k,
        params.filter is Some,
        match params.filter_overfetch_override {
            Some(f) => f,
            None => collection.config.search.filter_overfetch,
        },
    )
}

/// Search a collection: ask the host for the number of components of the
/// query, and search as `search_with_dim` does.
///
/// Fails with `DimensionMismatch` where the collection has a dimension and
/// the host counts another number of components in the query.
pub fn search_collection<H: Host>(
    collection: &Collection,
    query: &H::Query,
    k: usize,
    metric: DistanceMetric,
    params: &SearchParams,
    host: &H,
) -> (r: Result<Vec<Hit>, PiramidError>)
    requires
        collection.inner_wf(),
    ensures
        exists|query_dim: usize|
            match r {
                Ok(hits) => #[trigger] search_refusal(collection, query_dim) is None,
                Err(e) => search_refusal(collection, query_dim) == Some(e),
            },
        r matches Ok(hits) ==> found(
            collection,
            hits@,
            k as int,
            params.filter,
            tuning_of(collection, params),
            fetch_of(collection, k, params),
        ),
{
    let query_dim: usize = host.query_dim(query);
    search_with_dim(collection, query, query_dim, k, metric, params, host)
}

/// Search a collection with a query of `query_dim` components: ask the
/// index for candidates (more than `k` where a filter will drop some),
/// fetch their documents from the data region, keep those the filter
/// accepts, and no more than `k`, score them under the requested metric,
/// and rank them best first, ties by ascending id.
///
/// Fails exactly as `search_refusal` says.
#[verifier::rlimit(30)]
pub fn search_with_dim<H: Host>(
    collection: &Collection,
    query: &H::Query,
    query_dim: usize,
    k: usize,
    metric: DistanceMetric,
    params: &SearchParams,
    host: &H,
) -> (r: Result<Vec<Hit>, PiramidError>)
    requires
        collection.inner_wf(),
    ensures
        match r {
            Ok(hits) => search_refusal(collection, query_dim) is None && found(
                collection,
                hits@,
                k as int,
                params.filter,
                tuning_of(collection, params),
                fetch_of(collection, k, params),
            ),
            Err(e) => search_refusal(collection, query_dim) == Some(e),
        },
{
    if let Some(expected) = collection.metadata.dimensions {
        if query_dim != expected {
            return Err(PiramidError::DimensionMismatch { expected, actual: query_dim });
        }
    }
    let mode = resolve_mode(params.mode, collection.config.execution);
    let overfetch: usize = match params.filter_overfetch_override {
        Some(f) => f,
        None => collection.config.search.filter_overfetch,
    };
    let tuning: SearchConfig = match params.search_config_override {
        Some(t) => t,
        None => collection.config.search,
    };
    let fetch: usize = fetch_size(k, params.filter.is_some(), overfetch);
    let ids = collection.store.index.ids();
    let probe = Probe::Query(query);
    let candidates = collection.vector_index.search(
        &probe,
        fetch,
        &ids,
        &collection.vector_cache,
        &tuning,
        host,
    );
    proof {
        collection.store.lemma_live_finite();
        collection.store.index.lemma_order();
        if params.filter is None && collection.caches_consistent() && answers_fully(
            collection,
            tuning,
        ) {
            assert forall|i: int| 0 <= i < candidates@.len() implies collection.live().contains_key(
                (#[trigger] candidates@[i]).id,
            ) && ids@.contains(candidates@[i].id) by {
                assert(collection.vector_cache@.dom().contains(candidates@[i].id));
            }
            assert forall|j: int| 0 <= j < ids@.len() implies collection.vector_cache@.dom().contains(
                #[trigger] ids@[j],
            ) && collection.live().contains_key(ids@[j]) by {
                assert(ids@.contains(ids@[j]));
            }
            lemma_fills(
                collection.vector_index,
                candidates@,
                fetch as int,
                ids@,
                collection.vector_cache@.dom(),
                tuning,
            );
        }
    }
    let docs = hydrate(collection, &candidates, k, &params.filter, host);
    let mut scores: Vec<Scored> = Vec::new();
    let mut i: usize = 0;
    while i < docs.len()
        invariant
            i <= docs.len(),
            scores@.len() == i,
            forall|a: int| 0 <= a < i ==> (#[trigger] scores@[a]).id == docs@[a].id,
        decreases docs.len() - i,
    {
        let score = host.query_similarity(metric, mode, query, &docs[i].vector);
        scores.push(Scored { id: docs[i].id, score });
        i += 1;
    }
    assert(distinct_ids(scores@)) by {
        assert forall|a: int, b: int| 0 <= a < b < scores@.len() implies (#[trigger] scores@[a]).id
            != (#[trigger] scores@[b]).id by {
            assert(docs@[a].id != docs@[b].id);
        }
    }
    let order = top_k(&scores, scores.len());
    let mut hits: Vec<Hit> = Vec::new();
    let mut j: usize = 0;
    while j < order.len()
        invariant
            j <= order.len(),
            hits@.len() == j,
            scores@.len() == docs@.len(),
            forall|a: int| 0 <= a < scores@.len() ==> (#[trigger] scores@[a]).id == docs@[a].id,
            forall|a: int| 0 <= a < order@.len() ==> scores@.contains(#[trigger] order@[a]),
            forall|a: int|
                0 <= a < docs@.len() ==> collection.live().contains_key((#[trigger] docs@[a]).id)
                    && collection.live()[docs@[a].id] == docs@[a]@,
            forall|a: int|
                0 <= a < j ==> (#[trigger] hits@[a]).id == order@[a].id && hits@[a].score
                    == order@[a].score,
            hits_live(hits@, collection.live()),
            hits_pass(hits@, params.filter),
            params.filter is Some ==> forall|a: int|
                0 <= a < docs@.len() ==> decided(
                    params.filter->0@,
                    (#[trigger] docs@[a])@.metadata,
                ) != Some(false),
        decreases order.len() - j,
    {
        let wanted = order[j];
        proof {
            assert(scores@.contains(order@[j as int]));
            let a = choose|a: int| 0 <= a < scores@.len() && scores@[a] == wanted;
            assert(docs@[a].id == wanted.id);
        }
        let mut at: usize = 0;
        while at < docs.len() && docs[at].id != wanted.id
            invariant
                at <= docs.len(),
                exists|a: int| at <= a < docs@.len() && (#[trigger] docs@[a]).id == wanted.id,
            decreases docs.len() - at,
        {
            at += 1;
        }
        let doc = &docs[at];
        let text = doc.text.clone();
        assert(text@ =~= doc.text@);
        hits.push(Hit { id: wanted.id, score: wanted.score, text, metadata: doc.metadata.duplicate() });
        j += 1;
    }
    assert(hit_scores(hits@) =~= order@);
    proof {
        crate::index::ann::lemma_best_k_sound(order@, scores@, scores@.len() as int);
        assert forall|a: int| 0 <= a < hits@.len() implies has_id(
            candidates@,
            (#[trigger] hits@[a]).id,
        ) by {
            assert(scores@.contains(order@[a]));
            let b = choose|b: int| 0 <= b < scores@.len() && scores@[b] == order@[a];
            assert(docs@[b].id == hits@[a].id);
            assert(has_id(candidates@, docs@[b].id));
        }
        assert(among(collection, hits@, candidates@, tuning, fetch as int));
    }
    Ok(hits)
}

/// The tuning of the index under which a search runs: that of the
/// parameters or, where they give none, the collection's own.
pub open spec fn tuning_of(collection: &Collection, params: &SearchParams) -> SearchConfig {
    match params.search_config_override {
        Some(t) => t,
        None => collection.config.search,
    }
}

/// Whether the index of the collection looks at every live document: a flat
/// index does; an inverted-file index does where it probes as many clusters
/// as it has centroids; a graph does where it holds every live document as
/// a live node and its lowest layer leads from every node to every node.
pub open spec fn answers_fully(collection: &Collection, tuning: SearchConfig) -> bool {
    match collection.vector_index {
        AnnIndex::Flat(_) => true,
        AnnIndex::Ivf(i) => probes_of(&i, tuning) >= i.centroids@.len(),
        AnnIndex::Hnsw(h) => h.joined() && forall|id: DocId|
            collection.live().contains_key(id) ==> #[trigger] h.has_live(id),
    }
}

/// Hits of different ids that are all among `ids` are no more than `ids`;
/// where every id is among the hits, they are as many.
proof fn lemma_count(hits: Seq<Scored>, ids: Seq<DocId>)
    requires
        ids.no_duplicates(),
        distinct_ids(hits),
        forall|i: int| 0 <= i < hits.len() ==> ids.contains((#[trigger] hits[i]).id),
    ensures
        hits.len() <= ids.len(),
        (forall|j: int| 0 <= j < ids.len() ==> has_id(hits, #[trigger] ids[j])) ==> hits.len()
            == ids.len(),
{
    let found = hits.map_values(|s: Scored| s.id);
    assert(found.no_duplicates()) by {
        assert forall|a: int, b: int| 0 <= a < found.len() && 0 <= b < found.len() && a
            != b implies found[a] != found[b] by {
            if a < b {
                assert(hits[a].id != hits[b].id);
            } else {
                assert(hits[b].id != hits[a].id);
            }
        }
    }
    assert(found.to_set().subset_of(ids.to_set())) by {
        assert forall|id: DocId| found.to_set().contains(id) implies ids.to_set().contains(id) by {
            let i = choose|i: int| 0 <= i < found.len() && found[i] == id;
            assert(ids.contains(hits[i].id));
        }
    }
    found.unique_seq_to_set();
    ids.lemma_cardinality_of_set();
    vstd::set_lib::lemma_len_subset(found.to_set(), ids.to_set());
    if forall|j: int| 0 <= j < ids.len() ==> has_id(hits, #[trigger] ids[j]) {
        assert(ids.to_set().subset_of(found.to_set())) by {
            assert forall|id: DocId| ids.to_set().contains(id) implies found.to_set().contains(
                id,
            ) by {
                let j = choose|j: int| 0 <= j < ids.len() && ids[j] == id;
                assert(has_id(hits, ids[j]));
                let i = choose|i: int| 0 <= i < hits.len() && (#[trigger] hits[i]).id == id;
                assert(found[i] == id);
            }
        }
        ids.unique_seq_to_set();
        found.lemma_cardinality_of_set();
        vstd::set_lib::lemma_len_subset(ids.to_set(), found.to_set());
    }
}

/// An index that looks at every id returns as many candidates as it is
/// asked for, or all ids where there are fewer.
proof fn lemma_fills(
    index: AnnIndex,
    hits: Seq<Scored>,
    k: int,
    ids: Seq<DocId>,
    vectors: Set<DocId>,
    tuning: SearchConfig,
)
    requires
        match index {
            AnnIndex::Flat(_) => true,
            AnnIndex::Ivf(i) => probes_of(&i, tuning) >= i.centroids@.len(),
            AnnIndex::Hnsw(h) => h.joined() && forall|j: int|
                0 <= j < ids.len() ==> h.has_live(#[trigger] ids[j]),
        },
        ids.no_duplicates(),
        forall|j: int| 0 <= j < ids.len() ==> vectors.contains(#[trigger] ids[j]),
        index.exact_hits(hits, k, ids, vectors, tuning),
        hits.len() <= k,
        distinct_ids(hits),
        forall|i: int| 0 <= i < hits.len() ==> ids.contains((#[trigger] hits[i]).id),
    ensures
        hits.len() == crate::index::ranking::least(k, ids.len() as int),
{
    lemma_count(hits, ids);
    match index {
        AnnIndex::Hnsw(h) => {
            if hits.len() != k {
                h.lemma_joined_finds_all(hits, vectors);
                assert forall|j: int| 0 <= j < ids.len() implies has_id(hits, #[trigger] ids[j]) by {
                    assert(h.has_live(ids[j]) && vectors.contains(ids[j]));
                }
            }
        },
        _ => {},
    }
}

/// Whether query `q` is the first of the batch that is refused.
pub open spec fn first_refused(collection: &Collection, dims: Seq<usize>, q: int) -> bool {
    &&& 0 <= q < dims.len()
    &&& search_refusal(collection, dims[q]) is Some
    &&& forall|j: int| 0 <= j < q ==> (#[trigger] search_refusal(collection, dims[j])) is None
}

/// Whether `all` holds, for each query, what its hits owe.
pub open spec fn found_each(
    collection: &Collection,
    all: Seq<Vec<Hit>>,
    k: int,
    filter: Option<Filter>,
    tuning: SearchConfig,
    fetch: int,
) -> bool {
    forall|q: int|
        0 <= q < all.len() ==> found(collection, (#[trigger] all[q])@, k, filter, tuning, fetch)
}

/// Run several searches, one after the other, under the same parameters;
/// `dims[q]` is the number of components of `queries[q]`.
///
/// Fails with the refusal of the first query that is refused, and only
/// where one is.
pub fn search_batch_with_dims<H: Host>(
    collection: &Collection,
    queries: &Vec<H::Query>,
    dims: &Vec<usize>,
    k: usize,
    metric: DistanceMetric,
    params: &SearchParams,
    host: &H,
) -> (r: Result<Vec<Vec<Hit>>, PiramidError>)
    requires
        collection.inner_wf(),
        dims@.len() == queries@.len(),
    ensures
        match r {
            Ok(all) => {
                &&& all@.len() == queries@.len()
                &&& forall|q: int|
                    0 <= q < dims@.len() ==> (#[trigger] search_refusal(collection, dims@[q])) is None
                &&& found_each(
                    collection,
                    all@,
                    k as int,
                    params.filter,
                    tuning_of(collection, params),
                    fetch_of(collection, k, params),
                )
            },
            Err(e) => exists|q: int| #[trigger]
                first_refused(collection, dims@, q) && search_refusal(collection, dims@[q])
                    == Some(e),
        },
{
    let mut all: Vec<Vec<Hit>> = Vec::new();
    let mut q: usize = 0;
    while q < queries.len()
        invariant
            q <= queries.len(),
            dims@.len() == queries@.len(),
            all@.len() == q,
            collection.inner_wf(),
            forall|j: int| 0 <= j < q ==> (#[trigger] search_refusal(collection, dims@[j])) is None,
            found_each(
                collection,
                all@,
                k as int,
                params.filter,
                tuning_of(collection, params),
                fetch_of(collection, k, params),
            ),
        decreases queries.len() - q,
    {
        match search_with_dim(collection, &queries[q], dims[q], k, metric, params, host) {
            Ok(hits) => {
                let ghost before = all@;
                all.push(hits);
                proof {
                    assert forall|a: int| 0 <= a < all@.len() implies found(
                        collection,
                        (#[trigger] all@[a])@,
                        k as int,
                        params.filter,
                        tuning_of(collection, params),
                        fetch_of(collection, k, params),
                    ) by {
                        if a < before.len() {
                            assert(all@[a] == before[a]);
                        }
                    }
                }
            },
            Err(e) => {
                assert(first_refused(collection, dims@, q as int));
                return Err(e);
            },
        }
        q += 1;
    }
    Ok(all)
}

/// Run several searches, one after the other, under the same parameters:
/// ask the host for the number of components of each query, and search as
/// `search_batch_with_dims` does.
pub fn search_batch_collection<H: Host>(
    collection: &Collection,
    queries: &Vec<H::Query>,
    k: usize,
    metric: DistanceMetric,
    params: &SearchParams,
    host: &H,
) -> (r: Result<Vec<Vec<Hit>>, PiramidError>)
    requires
        collection.inner_wf(),
    ensures
        exists|dims: Seq<usize>|
            dims.len() == queries@.len() && match r {
                Ok(all) => forall|q: int|
                    0 <= q < dims.len() ==> (#[trigger] search_refusal(collection, dims[q])) is None,
                Err(e) => exists|q: int| #[trigger]
                    first_refused(collection, dims, q) && search_refusal(collection, dims[q])
                        == Some(e),
            },
        r matches Ok(all) ==> all@.len() == queries@.len() && found_each(
            collection,
            all@,
            k as int,
            params.filter,
            tuning_of(collection, params),
            fetch_of(collection, k, params),
        ),
{
    let mut dims: Vec<usize> = Vec::new();
    let mut q: usize = 0;
    while q < queries.len()
        invariant
            q <= queries.len(),
            dims@.len() == q,
        decreases queries.len() - q,
    {
        dims.push(host.query_dim(&queries[q]));
        q += 1;
    }
    search_batch_with_dims(collection, queries, &dims, k, metric, params, host)
}

} // verus!
