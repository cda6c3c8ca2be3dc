//! The index of a collection: one of the three kinds, behind one interface.

use std::collections::HashMap;
use vstd::prelude::*;
use crate::config::execution::ExecutionMode;
use crate::config::search::SearchConfig;
use crate::distance::DistanceMetric;
use crate::host::{Host, Probe};
use crate::index::flat::scan::{scans, FlatIndex};
use crate::index::hnsw::figures::capped;
use crate::index::hnsw::graph::HnswIndex;
use crate::index::hnsw::snapshot::graph_decoded;
use crate::index::ivf::snapshot::{centroids_decoded, vector_views};
use crate::index::ivf::lists::{found_nearest, scans_loose, scans_some, IvfIndex};
use crate::index::ranking::{distinct_ids, is_best_k, ranked, ranks_before, Scored};
use crate::index::traits::{IndexDetails, IndexStats, IndexType};
use crate::quantization::QuantizedVector;
use crate::DocId;

verus! {

broadcast use vstd::std_specs::hash::group_hash_axioms;

/// The index of a collection.
#[derive(Debug)]
pub enum AnnIndex {
    Flat(FlatIndex),
    Hnsw(HnswIndex),
    Ivf(IvfIndex),
}

/// Whether the hits are what every kind of index owes: at most `k`, ranked
/// best first, no id twice, and each with a vector.
pub open spec fn sound_hits(hits: Seq<Scored>, k: int, vectors: Set<DocId>) -> bool {
    &&& hits.len() <= k
    &&& ranked(hits)
    &&& distinct_ids(hits)
    &&& forall|i: int| 0 <= i < hits.len() ==> vectors.contains((#[trigger] hits[i]).id)
}

/// The best `k` of a scan without repeated ids are ranked, have no id
/// twice, and are taken from the scan.
pub proof fn lemma_best_k_sound(hits: Seq<Scored>, scan: Seq<Scored>, k: int)
    requires
        0 <= k,
        distinct_ids(scan),
        is_best_k(hits, scan, k),
    ensures
        hits.len() <= k,
        ranked(hits),
        distinct_ids(hits),
        forall|i: int| 0 <= i < hits.len() ==> scan.contains(#[trigger] hits[i]),
{
    assert forall|a: int, b: int| 0 <= a < b < hits.len() implies (#[trigger] hits[a]).id != (
    #[trigger] hits[b]).id by {
        assert(scan.contains(hits[a]));
        assert(scan.contains(hits[b]));
        let ja = choose|j: int| 0 <= j < scan.len() && scan[j] == hits[a];
        let jb = choose|j: int| 0 <= j < scan.len() && scan[j] == hits[b];
        assert(ranks_before(hits[a], hits[b]));
        if ja < jb {
            assert(scan[ja].id != scan[jb].id);
        } else if jb < ja {
            assert(scan[jb].id != scan[ja].id);
        }
    }
}

/// Whether `after` is `before` with `id` taken in; `vectors` are the ids
/// whose vectors are known. A flat index does not change. A graph has
/// grown by the node as `grew_by` says: it keeps its configuration and every node in its slot,
/// holds `id` as a live node (in the next slot, where it is new, as long as
/// there is a slot left), and every other id is live as before. An
/// inverted-file index keeps its configuration and centroids, holds `id`
/// in a cluster of one of its centroids (in none without centroids), and
/// every other id where it was.
pub open spec fn took_in(before: AnnIndex, after: AnnIndex, id: DocId, vectors: Set<DocId>) -> bool {
    match (before, after) {
        (AnnIndex::Flat(a), AnnIndex::Flat(b)) => a == b,
        (AnnIndex::Hnsw(a), AnnIndex::Hnsw(b)) => {
            &&& exists|level: usize| #[trigger] b.grew_by(&a, id, level, vectors)
            &&& b.config == a.config
            &&& b.nodes@.len() == if a.has_node(id) || a.nodes@.len() == usize::MAX {
                a.nodes@.len()
            } else {
                a.nodes@.len() + 1
            }
            &&& forall|s: int|
                0 <= s < a.nodes@.len() ==> (#[trigger] b.nodes@[s]).id == a.nodes@[s].id
            &&& b.nodes@.len() > a.nodes@.len() ==> b.nodes@[a.nodes@.len() as int].id == id
            &&& a.nodes@.len() < usize::MAX ==> b.has_live(id)
            &&& forall|other: DocId| other != id ==> b.has_live(other) == a.has_live(other)
        },
        (AnnIndex::Ivf(a), AnnIndex::Ivf(b)) => {
            &&& b.config == a.config
            &&& b.centroids == a.centroids
            &&& b.cluster_of@.remove(id) == a.cluster_of@.remove(id)
            &&& b.cluster_of@.contains_key(id) == (a.centroids@.len() > 0)
            &&& b.cluster_of@.contains_key(id) ==> b.cluster_of@[id] < a.centroids@.len()
                && found_nearest(a.centroids@.len(), b.cluster_of@[id] as int)
        },
        _ => false,
    }
}

/// Whether two indexes are of one kind and under one configuration.
pub open spec fn configured_as(a: AnnIndex, b: AnnIndex) -> bool {
    match (a, b) {
        (AnnIndex::Flat(f), AnnIndex::Flat(g)) => g.config == f.config,
        (AnnIndex::Hnsw(f), AnnIndex::Hnsw(g)) => g.config == f.config,
        (AnnIndex::Ivf(f), AnnIndex::Ivf(g)) => g.config == f.config,
        _ => false,
    }
}

/// Whether `after` is `before` with `id` taken out. A flat index does not
/// change. A graph keeps its configuration, its nodes in their slots and
/// its entry point; `id` is live no more, and every other id is live as
/// before. An inverted-file index keeps its configuration and centroids,
/// and its clusters hold every id but `id` as before.
pub open spec fn took_out(before: AnnIndex, after: AnnIndex, id: DocId) -> bool {
    match (before, after) {
        (AnnIndex::Flat(a), AnnIndex::Flat(b)) => a == b,
        (AnnIndex::Hnsw(a), AnnIndex::Hnsw(b)) => {
            &&& b.config == a.config
            &&& b.nodes@.len() == a.nodes@.len()
            &&& b.entry == a.entry
            &&& !b.has_live(id)
            &&& forall|other: DocId| other != id ==> b.has_live(other) == a.has_live(other)
        },
        (AnnIndex::Ivf(a), AnnIndex::Ivf(b)) => {
            &&& b.config == a.config
            &&& b.centroids == a.centroids
            &&& b.cluster_of@ == a.cluster_of@.remove(id)
        },
        _ => false,
    }
}

/// The number of clusters that a search of the index probes under `params`.
pub open spec fn probes_of(index: &IvfIndex, params: SearchConfig) -> usize {
    match params.nprobe {
        Some(n) => n,
        None => index.config.num_probes,
    }
}

impl AnnIndex {
    /// The invariant of whichever kind this is.
    pub open spec fn wf(&self) -> bool {
        match self {
            AnnIndex::Hnsw(h) => h.wf(),
            _ => true,
        }
    }

    /// Whether the index answers for no id but those of `live`: a graph
    /// has no live node, and an inverted-file index no id in a cluster, that
    /// is not among them.
    pub open spec fn within(&self, live: Set<DocId>) -> bool {
        match self {
            AnnIndex::Flat(_) => true,
            AnnIndex::Hnsw(h) => forall|id: DocId| #[trigger] h.has_live(id) ==> live.contains(id),
            AnnIndex::Ivf(i) => forall|id: DocId| #[trigger]
                i.cluster_of@.contains_key(id) ==> live.contains(id),
        }
    }

    /// What a search of this index owes beyond `sound_hits`. A flat index
    /// returns the best `k` of a scan of every id that has a vector; an
    /// inverted-file index the best `k` of a scan of some of them, among
    /// them those it holds in no cluster, and of all of them where it probes
    /// as many clusters as it has centroids; a graph
    /// index returns no tombstone, and returns `k` ids or every live id
    /// with a vector that the links of its lowest layer lead to from one of
    /// its nodes.
    pub open spec fn exact_hits(
        &self,
        hits: Seq<Scored>,
        k: int,
        ids: Seq<DocId>,
        vectors: Set<DocId>,
        params: SearchConfig,
    ) -> bool {
        match self {
            AnnIndex::Flat(_) => exists|scan: Seq<Scored>|
                #[trigger] scans(scan, ids, vectors) && is_best_k(hits, scan, k) && ((forall|
                    j: int,
                | 0 <= j < ids.len() ==> vectors.contains(#[trigger] ids[j])) ==> scan.len()
                    == ids.len()),
            AnnIndex::Ivf(i) => exists|scan: Seq<Scored>|
                #[trigger] scans_some(scan, ids, vectors) && is_best_k(hits, scan, k)
                    && scans_loose(i, scan, ids, vectors) && (probes_of(i, params)
                    >= i.centroids@.len() ==> scans(scan, ids, vectors) && ((forall|j: int|
                    0 <= j < ids.len() ==> vectors.contains(#[trigger] ids[j])) ==> scan.len()
                    == ids.len())),
            AnnIndex::Hnsw(h) => {
                &&& forall|i: int| 0 <= i < hits.len() ==> h.has_live((#[trigger] hits[i]).id)
                &&& hits.len() == k || h.found_near(hits, vectors)
            },
        }
    }

    /// The kind of index this is.
    pub fn index_type(&self) -> (r: IndexType)
        ensures
            r == match self {
                AnnIndex::Flat(_) => IndexType::Flat,
                AnnIndex::Hnsw(_) => IndexType::Hnsw,
                AnnIndex::Ivf(_) => IndexType::Ivf,
            },
    {
        match self {
            AnnIndex::Flat(_) => IndexType::Flat,
            AnnIndex::Hnsw(_) => IndexType::Hnsw,
            AnnIndex::Ivf(_) => IndexType::Ivf,
        }
    }

    /// The metric the index ranks by.
    pub fn metric(&self) -> (r: DistanceMetric)
        ensures
            r == match self {
                AnnIndex::Flat(f) => f.config.metric,
                AnnIndex::Hnsw(h) => h.config.metric,
                AnnIndex::Ivf(i) => i.config.metric,
            },
    {
        match self {
            AnnIndex::Flat(f) => f.config.metric,
            AnnIndex::Hnsw(h) => h.config.metric,
            AnnIndex::Ivf(i) => i.config.metric,
        }
    }

    /// The kernels the index was configured for.
    pub fn mode(&self) -> (r: ExecutionMode)
        ensures
            r == match self {
                AnnIndex::Flat(f) => f.config.mode,
                AnnIndex::Hnsw(h) => h.config.mode,
                AnnIndex::Ivf(i) => i.config.mode,
            },
    {
        match self {
            AnnIndex::Flat(f) => f.config.mode,
            AnnIndex::Hnsw(h) => h.config.mode,
            AnnIndex::Ivf(i) => i.config.mode,
        }
    }

    /// Take `id` with its vector into the index. `vectors` holds the vector
    /// of every id that the index knows. The index stays of its kind; a
    /// graph holds `id` as a live node afterwards.
    pub fn insert<H: Host>(
        &mut self,
        id: DocId,
        vector: &QuantizedVector,
        vectors: &HashMap<DocId, QuantizedVector>,
        host: &H,
    )
        requires
            old(self).wf(),
        ensures
            final(self).wf(),
            (*final(self) is Flat) == (*old(self) is Flat),
            (*final(self) is Hnsw) == (*old(self) is Hnsw),
            (*final(self) is Ivf) == (*old(self) is Ivf),
            took_in(*old(self), *final(self), id, vectors@.dom()),
    {
        match self {
            AnnIndex::Flat(_) => {},
            AnnIndex::Hnsw(h) => {
                h.insert(id, vector, vectors, host);
            },
            AnnIndex::Ivf(i) => {
                i.insert(id, vector, host);
            },
        }
    }

    /// Take `id` out of the index. A graph keeps its node as a tombstone
    /// that no search returns.
    pub fn remove(&mut self, id: DocId)
        requires
            old(self).wf(),
        ensures
            final(self).wf(),
            (*final(self) is Flat) == (*old(self) is Flat),
            (*final(self) is Hnsw) == (*old(self) is Hnsw),
            (*final(self) is Ivf) == (*old(self) is Ivf),
            took_out(*old(self), *final(self), id),
    {
        match self {
            AnnIndex::Flat(_) => {},
            AnnIndex::Hnsw(h) => {
                h.remove(id);
            },
            AnnIndex::Ivf(i) => {
                i.remove(id);
            },
        }
    }

    /// The ids most similar to the probe, best first, at most `k` of them.
    /// `ids` are the live ids, `vectors` their vectors. A graph searches
    /// with the candidate list that `params` give, or its own, and never
    /// with fewer than `k`; an inverted-file index probes as many clusters
    /// as `params` give, or its own number.
    pub fn search<H: Host>(
        &self,
        probe: &Probe<'_, H::Query>,
        k: usize,
        ids: &Vec<DocId>,
        vectors: &HashMap<DocId, QuantizedVector>,
        params: &SearchConfig,
        host: &H,
    ) -> (hits: Vec<Scored>)
        requires
            self.wf(),
            ids@.no_duplicates(),
        ensures
            sound_hits(hits@, k as int, vectors@.dom()),
            self.exact_hits(hits@, k as int, ids@, vectors@.dom(), *params),
    {
        match self {
            AnnIndex::Flat(f) => {
                let hits = f.search(probe, k, ids, vectors, host);
                proof {
                    let scan = choose|scan: Seq<Scored>|
                        #[trigger] scans(scan, ids@, vectors@.dom()) && is_best_k(
                            hits@,
                            scan,
                            k as int,
                        ) && ((forall|j: int|
                            0 <= j < ids@.len() ==> vectors@.contains_key(#[trigger] ids@[j]))
                            ==> scan.len() == ids@.len());
                    lemma_best_k_sound(hits@, scan, k as int);
                    assert forall|i: int| 0 <= i < hits@.len() implies vectors@.dom().contains(
                        (#[trigger] hits@[i]).id,
                    ) by {
                        let j = choose|j: int| 0 <= j < scan.len() && scan[j] == hits@[i];
                        assert(vectors@.dom().contains(scan[j].id));
                    }
                }
                hits
            },
            AnnIndex::Hnsw(h) => {
                let ef: usize = match params.ef {
                    Some(ef) => ef,
                    None => h.get_ef_search(),
                };
                h.search(probe, k, ef, vectors, host)
            },
            AnnIndex::Ivf(i) => {
                let nprobe: usize = match params.nprobe {
                    Some(n) => n,
                    None => i.config.num_probes,
                };
                let hits = i.search(probe, k, ids, vectors, nprobe, host);
                proof {
                    let scan = choose|scan: Seq<Scored>|
                        #[trigger] scans_some(scan, ids@, vectors@.dom()) && is_best_k(
                            hits@,
                            scan,
                            k as int,
                        );
                    lemma_best_k_sound(hits@, scan, k as int);
                    assert forall|a: int| 0 <= a < hits@.len() implies vectors@.dom().contains(
                        (#[trigger] hits@[a]).id,
                    ) by {
                        let j = choose|j: int| 0 <= j < scan.len() && scan[j] == hits@[a];
                        assert(vectors@.dom().contains(scan[j].id));
                    }
                }
                hits
            },
        }
    }

    /// Whether the index answers for exactly the ids of `ids`. A flat or an
    /// inverted-file index looks at the live ids themselves and always does;
    /// a graph does where its live nodes stand for exactly these ids.
    pub fn covers(&self, ids: &Vec<DocId>) -> (r: bool)
        requires
            self.wf(),
            ids@.no_duplicates(),
        ensures
            r == match self {
                AnnIndex::Hnsw(h) => (forall|i: int|
                    0 <= i < ids@.len() ==> h.has_live(#[trigger] ids@[i])) && h.nodes@.len()
                    - h.tombstones_among(h.nodes@.len() as int) == ids@.len(),
                _ => true,
            },
            r && *self is Hnsw ==> self.within(ids@.to_set()),
    {
        match self {
            AnnIndex::Hnsw(h) => h.covers(ids),
            _ => true,
        }
    }

    /// Compute anew which cluster each id of `ids` belongs to. Only an
    /// inverted-file index has clusters: afterwards they hold exactly those
    /// of `ids` that have a vector, and the centroids are what they were.
    pub fn reassign<H: Host>(
        &mut self,
        ids: &Vec<DocId>,
        vectors: &HashMap<DocId, QuantizedVector>,
        host: &H,
    )
        requires
            old(self).wf(),
        ensures
            final(self).wf(),
            (*final(self) is Flat) == (*old(self) is Flat),
            (*final(self) is Hnsw) == (*old(self) is Hnsw),
            (*final(self) is Ivf) == (*old(self) is Ivf),
            !(*old(self) is Ivf) ==> *final(self) == *old(self),
            match (*old(self), *final(self)) {
                (AnnIndex::Ivf(before), AnnIndex::Ivf(after)) => after.config == before.config
                    && after.centroids == before.centroids && after.assigns(
                    ids@,
                    vectors@.dom(),
                ),
                _ => true,
            },
    {
        match self {
            AnnIndex::Ivf(i) => {
                i.assign_all(ids, vectors, host);
            },
            _ => {},
        }
    }

    /// The snapshot of the index: that of the graph or of the centroids. A
    /// flat index has none.
    pub fn encode(&self) -> (r: Option<Vec<u8>>)
        requires
            self.wf(),
        ensures
            match self {
                AnnIndex::Flat(_) => r is None,
                AnnIndex::Hnsw(h) => r is Some && graph_decoded(r->0@) == Some(h@),
                AnnIndex::Ivf(i) => r is Some && centroids_decoded(r->0@) == Some(
                    vector_views(i.centroids@),
                ),
            },
    {
        match self {
            AnnIndex::Flat(_) => None,
            AnnIndex::Hnsw(h) => Some(h.encode()),
            AnnIndex::Ivf(i) => Some(i.encode()),
        }
    }

    /// The index that a snapshot holds, of the kind and under the
    /// configuration of `fresh`, or `fresh` itself where the bytes are no
    /// snapshot of its kind. Returns with it whether the snapshot was taken.
    pub fn restore(fresh: AnnIndex, b: &[u8]) -> (r: (AnnIndex, bool))
        requires
            fresh.wf(),
        ensures
            r.0.wf(),
            (r.0 is Flat) == (fresh is Flat),
            (r.0 is Hnsw) == (fresh is Hnsw),
            (r.0 is Ivf) == (fresh is Ivf),
            match (fresh, r.0) {
                (AnnIndex::Flat(_), _) => !r.1 && r.0 == fresh,
                (AnnIndex::Hnsw(f), AnnIndex::Hnsw(h)) => h.config == f.config && if r.1 {
                    graph_decoded(b@) == Some(h@)
                } else {
                    graph_decoded(b@) is None && r.0 == fresh
                },
                (AnnIndex::Ivf(f), AnnIndex::Ivf(i)) => i.config == f.config && if r.1 {
                    centroids_decoded(b@) == Some(vector_views(i.centroids@)) && i.cluster_of@
                        == Map::<DocId, usize>::empty()
                } else {
                    centroids_decoded(b@) is None && r.0 == fresh
                },
                _ => false,
            },
    {
        match fresh {
            AnnIndex::Flat(f) => (AnnIndex::Flat(f), false),
            AnnIndex::Hnsw(f) => match HnswIndex::decode(f.config, b) {
                Some(h) => (AnnIndex::Hnsw(h), true),
                None => (AnnIndex::Hnsw(f), false),
            },
            AnnIndex::Ivf(f) => match IvfIndex::decode(f.config, b) {
                Some(i) => (AnnIndex::Ivf(i), true),
                None => (AnnIndex::Ivf(f), false),
            },
        }
    }

    /// Figures of the index. `live` is the number of live documents, which a
    /// flat or inverted-file index answers for; an inverted-file index takes
    /// 8 bytes for each of them. A graph reports its own figures.
    pub fn stats(&self, live: usize) -> (r: IndexStats)
        ensures
            r.index_type == match self {
                AnnIndex::Flat(_) => IndexType::Flat,
                AnnIndex::Hnsw(_) => IndexType::Hnsw,
                AnnIndex::Ivf(_) => IndexType::Ivf,
            },
            match self {
                AnnIndex::Flat(_) => r.total_vectors == live && r.memory_usage_bytes == 0
                    && r.details is Flat,
                AnnIndex::Hnsw(h) => {
                    let n = h.nodes@.len() as int;
                    &&& r.total_vectors == n
                    &&& r.memory_usage_bytes == capped(
                        n * 64 + capped(h.links_among(n) as int) * 8,
                    )
                    &&& r.details matches IndexDetails::Hnsw {
                        max_layer,
                        layer_sizes,
                        total_connections,
                        tombstones,
                    }
                    &&& tombstones == h.tombstones_among(n)
                    &&& total_connections == capped(h.links_among(n) as int)
                    &&& max_layer == if n == 0 {
                        None
                    } else if h.height_among(n) == 0 {
                        Some(0usize)
                    } else {
                        Some((h.height_among(n) - 1) as usize)
                    }
                    &&& layer_sizes@.len() == h.height_among(n)
                    &&& forall|l: int|
                        0 <= l < layer_sizes@.len() ==> #[trigger] layer_sizes@[l] == capped(
                            h.on_layer(l, n) as int,
                        )
                },
                AnnIndex::Ivf(i) => r.total_vectors == live && r.memory_usage_bytes == capped(
                    live * 8,
                ) && r.details == (IndexDetails::Ivf { num_clusters: i.centroids@.len() as usize }),
            },
    {
        match self {
            AnnIndex::Flat(_) => IndexStats {
                index_type: IndexType::Flat,
                total_vectors: live,
                memory_usage_bytes: 0,
                details: IndexDetails::Flat,
            },
            AnnIndex::Hnsw(h) => {
                let s = h.stats();
                IndexStats {
                    index_type: IndexType::Hnsw,
                    total_vectors: s.total_nodes,
                    memory_usage_bytes: s.memory_usage_bytes,
                    details: IndexDetails::Hnsw {
                        max_layer: s.max_layer,
                        layer_sizes: s.layer_sizes,
                        total_connections: s.total_connections,
                        tombstones: s.tombstones,
                    },
                }
            },
            AnnIndex::Ivf(i) => IndexStats {
                index_type: IndexType::Ivf,
                total_vectors: live,
                memory_usage_bytes: match live.checked_mul(8) {
                    Some(b) => b,
                    None => usize::MAX,
                },
                details: IndexDetails::Ivf { num_clusters: i.centroids.len() },
            },
        }
    }
}

} // verus!
