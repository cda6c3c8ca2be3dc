//! The inverted lists: every id belongs to the cluster of its nearest
//! centroid, and a search looks into the clusters nearest to the probe.
//!
//! The centroids themselves are means of vectors, which the host computes;
//! the index assigns and searches.

use std::collections::HashMap;
use vstd::prelude::*;
use crate::host::{probe_similarity, Host, Probe};
use crate::index::ivf::config::IvfConfig;
use crate::index::flat::scan::scans;
use crate::index::ranking::{distinct_ids, is_best_k, lemma_all_taken, top_k, Scored};
use crate::quantization::QuantizedVector;
use crate::score::Score;
use crate::DocId;

verus! {

broadcast use vstd::std_specs::hash::group_hash_axioms;

/// An inverted-file index.
#[derive(Debug)]
pub struct IvfIndex {
    pub config: IvfConfig,
    /// The centroids, as the host trained them (empty: not trained yet).
    pub centroids: Vec<QuantizedVector>,
    /// The cluster of each id. An id without a cluster, or with one that the
    /// centroids no longer have, is looked at by every search.
    pub cluster_of: HashMap<DocId, usize>,
}

/// Whether `scan` holds ids of `ids` that have a vector, none twice.
pub open spec fn scans_some(scan: Seq<Scored>, ids: Seq<DocId>, vectors: Set<DocId>) -> bool {
    &&& distinct_ids(scan)
    &&& forall|i: int|
        0 <= i < scan.len() ==> ids.contains((#[trigger] scan[i]).id) && vectors.contains(scan[i].id)
}

/// Whether `scan` holds every id of `ids` that has a vector and that the
/// index holds in no cluster of its centroids.
pub open spec fn scans_loose(
    index: &IvfIndex,
    scan: Seq<Scored>,
    ids: Seq<DocId>,
    vectors: Set<DocId>,
) -> bool {
    forall|j: int|
        0 <= j < ids.len() && vectors.contains(#[trigger] ids[j]) && index.loose(ids[j])
            ==> exists|i: int| 0 <= i < scan.len() && (#[trigger] scan[i]).id == ids[j]
}

/// Whether place `c` holds the highest of the similarities, and is the
/// first place that does.
pub open spec fn is_best_at(scan: Seq<Score>, c: int) -> bool {
    &&& 0 <= c < scan.len()
    &&& forall|j: int| 0 <= j < scan.len() ==> (#[trigger] scan[j]).key <= scan[c].key
    &&& forall|j: int| 0 <= j < c ==> (#[trigger] scan[j]).key < scan[c].key
}

/// Whether `c` is the place of the centroid that was found nearest among
/// `n` centroids: the first place of the highest of the similarities that
/// the host gave for them.
pub open spec fn found_nearest(n: nat, c: int) -> bool {
    exists|scan: Seq<Score>| scan.len() == n && #[trigger] is_best_at(scan, c)
}

/// The first place of the highest similarity; nothing where there is none.
pub fn best_of(scan: &Vec<Score>) -> (r: Option<usize>)
    ensures
        match r {
            Some(c) => is_best_at(scan@, c as int),
            None => scan@.len() == 0,
        },
{
    if scan.len() == 0 {
        return None;
    }
    let mut best: usize = 0;
    let mut c: usize = 1;
    while c < scan.len()
        invariant
            1 <= c <= scan.len(),
            is_best_at(scan@.take(c as int), best as int),
        decreases scan.len() - c,
    {
        let ghost seen = scan@.take(c as int);
        let ghost next = scan@.take(c + 1);
        if scan[c].key > scan[best].key {
            proof {
                assert forall|j: int| 0 <= j < next.len() implies (#[trigger] next[j]).key
                    <= next[c as int].key by {
                    if j < c {
                        assert(seen[j].key <= seen[best as int].key);
                    }
                }
                assert forall|j: int| 0 <= j < c implies (#[trigger] next[j]).key
                    < next[c as int].key by {
                    assert(seen[j].key <= seen[best as int].key);
                }
            }
            best = c;
        } else {
            proof {
                assert forall|j: int| 0 <= j < next.len() implies (#[trigger] next[j]).key
                    <= next[best as int].key by {
                    if j < c {
                        assert(seen[j].key <= seen[best as int].key);
                    }
                }
                assert forall|j: int| 0 <= j < best implies (#[trigger] next[j]).key
                    < next[best as int].key by {
                    assert(seen[j].key < seen[best as int].key);
                }
            }
        }
        c += 1;
    }
    assert(scan@.take(scan.len() as int) =~= scan@);
    Some(best)
}

/// The similarity of `v` to each of the centroids, as the host computes it.
fn centroid_scores<H: Host>(
    config: &IvfConfig,
    centroids: &Vec<QuantizedVector>,
    v: &QuantizedVector,
    host: &H,
) -> (scan: Vec<Score>)
    ensures
        scan@.len() == centroids@.len(),
{
    let mut scan: Vec<Score> = Vec::new();
    let mut c: usize = 0;
    while c < centroids.len()
        invariant
            c <= centroids.len(),
            scan@.len() == c,
        decreases centroids.len() - c,
    {
        scan.push(host.similarity(config.metric, config.mode, v, &centroids[c]));
        c += 1;
    }
    scan
}

/// The index of the centroid most similar to `v`, the lowest such index
/// where several are equally similar; nothing where there is no centroid.
pub fn nearest_centroid<H: Host>(
    config: &IvfConfig,
    centroids: &Vec<QuantizedVector>,
    v: &QuantizedVector,
    host: &H,
) -> (r: Option<usize>)
    ensures
        match r {
            Some(c) => c < centroids@.len() && found_nearest(centroids@.len(), c as int),
            None => centroids@.len() == 0,
        },
{
    let scan = centroid_scores(config, centroids, v, host);
    let r = best_of(&scan);
    proof {
        if r is Some {
            assert(is_best_at(scan@, r->0 as int));
        }
    }
    r
}

/// Whether the list of clusters holds cluster `c`.
pub open spec fn holds_cluster(probed: Seq<Scored>, c: int) -> bool {
    exists|i: int| 0 <= i < probed.len() && (#[trigger] probed[i]).id == c
}

/// Whether the list holds the cluster.
fn probes(probed: &Vec<Scored>, cluster: usize) -> (r: bool)
    ensures
        r == holds_cluster(probed@, cluster as int),
{
    let mut i: usize = 0;
    while i < probed.len()
        invariant
            i <= probed.len(),
            forall|j: int| 0 <= j < i ==> (#[trigger] probed@[j]).id != cluster as u128,
        decreases probed.len() - i,
    {
        if probed[i].id == cluster as u128 {
            return true;
        }
        i += 1;
    }
    false
}

impl IvfIndex {
    /// Whether `id` is in no cluster of the centroids: every search looks
    /// at such an id.
    pub open spec fn loose(&self, id: DocId) -> bool {
        !self.cluster_of@.contains_key(id) || self.cluster_of@[id] >= self.centroids@.len()
    }

    /// An index without centroids: until it is trained, every search looks
    /// at every id.
    pub fn new(config: IvfConfig) -> (r: Self)
        ensures
            r.config == config,
            r.centroids@.len() == 0,
            r.cluster_of@ == Map::<DocId, usize>::empty(),
    {
        IvfIndex { config, centroids: Vec::new(), cluster_of: HashMap::new() }
    }

    /// Put `id` into the cluster of the centroid nearest to its vector, or
    /// into none where there is no centroid yet. No other id moves.
    pub fn insert<H: Host>(&mut self, id: DocId, vector: &QuantizedVector, host: &H)
        ensures
            final(self).config == old(self).config,
            final(self).centroids == old(self).centroids,
            final(self).cluster_of@.remove(id) == old(self).cluster_of@.remove(id),
            final(self).cluster_of@.contains_key(id) == (old(self).centroids@.len() > 0),
            final(self).cluster_of@.contains_key(id) ==> final(self).cluster_of@[id] < old(
                self,
            ).centroids@.len() && found_nearest(
                old(self).centroids@.len(),
                final(self).cluster_of@[id] as int,
            ),
    {
        match nearest_centroid(&self.config, &self.centroids, vector, host) {
            Some(c) => {
                self.cluster_of.insert(id, c);
                assert(self.cluster_of@.remove(id) =~= old(self).cluster_of@.remove(id));
            },
            None => {
                self.cluster_of.remove(&id);
                assert(self.cluster_of@.remove(id) =~= old(self).cluster_of@.remove(id));
            },
        }
    }

    /// Take `id` out of its cluster.
    pub fn remove(&mut self, id: DocId)
        ensures
            final(self).config == old(self).config,
            final(self).centroids == old(self).centroids,
            final(self).cluster_of@ == old(self).cluster_of@.remove(id),
    {
        self.cluster_of.remove(&id);
    }

    /// Take new centroids and put every id of `ids` that has a vector into
    /// the cluster of its nearest centroid.
    pub fn train<H: Host>(
        &mut self,
        centroids: Vec<QuantizedVector>,
        ids: &Vec<DocId>,
        vectors: &HashMap<DocId, QuantizedVector>,
        host: &H,
    )
        ensures
            final(self).config == old(self).config,
            final(self).centroids == centroids,
            final(self).assigns(ids@, vectors@.dom()),
    {
        self.centroids = centroids;
        self.assign_all(ids, vectors, host);
    }

    /// The clusters a search looks into: the `nprobe` centroids most similar
    /// to the probe.
    fn probed<H: Host>(&self, probe: &Probe<'_, H::Query>, nprobe: usize, host: &H) -> (r: Vec<Scored>)
        ensures
            r@.len() <= nprobe,
            r@.len() <= self.centroids@.len(),
            nprobe >= self.centroids@.len() ==> forall|c: int|
                0 <= c < self.centroids@.len() ==> #[trigger] holds_cluster(r@, c),
    {
        let mut scored: Vec<Scored> = Vec::new();
        let mut c: usize = 0;
        while c < self.centroids.len()
            invariant
                c <= self.centroids.len(),
                scored@.len() == c,
                forall|i: int| 0 <= i < c ==> (#[trigger] scored@[i]).id == i as u128,
            decreases self.centroids.len() - c,
        {
            let score = probe_similarity(
                host,
                self.config.metric,
                self.config.mode,
                probe,
                &self.centroids[c],
            );
            scored.push(Scored { id: c as u128, score });
            c += 1;
        }
        assert(distinct_ids(scored@));
        let hits = top_k(&scored, nprobe);
        proof {
            if nprobe >= self.centroids@.len() {
                assert forall|c: int| 0 <= c < self.centroids@.len() implies #[trigger] holds_cluster(
                    hits@,
                    c,
                ) by {
                    lemma_all_taken(hits@, scored@, c);
                    let i = choose|i: int| 0 <= i < hits@.len() && hits@[i] == scored@[c];
                    assert(hits@[i].id == c);
                }
            }
        }
        hits
    }

    /// The best `k` among the ids of `ids` that have a vector and belong to
    /// one of the `nprobe` clusters nearest to the probe, or to no cluster.
    /// With as many probes as there are centroids, these are all ids that
    /// have a vector.
    pub fn search<H: Host>(
        &self,
        probe: &Probe<'_, H::Query>,
        k: usize,
        ids: &Vec<DocId>,
        vectors: &HashMap<DocId, QuantizedVector>,
        nprobe: usize,
        host: &H,
    ) -> (hits: Vec<Scored>)
        requires
            ids@.no_duplicates(),
        ensures
            exists|scan: Seq<Scored>|
                #[trigger] scans_some(scan, ids@, vectors@.dom()) && is_best_k(hits@, scan, k as int)
                    && scans_loose(self, scan, ids@, vectors@.dom()) && (nprobe
                    >= self.centroids@.len() ==> scans(scan, ids@, vectors@.dom()) && ((forall|
                    j: int,
                | 0 <= j < ids@.len() ==> vectors@.contains_key(#[trigger] ids@[j])) ==> scan.len()
                    == ids@.len())),
    {
        let clusters = self.probed(probe, nprobe, host);
        let mut scan: Vec<Scored> = Vec::new();
        let mut i: usize = 0;
        while i < ids.len()
            invariant
                i <= ids.len(),
                ids@.no_duplicates(),
                scans_some(scan@, ids@.take(i as int), vectors@.dom()),
                nprobe >= self.centroids@.len() ==> forall|c: int|
                    0 <= c < self.centroids@.len() ==> #[trigger] holds_cluster(clusters@, c),
                forall|j: int|
                    0 <= j < i && vectors@.dom().contains(#[trigger] ids@[j]) && (self.loose(ids@[j])
                        || nprobe >= self.centroids@.len()) ==> exists|a: int|
                        0 <= a < scan@.len() && (#[trigger] scan@[a]).id == ids@[j],
                nprobe >= self.centroids@.len() && (forall|j: int|
                    0 <= j < i ==> vectors@.contains_key(#[trigger] ids@[j])) ==> scan@.len() == i,
            decreases ids.len() - i,
        {
            let id = ids[i];
            let ghost before = scan@;
            let ghost seen = ids@.take(i as int);
            let ghost next = ids@.take(i + 1);
            proof {
                assert(next =~= seen.push(id));
                assert forall|j: int| 0 <= j < seen.len() implies seen[j] != id by {
                    assert(ids@[j] != ids@[i as int]);
                }
                assert forall|a: int| 0 <= a < before.len() implies next.contains(
                    (#[trigger] before[a]).id,
                ) by {
                    let k0 = choose|k0: int| 0 <= k0 < seen.len() && seen[k0] == before[a].id;
                    assert(next[k0] == before[a].id);
                }
            }
            let wanted: bool = match self.cluster_of.get(&id) {
                Some(c) => *c >= self.centroids.len() || probes(&clusters, *c),
                None => true,
            };
            proof {
                if self.loose(id) {
                    assert(wanted);
                } else if nprobe >= self.centroids@.len() {
                    assert(holds_cluster(clusters@, self.cluster_of@[id] as int));
                    assert(wanted);
                }
            }
            if wanted {
                match vectors.get(&id) {
                    Some(v) => {
                        let score = probe_similarity(
                            host,
                            self.config.metric,
                            self.config.mode,
                            probe,
                            v,
                        );
                        scan.push(Scored { id, score });
                        proof {
                            let after = scan@;
                            assert forall|a: int, b: int| 0 <= a < b < after.len() implies (
                            #[trigger] after[a]).id != (#[trigger] after[b]).id by {
                                if b == before.len() {
                                    assert(after[a] == before[a]);
                                    assert(seen.contains(before[a].id));
                                } else {
                                    assert(after[a] == before[a] && after[b] == before[b]);
                                }
                            }
                            assert forall|a: int| 0 <= a < after.len() implies next.contains(
                                (#[trigger] after[a]).id,
                            ) && vectors@.dom().contains(after[a].id) by {
                                if a < before.len() {
                                    assert(after[a] == before[a]);
                                } else {
                                    assert(next[i as int] == id);
                                }
                            }
                        }
                    },
                    None => {},
                }
            }
            proof {
                let after = scan@;
                assert forall|j: int|
                    0 <= j < i + 1 && vectors@.dom().contains(#[trigger] ids@[j]) && (self.loose(
                        ids@[j],
                    ) || nprobe >= self.centroids@.len()) implies exists|a: int|
                    0 <= a < after.len() && (#[trigger] after[a]).id == ids@[j] by {
                    if j < i {
                        let a = choose|a: int|
                            0 <= a < before.len() && (#[trigger] before[a]).id == ids@[j];
                        assert(after[a] == before[a]);
                    } else {
                        assert(after[before.len() as int].id == id);
                    }
                }
            }
            i += 1;
        }
        assert(ids@.take(ids.len() as int) =~= ids@);
        top_k(&scan, k)
    }
}

} // verus!
