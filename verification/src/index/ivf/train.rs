//! Training an inverted-file index: k-means over the vectors. The index
//! decides where the centroids start, how often they move, and that a
//! centroid without vectors stays; the host takes the means.

use std::collections::HashMap;
use vstd::prelude::*;
use crate::host::Host;
use crate::index::ivf::config::IvfConfig;
use crate::index::ivf::lists::{nearest_centroid, IvfIndex};
use crate::index::ivf::snapshot::vector_views;
use crate::quantization::{QuantizedVector, QuantizedVectorView};
use crate::DocId;

verus! {

broadcast use vstd::std_specs::hash::group_hash_axioms;

/// Those of `ids` that have a vector, in their order.
pub open spec fn known_ids(ids: Seq<DocId>, vectors: Set<DocId>) -> Seq<DocId>
    decreases ids.len(),
{
    if ids.len() == 0 {
        Seq::empty()
    } else if vectors.contains(ids.last()) {
        known_ids(ids.drop_last(), vectors).push(ids.last())
    } else {
        known_ids(ids.drop_last(), vectors)
    }
}

/// The number of centroids that training makes: as many as the
/// configuration asks for, and no more than there are vectors.
pub open spec fn trained_clusters(config: IvfConfig, known: nat) -> nat {
    if config.num_clusters < known {
        config.num_clusters as nat
    } else {
        known
    }
}

/// The vectors of those of `ids` that have one, in the order of the ids.
pub open spec fn known_views(ids: Seq<DocId>, vectors: Map<DocId, QuantizedVector>) -> Seq<
    QuantizedVectorView,
>
    decreases ids.len(),
{
    if ids.len() == 0 {
        Seq::empty()
    } else if vectors.contains_key(ids.last()) {
        known_views(ids.drop_last(), vectors).push(vectors[ids.last()]@)
    } else {
        known_views(ids.drop_last(), vectors)
    }
}

/// The vectors of those of `ids` that have one, in the order of the ids.
pub fn known_vectors(ids: &Vec<DocId>, vectors: &HashMap<DocId, QuantizedVector>) -> (known: Vec<
    QuantizedVector,
>)
    ensures
        vector_views(known@) == known_views(ids@, vectors@),
        known@.len() == known_ids(ids@, vectors@.dom()).len(),
{
    let mut known: Vec<QuantizedVector> = Vec::new();
    let mut i: usize = 0;
    assert(ids@.take(0) =~= Seq::<DocId>::empty());
    assert(vector_views(known@) =~= known_views(ids@.take(0), vectors@));
    while i < ids.len()
        invariant
            i <= ids.len(),
            vector_views(known@) == known_views(ids@.take(i as int), vectors@),
            known@.len() == known_ids(ids@.take(i as int), vectors@.dom()).len(),
        decreases ids.len() - i,
    {
        let ghost before = known@;
        proof {
            let next = ids@.take(i + 1);
            assert(next.drop_last() =~= ids@.take(i as int));
            assert(next.last() == ids@[i as int]);
        }
        match vectors.get(&ids[i]) {
            Some(v) => {
                known.push(v.duplicate());
                assert(vector_views(known@) =~= vector_views(before).push(v@));
            },
            None => {},
        }
        i += 1;
    }
    assert(ids@.take(ids.len() as int) =~= ids@);
    known
}

/// Whether the clusters hold places of members, one cluster for each
/// centroid, and every member in one of them where there is a centroid.
pub open spec fn groups(clusters: Seq<Vec<usize>>, centroids: nat, members: nat) -> bool {
    &&& clusters.len() == centroids
    &&& forall|c: int, m: int|
        0 <= c < clusters.len() && 0 <= m < clusters[c]@.len() ==> (#[trigger] clusters[c]@[m])
            < members
    &&& centroids > 0 ==> forall|j: int| 0 <= j < members ==> #[trigger] grouped(clusters, j)
}

/// Whether one of the clusters holds the member at place `j`.
pub open spec fn grouped(clusters: Seq<Vec<usize>>, j: int) -> bool {
    exists|c: int| 0 <= c < clusters.len() && (#[trigger] clusters[c])@.contains(j as usize)
}

/// Put every vector into the cluster of the centroid that the host finds
/// nearest to it.
fn group<H: Host>(
    config: &IvfConfig,
    centroids: &Vec<QuantizedVector>,
    known: &Vec<QuantizedVector>,
    host: &H,
) -> (clusters: Vec<Vec<usize>>)
    ensures
        groups(clusters@, centroids@.len(), known@.len()),
{
    let mut clusters: Vec<Vec<usize>> = Vec::new();
    let mut c: usize = 0;
    while c < centroids.len()
        invariant
            c <= centroids.len(),
            clusters@.len() == c,
            forall|a: int| 0 <= a < c ==> (#[trigger] clusters@[a])@.len() == 0,
        decreases centroids.len() - c,
    {
        clusters.push(Vec::new());
        c += 1;
    }
    let mut j: usize = 0;
    while j < known.len()
        invariant
            j <= known.len(),
            clusters@.len() == centroids@.len(),
            forall|a: int, m: int|
                0 <= a < clusters@.len() && 0 <= m < clusters@[a]@.len() ==> (
                #[trigger] clusters@[a]@[m]) < j,
            centroids@.len() > 0 ==> forall|i: int| 0 <= i < j ==> #[trigger] grouped(clusters@, i),
        decreases known.len() - j,
    {
        match nearest_centroid(config, centroids, &known[j], host) {
            Some(at) => {
                let ghost before = clusters@;
                let mut list = clusters[at].clone();
                list.push(j);
                clusters.set(at, list);
                proof {
                    assert(clusters@[at as int]@ == before[at as int]@.push(j));
                    assert forall|a: int, m: int|
                        0 <= a < clusters@.len() && 0 <= m < clusters@[a]@.len() implies (
                    #[trigger] clusters@[a]@[m]) < j + 1 by {
                        if a != at {
                            assert(clusters@[a] == before[a]);
                        } else if m < before[a]@.len() {
                            assert(clusters@[a]@[m] == before[a]@[m]);
                        }
                    }
                    assert forall|i: int| 0 <= i < j + 1 implies #[trigger] grouped(
                        clusters@,
                        i,
                    ) by {
                        if i < j {
                            assert(grouped(before, i));
                            let a = choose|a: int|
                                0 <= a < before.len() && (#[trigger] before[a])@.contains(i as usize);
                            let m = choose|m: int|
                                0 <= m < before[a]@.len() && before[a]@[m] == i as usize;
                            if a != at {
                                assert(clusters@[a] == before[a]);
                            } else {
                                assert(clusters@[a]@[m] == i as usize);
                            }
                            assert(clusters@[a]@.contains(i as usize));
                        } else {
                            assert(clusters@[at as int]@[before[at as int]@.len() as int] == j);
                            assert(clusters@[at as int]@.contains(i as usize));
                        }
                    }
                }
            },
            None => {},
        }
        j += 1;
    }
    clusters
}

/// Move each centroid to the mean of the vectors of its cluster, as the
/// host takes it. A centroid without vectors stays where it is.
fn move_centroids<H: Host>(
    centroids: &Vec<QuantizedVector>,
    clusters: &Vec<Vec<usize>>,
    known: &Vec<QuantizedVector>,
    host: &H,
) -> (moved: Vec<QuantizedVector>)
    requires
        groups(clusters@, centroids@.len(), known@.len()),
    ensures
        moved@.len() == centroids@.len(),
        forall|c: int|
            0 <= c < moved@.len() && clusters@[c]@.len() == 0 ==> (#[trigger] moved@[c])@
                == centroids@[c]@,
{
    let mut moved: Vec<QuantizedVector> = Vec::new();
    let mut c: usize = 0;
    while c < centroids.len()
        invariant
            c <= centroids.len(),
            moved@.len() == c,
            groups(clusters@, centroids@.len(), known@.len()),
            forall|a: int|
                0 <= a < c && clusters@[a]@.len() == 0 ==> (#[trigger] moved@[a])@ == centroids@[a]@,
        decreases centroids.len() - c,
    {
        let ghost before = moved@;
        if clusters[c].len() == 0 {
            moved.push(centroids[c].duplicate());
        } else {
            let mut members: Vec<QuantizedVector> = Vec::new();
            let mut m: usize = 0;
            while m < clusters[c].len()
                invariant
                    c < centroids.len(),
                    m <= clusters@[c as int]@.len(),
                    groups(clusters@, centroids@.len(), known@.len()),
                decreases clusters@[c as int]@.len() - m,
            {
                let at: usize = clusters[c][m];
                members.push(known[at].duplicate());
                m += 1;
            }
            moved.push(host.mean(&members));
        }
        proof {
            assert forall|a: int| 0 <= a < c + 1 && clusters@[a]@.len() == 0 implies (
            #[trigger] moved@[a])@ == centroids@[a]@ by {
                if a < c {
                    assert(moved@[a] == before[a]);
                }
            }
        }
        c += 1;
    }
    moved
}

impl IvfIndex {
    /// Train the index on the vectors of `ids`. The centroids start at the
    /// first vectors, as many as the configuration asks for and there are
    /// vectors; then, as often as the configuration says, every vector goes
    /// to the cluster of its nearest centroid and each centroid moves to
    /// the mean of its cluster; at last every id that has a vector is put
    /// into the cluster of its nearest centroid. Without a vector, or
    /// where no cluster is asked for, nothing changes.
    pub fn train_kmeans<H: Host>(
        &mut self,
        ids: &Vec<DocId>,
        vectors: &HashMap<DocId, QuantizedVector>,
        host: &H,
    )
        ensures
            final(self).config == old(self).config,
            trained_clusters(old(self).config, known_ids(ids@, vectors@.dom()).len()) == 0
                ==> *final(self) == *old(self),
            trained_clusters(old(self).config, known_ids(ids@, vectors@.dom()).len()) > 0 ==> {
                &&& final(self).centroids@.len() == trained_clusters(
                    old(self).config,
                    known_ids(ids@, vectors@.dom()).len(),
                )
                &&& final(self).assigns(ids@, vectors@.dom())
                &&& old(self).config.max_iterations == 0 ==> forall|c: int|
                    0 <= c < final(self).centroids@.len() ==> (#[trigger] final(self).centroids@[c])@
                        == known_views(ids@, vectors@)[c]
            },
    {
        let known = known_vectors(ids, vectors);
        let k: usize = if self.config.num_clusters < known.len() {
            self.config.num_clusters
        } else {
            known.len()
        };
        if k == 0 {
            return;
        }
        let mut centroids: Vec<QuantizedVector> = Vec::new();
        let mut c: usize = 0;
        while c < k
            invariant
                c <= k,
                k <= known@.len(),
                centroids@.len() == c,
                forall|a: int| 0 <= a < c ==> (#[trigger] centroids@[a])@ == known@[a]@,
            decreases k - c,
        {
            let ghost before = centroids@;
            centroids.push(known[c].duplicate());
            proof {
                assert forall|a: int| 0 <= a < c + 1 implies (#[trigger] centroids@[a])@
                    == known@[a]@ by {
                    if a < c {
                        assert(centroids@[a] == before[a]);
                    }
                }
            }
            c += 1;
        }
        let mut round: usize = 0;
        while round < self.config.max_iterations
            invariant
                round <= self.config.max_iterations,
                *self == *old(self),
                centroids@.len() == k,
                k <= known@.len(),
                round == 0 ==> forall|a: int|
                    0 <= a < k ==> (#[trigger] centroids@[a])@ == known@[a]@,
            decreases self.config.max_iterations - round,
        {
            let clusters = group(&self.config, &centroids, &known, host);
            centroids = move_centroids(&centroids, &clusters, &known, host);
            round += 1;
        }
        proof {
            if self.config.max_iterations == 0 {
                assert forall|a: int| 0 <= a < k implies (#[trigger] centroids@[a])@
                    == known_views(ids@, vectors@)[a] by {
                    assert(centroids@[a]@ == known@[a]@);
                    assert(vector_views(known@)[a] == known@[a]@);
                }
            }
        }
        self.train(centroids, ids, vectors, host);
    }
}

} // verus!
