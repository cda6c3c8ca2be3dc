//! The snapshot of an inverted-file index: its centroids. Which cluster an
//! id belongs to follows from them and is computed anew when they are
//! loaded.

use std::collections::HashMap;
use vstd::prelude::*;
use crate::host::Host;
use crate::index::ivf::config::IvfConfig;
use crate::index::ivf::lists::{nearest_centroid, IvfIndex};
use crate::quantization::{QuantizedVector, QuantizedVectorView};
use crate::storage::codec::{
    enc_vector, lemma_parse_vector, parse_vector, put_vector, take_vector,
};
use crate::storage::wire::{enc_u64, lemma_parse_u64, parse_u64, put_u64, take_u64};
use crate::DocId;

verus! {

broadcast use vstd::std_specs::hash::group_hash_axioms;

/// The views of a sequence of vectors.
pub open spec fn vector_views(s: Seq<QuantizedVector>) -> Seq<QuantizedVectorView> {
    Seq::new(s.len(), |i: int| s[i]@)
}

pub open spec fn enc_vectors(vs: Seq<QuantizedVectorView>) -> Seq<u8>
    decreases vs.len(),
{
    if vs.len() == 0 {
        Seq::<u8>::empty()
    } else {
        enc_vectors(vs.drop_last()) + enc_vector(vs.last())
    }
}

/// The snapshot of centroids: their number, then each of them in the
/// binary form that vectors have in documents.
pub open spec fn enc_centroids(vs: Seq<QuantizedVectorView>) -> Seq<u8> {
    enc_u64(vs.len() as u64) + enc_vectors(vs)
}

pub open spec fn parse_vectors(b: Seq<u8>, pos: int, n: nat) -> Option<
    (Seq<QuantizedVectorView>, int),
>
    decreases n,
{
    if n == 0 {
        Some((Seq::<QuantizedVectorView>::empty(), pos))
    } else {
        match parse_vectors(b, pos, (n - 1) as nat) {
            Some((vs, p)) => match parse_vector(b, p) {
                Some((v, q)) => Some((vs.push(v), q)),
                None => None,
            },
            None => None,
        }
    }
}

/// The centroids that `b` is the snapshot of.
pub open spec fn centroids_decoded(b: Seq<u8>) -> Option<Seq<QuantizedVectorView>> {
    match parse_u64(b, 0) {
        Some((n, p)) => match parse_vectors(b, p, n as nat) {
            Some((vs, end)) => if end == b.len() {
                Some(vs)
            } else {
                None
            },
            None => None,
        },
        None => None,
    }
}

/// Whether every vector is short enough for its length to be written.
pub open spec fn vectors_encodable(vs: Seq<QuantizedVectorView>) -> bool {
    forall|i: int| 0 <= i < vs.len() ==> (#[trigger] vs[i]).values.len() <= u64::MAX
}

proof fn lemma_parse_vectors(p: Seq<u8>, xs: Seq<QuantizedVectorView>, s: Seq<u8>)
    requires
        vectors_encodable(xs),
    ensures
        parse_vectors(p + enc_vectors(xs) + s, p.len() as int, xs.len()) == Some(
            (xs, p.len() as int + enc_vectors(xs).len()),
        ),
    decreases xs.len(),
{
    let b = p + enc_vectors(xs) + s;
    if xs.len() == 0 {
        assert(xs =~= Seq::<QuantizedVectorView>::empty());
    } else {
        let init = xs.drop_last();
        let last = xs.last();
        assert(vectors_encodable(init)) by {
            assert forall|i: int| 0 <= i < init.len() implies (#[trigger] init[i]).values.len()
                <= u64::MAX by {
                assert(init[i] == xs[i]);
            }
        }
        assert(last == xs[xs.len() - 1]);
        lemma_parse_vectors(p, init, enc_vector(last) + s);
        assert(b =~= p + enc_vectors(init) + (enc_vector(last) + s));
        lemma_parse_vector(p + enc_vectors(init), last, s);
        assert(b =~= (p + enc_vectors(init)) + enc_vector(last) + s);
        assert(init.push(last) =~= xs);
    }
}

/// The snapshot of centroids decodes to the centroids.
pub proof fn lemma_centroids_round_trip(vs: Seq<QuantizedVectorView>)
    requires
        vs.len() <= u64::MAX,
        vectors_encodable(vs),
    ensures
        centroids_decoded(enc_centroids(vs)) == Some(vs),
{
    let b = enc_centroids(vs);
    let none = Seq::<u8>::empty();
    let n = vs.len() as u64;
    lemma_parse_u64(none, n, enc_vectors(vs));
    assert(b =~= none + enc_u64(n) + enc_vectors(vs));
    lemma_parse_vectors(enc_u64(n), vs, none);
    assert(b =~= enc_u64(n) + enc_vectors(vs) + none);
}

proof fn lemma_parse_vectors_stuck(b: Seq<u8>, pos: int, k: nat, n: nat)
    requires
        k <= n,
        parse_vectors(b, pos, k) is None,
    ensures
        parse_vectors(b, pos, n) is None,
    decreases n,
{
    if k < n {
        lemma_parse_vectors_stuck(b, pos, k, (n - 1) as nat);
    }
}

impl IvfIndex {
    /// The snapshot of the index: its centroids.
    pub fn encode(&self) -> (r: Vec<u8>)
        ensures
            centroids_decoded(r@) == Some(vector_views(self.centroids@)),
    {
        let ghost vs = vector_views(self.centroids@);
        let mut buf: Vec<u8> = Vec::new();
        put_u64(&mut buf, self.centroids.len() as u64);
        let ghost head = buf@;
        let mut i: usize = 0;
        assert(vs.take(0) =~= Seq::<QuantizedVectorView>::empty());
        assert(buf@ =~= head + enc_vectors(vs.take(0)));
        while i < self.centroids.len()
            invariant
                i <= self.centroids.len(),
                vs == vector_views(self.centroids@),
                buf@ == head + enc_vectors(vs.take(i as int)),
                forall|j: int| 0 <= j < i ==> (#[trigger] vs[j]).values.len() <= u64::MAX,
            decreases self.centroids.len() - i,
        {
            let dim: usize = self.centroids[i].dim();
            put_vector(&mut buf, &self.centroids[i]);
            proof {
                let next = vs.take(i + 1);
                assert(next.drop_last() =~= vs.take(i as int));
                assert(next.last() == self.centroids@[i as int]@);
                assert(buf@ =~= head + enc_vectors(next));
            }
            i += 1;
        }
        proof {
            assert(vs.take(self.centroids.len() as int) =~= vs);
            assert(buf@ =~= enc_centroids(vs));
            lemma_centroids_round_trip(vs);
        }
        buf
    }

    /// The index that a snapshot holds, under the given configuration, or
    /// nothing where the bytes are not the snapshot of centroids. No id
    /// belongs to a cluster yet.
    pub fn decode(config: IvfConfig, b: &[u8]) -> (r: Option<IvfIndex>)
        ensures
            match r {
                Some(ivf) => ivf.config == config && centroids_decoded(b@) == Some(
                    vector_views(ivf.centroids@),
                ) && ivf.cluster_of@ == Map::<DocId, usize>::empty(),
                None => centroids_decoded(b@) is None,
            },
    {
        let (n, start) = match take_u64(b, 0) {
            Some(t) => t,
            None => { return None; },
        };
        let mut centroids: Vec<QuantizedVector> = Vec::new();
        let mut at: usize = start;
        let mut i: u64 = 0;
        assert(vector_views(centroids@) =~= Seq::<QuantizedVectorView>::empty());
        while i < n
            invariant
                i <= n,
                parse_u64(b@, 0) == Some((n, start as int)),
                parse_vectors(b@, start as int, i as nat) == Some(
                    (vector_views(centroids@), at as int),
                ),
            decreases n - i,
        {
            match take_vector(b, at) {
                Some((v, next)) => {
                    let ghost before = vector_views(centroids@);
                    let ghost vv = v@;
                    centroids.push(v);
                    assert(vector_views(centroids@) =~= before.push(vv));
                    at = next;
                },
                None => {
                    proof {
                        assert(parse_vectors(b@, start as int, (i + 1) as nat) is None);
                        lemma_parse_vectors_stuck(b@, start as int, (i + 1) as nat, n as nat);
                    }
                    return None;
                },
            }
            i += 1;
        }
        if at != b.len() {
            return None;
        }
        Some(IvfIndex { config, centroids, cluster_of: HashMap::new() })
    }

    /// Put every id of `ids` that has a vector into the cluster of its
    /// nearest centroid, and every other id into none.
    pub fn assign_all<H: Host>(
        &mut self,
        ids: &Vec<DocId>,
        vectors: &HashMap<DocId, QuantizedVector>,
        host: &H,
    )
        ensures
            final(self).config == old(self).config,
            final(self).centroids == old(self).centroids,
            final(self).assigns(ids@, vectors@.dom()),
    {
        self.cluster_of.clear();
        let mut i: usize = 0;
        assert(ids@.take(0) =~= Seq::<DocId>::empty());
        while i < ids.len()
            invariant
                i <= ids.len(),
                self.config == old(self).config,
                self.centroids == old(self).centroids,
                self.assigns(ids@.take(i as int), vectors@.dom()),
            decreases ids.len() - i,
        {
            let id = ids[i];
            proof {
                let seen = ids@.take(i as int);
                let next = ids@.take(i + 1);
                assert(next =~= seen.push(id));
                assert forall|x: DocId| next.contains(x) <==> seen.contains(x) || x == id by {
                    if next.contains(x) {
                        let k = choose|k: int| 0 <= k < next.len() && next[k] == x;
                        if k < i {
                            assert(seen[k] == x);
                        }
                    }
                    if seen.contains(x) {
                        let k = choose|k: int| 0 <= k < seen.len() && seen[k] == x;
                        assert(next[k] == x);
                    }
                    assert(next[i as int] == id);
                }
            }
            match vectors.get(&id) {
                Some(v) => {
                    match nearest_centroid(&self.config, &self.centroids, v, host) {
                        Some(c) => {
                            self.cluster_of.insert(id, c);
                        },
                        None => {},
                    }
                },
                None => {},
            }
            i += 1;
        }
        assert(ids@.take(ids.len() as int) =~= ids@);
    }

    /// Whether the clusters hold exactly those of `ids` that have a vector,
    /// each in a cluster of one of the centroids; without centroids they
    /// hold nothing.
    pub open spec fn assigns(&self, ids: Seq<DocId>, vectors: Set<DocId>) -> bool {
        &&& forall|id: DocId| #[trigger]
            self.cluster_of@.contains_key(id) <==> ids.contains(id) && vectors.contains(id)
                && self.centroids@.len() > 0
        &&& forall|id: DocId|
            self.cluster_of@.contains_key(id) ==> (#[trigger] self.cluster_of@[id])
                < self.centroids@.len()
    }
}

} // verus!
