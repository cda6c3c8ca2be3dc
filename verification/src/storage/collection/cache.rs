//! The caches of a collection: the vector and the metadata of every live
//! document, by id.

use vstd::prelude::*;
use crate::metadata::Metadata;
use crate::quantization::QuantizedVector;
use crate::storage::collection::storage::Collection;
use crate::DocId;

verus! {

broadcast use vstd::std_specs::hash::group_hash_axioms;

impl Collection {
    /// Whether the caches hold an entry for exactly the live documents.
    pub open spec fn cache_keys_match(&self) -> bool {
        &&& self.vector_cache@.dom() == self.live().dom()
        &&& self.metadata_cache@.dom() == self.live().dom()
    }

    /// Everything but the caches is as in `other`.
    pub open spec fn same_but_caches(&self, other: &Collection) -> bool {
        &&& self.store == other.store
        &&& self.vector_index == other.vector_index
        &&& self.config == other.config
        &&& self.metadata == other.metadata
        &&& self.path == other.path
        &&& self.persistence == other.persistence
        &&& self.sidecars == other.sidecars
        &&& self.read_only == other.read_only
    }
}

/// Fill the caches anew from the documents in the data region.
pub fn rebuild(collection: &mut Collection)
    requires
        old(collection).inner_wf(),
    ensures
        final(collection).caches_consistent(),
        final(collection).same_but_caches(old(collection)),
{
    collection.vector_cache.clear();
    collection.metadata_cache.clear();
    let ids = collection.store.index.ids();
    let mut i: usize = 0;
    assert(ids@.take(0).to_set() =~= Set::<DocId>::empty());
    while i < ids.len()
        invariant
            i <= ids.len(),
            collection.inner_wf(),
            collection.same_but_caches(old(collection)),
            forall|id: DocId| ids@.contains(id) <==> collection.live().contains_key(id),
            collection.vector_cache@.dom() == ids@.take(i as int).to_set(),
            collection.metadata_cache@.dom() == ids@.take(i as int).to_set(),
            forall|id: DocId|
                ids@.take(i as int).contains(id) ==> (#[trigger] collection.vector_cache@[id])@
                    == collection.live()[id].vector,
            forall|id: DocId|
                ids@.take(i as int).contains(id) ==> (#[trigger] collection.metadata_cache@[id])@
                    == collection.live()[id].metadata,
        decreases ids.len() - i,
    {
        let id = ids[i];
        let ghost seen = ids@.take(i as int);
        let ghost next = ids@.take(i + 1);
        proof {
            assert(next =~= seen.push(id));
            assert(next.to_set() =~= seen.to_set().insert(id)) by {
                assert forall|x: DocId| next.to_set().contains(x) <==> seen.to_set().insert(
                    id,
                ).contains(x) by {
                    if next.contains(x) {
                        let k = choose|k: int| 0 <= k < next.len() && next[k] == x;
                        if k < i {
                            assert(seen[k] == x);
                        }
                    }
                    if seen.contains(x) {
                        let k = choose|k: int| 0 <= k < seen.len() && seen[k] == x;
                        assert(next[k] == x);
                    }
                    if x == id {
                        assert(next[i as int] == x);
                    }
                }
            }
            assert(ids@.contains(id));
        }
        match collection.store.get(id) {
            Some(entry) => {
                collection.vector_cache.insert(id, entry.vector);
                collection.metadata_cache.insert(id, entry.metadata);
            },
            None => {},
        }
        proof {
            assert forall|x: DocId| next.contains(x) implies (#[trigger] collection.vector_cache@[x])@
                == collection.live()[x].vector by {
                if x != id {
                    let k = choose|k: int| 0 <= k < next.len() && next[k] == x;
                    assert(seen[k] == x);
                }
            }
            assert forall|x: DocId| next.contains(x) implies (
            #[trigger] collection.metadata_cache@[x])@ == collection.live()[x].metadata by {
                if x != id {
                    let k = choose|k: int| 0 <= k < next.len() && next[k] == x;
                    assert(seen[k] == x);
                }
            }
        }
        i += 1;
    }
    proof {
        assert(ids@.take(ids.len() as int) =~= ids@);
        assert(ids@.to_set() =~= collection.live().dom());
    }
}

/// Whether both caches hold every id of `ids`.
fn caches_hold(
    vectors: &std::collections::HashMap<DocId, QuantizedVector>,
    metadata: &std::collections::HashMap<DocId, Metadata>,
    ids: &Vec<DocId>,
) -> (r: bool)
    ensures
        r == forall|i: int|
            0 <= i < ids@.len() ==> vectors@.contains_key(#[trigger] ids@[i])
                && metadata@.contains_key(ids@[i]),
{
    let mut i: usize = 0;
    while i < ids.len()
        invariant
            i <= ids.len(),
            forall|j: int|
                0 <= j < i ==> vectors@.contains_key(#[trigger] ids@[j]) && metadata@.contains_key(
                    ids@[j],
                ),
        decreases ids.len() - i,
    {
        if !vectors.contains_key(&ids[i]) || !metadata.contains_key(&ids[i]) {
            return false;
        }
        i += 1;
    }
    true
}

/// Make sure that the caches hold an entry for exactly the live documents:
/// where they do, nothing changes; where they do not, they are rebuilt.
pub fn ensure_consistent(collection: &mut Collection)
    requires
        old(collection).inner_wf(),
    ensures
        final(collection).cache_keys_match(),
        final(collection).same_but_caches(old(collection)),
        old(collection).cache_keys_match() ==> *final(collection) == *old(collection),
        !old(collection).cache_keys_match() ==> final(collection).caches_consistent(),
{
    let count: usize = collection.store.len();
    proof {
        collection.store.lemma_live_finite();
    }
    if collection.vector_cache.len() != count || collection.metadata_cache.len() != count {
        rebuild(collection);
        return;
    }
    let ids = collection.store.index.ids();
    if !caches_hold(&collection.vector_cache, &collection.metadata_cache, &ids) {
        proof {
            let j = choose|j: int|
                0 <= j < ids@.len() && !(collection.vector_cache@.contains_key(#[trigger] ids@[j])
                    && collection.metadata_cache@.contains_key(ids@[j]));
            assert(ids@.contains(ids@[j]));
        }
        rebuild(collection);
        return;
    }
    proof {
        let live = collection.live().dom();
        assert forall|id: DocId| live.contains(id) implies collection.vector_cache@.dom().contains(
            id,
        ) && collection.metadata_cache@.dom().contains(id) by {
            assert(ids@.contains(id));
            let k = choose|k: int| 0 <= k < ids@.len() && ids@[k] == id;
            assert(collection.vector_cache@.contains_key(ids@[k]));
        }
        assert(live.subset_of(collection.vector_cache@.dom()));
        assert(live.subset_of(collection.metadata_cache@.dom()));
        vstd::set_lib::lemma_subset_equality(live, collection.vector_cache@.dom());
        vstd::set_lib::lemma_subset_equality(live, collection.metadata_cache@.dom());
    }
}

} // verus!
