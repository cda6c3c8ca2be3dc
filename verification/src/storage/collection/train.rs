//! Training the index of a collection.

use vstd::prelude::*;
use crate::host::Host;
use crate::index::ann::AnnIndex;
use crate::index::ivf::train::{known_ids, trained_clusters};
use crate::storage::collection::storage::Collection;
use crate::DocId;

verus! {

broadcast use vstd::std_specs::hash::group_hash_axioms;

impl Collection {
    /// Everything but the index is as in `other`.
    pub open spec fn same_but_index(&self, other: &Collection) -> bool {
        &&& self.store == other.store
        &&& self.vector_cache == other.vector_cache
        &&& self.metadata_cache == other.metadata_cache
        &&& self.config == other.config
        &&& self.metadata == other.metadata
        &&& self.path == other.path
        &&& self.persistence == other.persistence
        &&& self.sidecars == other.sidecars
        &&& self.read_only == other.read_only
    }
}

/// Train the inverted-file index of the collection on the cached vectors
/// of its documents, in the order of the table. A collection with another
/// kind of index does not change. The centroids reach the snapshot with
/// the next checkpoint.
pub fn train_index<H: Host>(collection: &mut Collection, host: &H)
    requires
        old(collection).wf(),
    ensures
        final(collection).wf(),
        final(collection).same_but_index(old(collection)),
        match (old(collection).vector_index, final(collection).vector_index) {
            (AnnIndex::Ivf(before), AnnIndex::Ivf(after)) => {
                let known = known_ids(
                    old(collection).store.index.order(),
                    old(collection).vector_cache@.dom(),
                ).len();
                &&& after.config == before.config
                &&& trained_clusters(before.config, known) == 0 ==> after == before
                &&& trained_clusters(before.config, known) > 0 ==> after.centroids@.len()
                    == trained_clusters(before.config, known) && after.assigns(
                    old(collection).store.index.order(),
                    old(collection).vector_cache@.dom(),
                )
            },
            (before, after) => after == before,
        },
{
    let ids = collection.store.index.ids();
    proof {
        collection.store.index.lemma_order();
    }
    let ghost before = collection.vector_index;
    match &mut collection.vector_index {
        AnnIndex::Ivf(ivf) => {
            ivf.train_kmeans(&ids, &collection.vector_cache, host);
        },
        _ => {},
    }
    proof {
        let after = collection.vector_index;
        if after is Ivf {
            let i = after->Ivf_0;
            let b = before->Ivf_0;
            assert forall|id: DocId| #[trigger]
                i.cluster_of@.contains_key(id) implies collection.live().dom().contains(id) by {
                if i == b {
                    assert(before.within(old(collection).live().dom()));
                } else {
                    assert(ids@.contains(id));
                }
            }
        }
    }
}

} // verus!
