//! The state of a collection and what always holds of it.

use std::collections::HashMap;
use vstd::prelude::*;
use crate::config::collection::CollectionConfig;
use crate::error::PiramidError;
use crate::index::ann::AnnIndex;
use crate::metadata::Metadata;
use crate::quantization::QuantizedVector;
use crate::storage::collection::persistence::PersistenceService;
use crate::storage::document::DocumentView;
use crate::storage::persistence::index::table_decoded;
use crate::storage::persistence::metadata::{
    parse_collection_metadata, CollectionMetadata, SCHEMA_VERSION,
};
use crate::storage::recovery::agrees;
use crate::storage::store::DocumentStore;
use crate::storage::wal::entry::WalEntryView;
use crate::storage::wal::log::seqs_below;
use crate::DocId;

verus! {

broadcast use vstd::std_specs::hash::group_hash_axioms;

/// How a collection is to be opened.
#[derive(Debug, Clone, Copy, PartialEq, Eq, Structural)]
pub struct CollectionOpenOptions {
    pub config: CollectionConfig,
}

/// The images of the files that a collection keeps beside its data file.
#[derive(Debug)]
pub struct Sidecars {
    /// The snapshot of the entry-pointer table.
    pub index_db: Vec<u8>,
    /// The snapshot of the index, for the kinds that have one.
    pub ann_db: Option<Vec<u8>>,
    /// The snapshot of the collection's metadata.
    pub metadata_db: Vec<u8>,
    /// The sequence number of the last checkpoint (0: none yet).
    pub wal_meta: u64,
}

/// One collection.
#[derive(Debug)]
pub struct Collection {
    /// The data region with the entry-pointer table.
    pub store: DocumentStore,
    /// The nearest-neighbour index.
    pub vector_index: AnnIndex,
    /// The vector of every live document.
    pub vector_cache: HashMap<DocId, QuantizedVector>,
    /// The metadata of every live document.
    pub metadata_cache: HashMap<DocId, Metadata>,
    /// How the collection is configured.
    pub config: CollectionConfig,
    /// What the collection records about itself.
    pub metadata: CollectionMetadata,
    /// The path of the data file.
    pub path: String,
    /// The log and the checkpoint bookkeeping.
    pub persistence: PersistenceService,
    /// The images of the sidecar files.
    pub sidecars: Sidecars,
    /// Whether writes are rejected.
    pub read_only: bool,
}

/// Whether every live vector has the collection's dimension, where one is
/// set.
pub open spec fn dims_hold(dim: Option<usize>, live: Map<DocId, DocumentView>) -> bool {
    match dim {
        Some(d) => forall|id: DocId|
            live.contains_key(id) ==> (#[trigger] live[id]).vector.values.len() == d,
        None => live == Map::<DocId, DocumentView>::empty(),
    }
}

impl Collection {
    /// The live documents.
    pub open spec fn live(&self) -> Map<DocId, DocumentView> {
        self.store.live()
    }

    /// The sequence number of the next log record.
    pub open spec fn next_seq(&self) -> u64 {
        self.persistence.wal.next_seq
    }

    /// The records that a replay after the last checkpoint gives.
    pub open spec fn pending(&self) -> Result<Seq<WalEntryView>, PiramidError> {
        self.persistence.wal@.replay(self.sidecars.wal_meta)
    }

    /// What holds of the documents in memory: every id of the table has its
    /// document in the region, the count is the number of ids, and every
    /// vector has the collection's dimension, and the index answers for no
    /// id but those of the live documents. The dimension is unset only as
    /// long as the collection never held a document.
    pub open spec fn inner_wf(&self) -> bool {
        &&& self.store.wf()
        &&& self.vector_index.wf()
        &&& self.metadata.vector_count == self.live().dom().len()
        &&& self.metadata.schema_version == SCHEMA_VERSION
        &&& dims_hold(self.metadata.dimensions, self.live())
        &&& self.vector_index.within(self.live().dom())
    }

    /// Whether the metadata's snapshot can be read back and claims no other
    /// dimension than the collection has.
    pub open spec fn metadata_snapshot_fits(&self) -> bool {
        &&& parse_collection_metadata(self.sidecars.metadata_db@) is Some
        &&& parse_collection_metadata(self.sidecars.metadata_db@)->0.schema_version
            == SCHEMA_VERSION
        &&& parse_collection_metadata(self.sidecars.metadata_db@)->0.dimensions is Some
            ==> parse_collection_metadata(self.sidecars.metadata_db@)->0.dimensions
            == self.metadata.dimensions
    }

    /// What holds of a collection between operations: besides `inner_wf`,
    /// the snapshots can be read back, log sequence numbers grow (every
    /// record of the log lies below the number of the next one), and
    /// the live documents are what the records logged since the last
    /// checkpoint would make of them.
    pub open spec fn wf(&self) -> bool {
        &&& self.inner_wf()
        &&& table_decoded(self.sidecars.index_db@) == Some(self.store.index@)
        &&& self.metadata_snapshot_fits()
        &&& self.persistence.wal.enabled == self.config.wal.enabled
        &&& self.sidecars.wal_meta < self.persistence.wal.next_seq
        &&& seqs_below(self.persistence.wal@.lines, self.persistence.wal.next_seq as int)
        &&& self.pending() is Ok
        &&& agrees(self.pending()->Ok_0, self.live())
    }

    /// Whether the caches hold exactly the vectors and the metadata of the
    /// live documents.
    pub open spec fn caches_consistent(&self) -> bool {
        &&& self.vector_cache@.dom() == self.live().dom()
        &&& self.metadata_cache@.dom() == self.live().dom()
        &&& forall|id: DocId|
            self.live().contains_key(id) ==> (#[trigger] self.vector_cache@[id])@
                == self.live()[id].vector
        &&& forall|id: DocId|
            self.live().contains_key(id) ==> (#[trigger] self.metadata_cache@[id])@
                == self.live()[id].metadata
    }

    /// Number of live documents.
    pub fn count(&self) -> (r: usize)
        requires
            self.inner_wf(),
        ensures
            r == self.live().dom().len(),
    {
        self.store.len()
    }

    /// How the collection is configured.
    pub fn config(&self) -> (r: &CollectionConfig)
        ensures
            *r == self.config,
    {
        &self.config
    }

    /// The index.
    pub fn vector_index(&self) -> (r: &AnnIndex)
        ensures
            *r == self.vector_index,
    {
        &self.vector_index
    }

    /// The cached vectors, by id.
    pub fn vectors_view(&self) -> (r: &HashMap<DocId, QuantizedVector>)
        ensures
            *r == self.vector_cache,
    {
        &self.vector_cache
    }

    /// The cached metadata, by id.
    pub fn metadata_view(&self) -> (r: &HashMap<DocId, Metadata>)
        ensures
            *r == self.metadata_cache,
    {
        &self.metadata_cache
    }

    /// The bytes that the cached vectors of `count` documents of `dim`
    /// components take, roughly: one byte for each component and eight for
    /// the two bounds, and never more than the machine can count.
    pub open spec fn cache_bytes(count: int, dim: int) -> int {
        if count * (dim + 8) > usize::MAX {
            usize::MAX as int
        } else {
            count * (dim + 8)
        }
    }

    /// The bytes that the cached vectors take, roughly.
    pub fn cache_usage_bytes(&self) -> (r: usize)
        ensures
            r == Self::cache_bytes(
                self.vector_cache@.dom().len() as int,
                match self.metadata.dimensions {
                    Some(d) => d as int,
                    None => 0,
                },
            ),
    {
        let dim: usize = match self.metadata.dimensions {
            Some(d) => d,
            None => 0,
        };
        let count: usize = self.vector_cache.len();
        if dim > usize::MAX - 8 {
            if count == 0 {
                assert(count * (dim + 8) == 0) by (nonlinear_arith)
                    requires
                        count == 0,
                ;
                return 0;
            }
            assert(count * (dim + 8) > usize::MAX) by (nonlinear_arith)
                requires
                    count >= 1,
                    dim + 8 > usize::MAX,
            ;
            return usize::MAX;
        }
        match count.checked_mul(dim + 8) {
            Some(b) => b,
            None => usize::MAX,
        }
    }

    /// Empty both caches.
    pub fn clear_caches(&mut self)
        ensures
            final(self).vector_cache@ == Map::<DocId, QuantizedVector>::empty(),
            final(self).metadata_cache@ == Map::<DocId, Metadata>::empty(),
            final(self).store == old(self).store,
            final(self).vector_index == old(self).vector_index,
            final(self).config == old(self).config,
            final(self).metadata == old(self).metadata,
            final(self).persistence == old(self).persistence,
            final(self).sidecars == old(self).sidecars,
            final(self).read_only == old(self).read_only,
    {
        self.vector_cache.clear();
        self.metadata_cache.clear();
    }

    /// Reject writes from now on, or accept them again.
    pub fn set_read_only(&mut self, read_only: bool)
        ensures
            final(self).read_only == read_only,
            final(self).store == old(self).store,
            final(self).vector_index == old(self).vector_index,
            final(self).vector_cache == old(self).vector_cache,
            final(self).metadata_cache == old(self).metadata_cache,
            final(self).config == old(self).config,
            final(self).metadata == old(self).metadata,
            final(self).persistence == old(self).persistence,
            final(self).sidecars == old(self).sidecars,
    {
        self.read_only = read_only;
    }
}

} // verus!
