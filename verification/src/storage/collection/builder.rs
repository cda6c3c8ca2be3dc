//! Opening a collection: from the images of its files to a collection that
//! holds what the files say.

use std::collections::HashMap;
use vstd::prelude::*;
use crate::error::{Corruption, PiramidError};
use crate::host::Host;
use crate::index::ann::{configured_as, AnnIndex};
use crate::storage::collection::cache::rebuild;
use crate::storage::collection::operations::{delete_internal, insert_internal};
use crate::storage::collection::shelf::{carried_fit, carried_len, Shelf};
use crate::index::hnsw::snapshot::graph_decoded;
use crate::index::ivf::snapshot::{centroids_decoded, vector_views};
use crate::index::selector::IndexConfig;
use crate::storage::history::Disk;
use crate::storage::persistence::vector_index::load_vector_index;
use crate::storage::collection::persistence::{
    checkpoint, load_wal_meta, save_index, save_metadata, save_vector_index, PersistenceService,
};
use crate::storage::collection::storage::{
    dims_hold, Collection, CollectionOpenOptions, Sidecars,
};
use crate::storage::document::{Document, DocumentView};
use crate::storage::persistence::index::{
    high_water, load_index, loaded_table, non_overlapping, EntryPointer, PointerTable,
};
use crate::storage::persistence::metadata::{
    load_metadata, loaded_metadata, CollectionMetadata, CollectionMetadataView,
};
use crate::storage::persistence::mmap::ensure_file_size;
use crate::storage::recovery::{
    agrees, apply, apply_all, lemma_agrees_empty, lemma_agrees_extend,
};
use crate::storage::store::{holds, window, DocumentStore};
use crate::storage::codec::decoded;
use crate::storage::wal::entry::{wal_views, WalEntry, WalEntryView};
use crate::storage::wal::log::{
    greatest, greatest_seq, lemma_greatest_bounds, lemma_pending_below, lemma_replayed_below,
    line_views, record_lines, replayed, seqs_below, Wal, WalLine, WalLineView, WAL_VERSION,
};
use crate::DocId;

verus! {

broadcast use vstd::std_specs::hash::group_hash_axioms;

/// The images of the files of a collection, as the host has read them.
#[derive(Debug)]
pub struct DurableImage {
    /// The data file.
    pub data: Vec<u8>,
    /// The snapshot of the entry-pointer table (`None`: no such file).
    pub index_db: Option<Vec<u8>>,
    /// The snapshot of the index (`None`: no such file).
    pub ann_db: Option<Vec<u8>>,
    /// The snapshot of the collection's metadata (`None`: no such file).
    pub metadata_db: Option<Vec<u8>>,
    /// The lines of the log file (empty: no such file).
    pub wal: Vec<WalLine>,
    /// The recorded sequence number of the last checkpoint (`None`: no such
    /// file).
    pub wal_meta: Option<u64>,
}

/// What a `DurableImage` holds.
pub struct DurableImageView {
    pub data: Seq<u8>,
    pub index_db: Option<Seq<u8>>,
    pub ann_db: Option<Seq<u8>>,
    pub metadata_db: Option<Seq<u8>>,
    pub wal: Seq<WalLineView>,
    pub wal_meta: Option<u64>,
}

impl View for DurableImage {
    type V = DurableImageView;

    open spec fn view(&self) -> DurableImageView {
        DurableImageView {
            data: self.data@,
            index_db: match self.index_db {
                Some(b) => Some(b@),
                None => None,
            },
            ann_db: match self.ann_db {
                Some(b) => Some(b@),
                None => None,
            },
            metadata_db: match self.metadata_db {
                Some(b) => Some(b@),
                None => None,
            },
            wal: line_views(self.wal@),
            wal_meta: self.wal_meta,
        }
    }
}

/// The documents that a table points at in a region.
pub open spec fn stored_live(table: Map<DocId, EntryPointer>, region: Seq<u8>) -> Map<
    DocId,
    DocumentView,
> {
    Map::new(
        |id: DocId| table.contains_key(id),
        |id: DocId| decoded(window(region, table[id]))->0,
    )
}

/// Whether every pointer of the table has a document of its id in the
/// region.
pub open spec fn table_holds(table: Map<DocId, EntryPointer>, region: Seq<u8>) -> bool {
    forall|id: DocId| table.contains_key(id) ==> holds(region, id, #[trigger] table[id])
}

/// Whether all the documents have vectors of one length, and of the length
/// `dim` where one is given.
pub open spec fn one_dimension(dim: Option<usize>, live: Map<DocId, DocumentView>) -> bool {
    exists|d: usize| #[trigger] all_have(live, d) && (dim is Some ==> dim->0 == d)
}

/// The dimension that documents are held to: the recorded one, else that
/// of the documents there are, else none.
pub open spec fn dimension_of(dim: Option<usize>, live: Map<DocId, DocumentView>) -> Option<usize> {
    if dim is Some {
        dim
    } else if live == Map::<DocId, DocumentView>::empty() {
        None
    } else {
        Some(live[choose|id: DocId| live.contains_key(id)].vector.values.len() as usize)
    }
}

/// Whether every vector has `d` components.
pub open spec fn all_have(live: Map<DocId, DocumentView>, d: usize) -> bool {
    forall|id: DocId| live.contains_key(id) ==> (#[trigger] live[id]).vector.values.len() == d
}

impl DurableImageView {
    /// The sequence number from which the log is replayed.
    pub open spec fn min_seq(self, wal_enabled: bool) -> u64 {
        if wal_enabled {
            match self.wal_meta {
                Some(seq) => seq,
                None => 0,
            }
        } else {
            0
        }
    }

    /// The lines of the log as a collection opens them: an empty log gets
    /// its header.
    pub open spec fn log_lines(self) -> Seq<WalLineView> {
        if self.wal.len() == 0 {
            seq![WalLineView::Header { version: WAL_VERSION }]
        } else {
            self.wal
        }
    }

    /// The records that are replayed when the collection is opened.
    pub open spec fn pending(self, wal_enabled: bool) -> Result<Seq<WalEntryView>, PiramidError> {
        if wal_enabled {
            replayed(self.log_lines(), self.min_seq(wal_enabled))
        } else {
            Ok(Seq::<WalEntryView>::empty())
        }
    }

    /// The greatest sequence number in use: that of the last checkpoint,
    /// or a greater one of a pending record.
    pub open spec fn top_seq(self, wal_enabled: bool) -> u64 {
        greatest_seq(self.pending(wal_enabled)->Ok_0, self.min_seq(wal_enabled))
    }

    /// The table that the collection is opened with.
    pub open spec fn table(self, initial_size: u64) -> Result<
        Map<DocId, EntryPointer>,
        PiramidError,
    > {
        loaded_table(self.index_db, self.data.len() as int, initial_size as int)
    }

    /// Why the files cannot be opened as a collection, if they cannot. In
    /// this order: the initial size is more than the machine addresses; the
    /// table's snapshot is unusable although the region holds documents; a
    /// pointer has no document of its id in the region, or the vectors have
    /// different lengths; the metadata's snapshot is unusable; the sequence
    /// numbers are used up by the last checkpoint; the log does not replay;
    /// the sequence numbers are used up by a pending record.
    pub open spec fn unusable(self, wal_enabled: bool, initial_size: u64) -> Option<PiramidError> {
        if initial_size > usize::MAX {
            Some(PiramidError::Io)
        } else if self.table(initial_size) is Err {
            Some(self.table(initial_size)->Err_0)
        } else if loaded_metadata(self.metadata_db) is Err {
            Some(loaded_metadata(self.metadata_db)->Err_0)
        } else if !table_holds(self.table(initial_size)->Ok_0, self.data) || !one_dimension(
            match loaded_metadata(self.metadata_db)->Ok_0 {
                Some(m) => m.dimensions,
                None => None,
            },
            stored_live(self.table(initial_size)->Ok_0, self.data),
        ) {
            Some(PiramidError::CorruptedData(Corruption::Document))
        } else if self.min_seq(wal_enabled) >= u64::MAX - 1 {
            Some(PiramidError::Io)
        } else if self.pending(wal_enabled) is Err {
            Some(self.pending(wal_enabled)->Err_0)
        } else if self.top_seq(wal_enabled) >= u64::MAX - 1 {
            Some(PiramidError::Io)
        } else {
            None
        }
    }

    /// The store that the pending records are replayed into: the table of
    /// the files, the region at no less than its initial size, and the
    /// dimension of the documents.
    pub open spec fn shelf(self, initial_size: u64) -> Shelf {
        Shelf {
            table: self.table(initial_size)->Ok_0,
            region: if self.data.len() < initial_size {
                initial_size as int
            } else {
                self.data.len() as int
            },
            dims: dimension_of(
                match loaded_metadata(self.metadata_db)->Ok_0 {
                    Some(m) => m.dimensions,
                    None => None,
                },
                stored_live(self.table(initial_size)->Ok_0, self.data),
            ),
        }
    }

    /// Why the files do not open as a collection, if they do not: they are
    /// unusable, or the store refuses the document of a pending record.
    pub open spec fn refusal(self, wal_enabled: bool, initial_size: u64) -> Option<PiramidError> {
        match self.unusable(wal_enabled, initial_size) {
            Some(e) => Some(e),
            None => match self.shelf(initial_size).replay(self.pending(wal_enabled)->Ok_0) {
                Err(e) => Some(e),
                Ok(_) => None,
            },
        }
    }

    /// The live documents of the collection that these files open as: what
    /// the table points at, with the pending records of the log applied.
    pub open spec fn recovered_live(self, wal_enabled: bool, initial_size: u64) -> Map<
        DocId,
        DocumentView,
    > {
        apply_all(
            stored_live(self.table(initial_size)->Ok_0, self.data),
            self.pending(wal_enabled)->Ok_0,
        )
    }
}

impl WalEntry {
    /// The document that the record carries, if it carries one.
    pub fn document(&self) -> (r: Option<Document>)
        ensures
            match r {
                Some(d) => match self@ {
                    WalEntryView::Insert { doc, .. } => d@ == doc,
                    WalEntryView::Update { doc, .. } => d@ == doc,
                    _ => false,
                },
                None => self@ is Delete || self@ is Checkpoint,
            },
    {
        match self {
            WalEntry::Insert { id, vector, text, metadata, .. } => {
                let t = text.clone();
                assert(t@ =~= text@);
                Some(
                    Document {
                        id: *id,
                        vector: vector.duplicate(),
                        text: t,
                        metadata: metadata.duplicate(),
                    },
                )
            },
            WalEntry::Update { id, vector, text, metadata, .. } => {
                let t = text.clone();
                assert(t@ =~= text@);
                Some(
                    Document {
                        id: *id,
                        vector: vector.duplicate(),
                        text: t,
                        metadata: metadata.duplicate(),
                    },
                )
            },
            _ => None,
        }
    }
}

/// Marker for the functions that open collections.
pub struct CollectionBuilder;

/// Check that every pointer of the store has a document of its id in the
/// region and that all vectors have one length, that of `dim` where it is
/// given. Returns that length (`None`: there is no document).
fn validate_store(store: &DocumentStore, dim: Option<usize>) -> (r: Option<Option<usize>>)
    requires
        store.index.wf(),
    ensures
        match r {
            Some(found) => {
                &&& store.wf()
                &&& dims_hold(found, store.live())
                &&& found == dimension_of(dim, store.live())
                &&& one_dimension(dim, store.live())
            },
            None => !table_holds(store.index@, store.region@) || !one_dimension(
                dim,
                stored_live(store.index@, store.region@),
            ),
        },
{
    let ids = store.index.ids();
    let mut found: Option<usize> = dim;
    let mut i: usize = 0;
    while i < ids.len()
        invariant
            i <= ids.len(),
            store.index.wf(),
            forall|id: DocId| ids@.contains(id) <==> store.index@.contains_key(id),
            dim is Some ==> found == dim,
            found is None ==> i == 0,
            dim is None && found is Some ==> i > 0,
            forall|j: int|
                0 <= j < i ==> holds(store.region@, #[trigger] ids@[j], store.index@[ids@[j]])
                    && found is Some && decoded(
                    window(store.region@, store.index@[ids@[j]]),
                )->0.vector.values.len() == found->0,
        decreases ids.len() - i,
    {
        let id = ids[i];
        assert(ids@.contains(id));
        let p = match store.index.get(id) {
            Some(p) => p,
            None => { return None; },
        };
        let doc = match store.read(&p) {
            Ok(d) => d,
            Err(_) => {
                assert(!holds(store.region@, id, store.index@[id]));
                return None;
            },
        };
        if doc.id != id {
            assert(!holds(store.region@, id, store.index@[id]));
            return None;
        }
        let len: usize = doc.vector.dim();
        match found {
            Some(d) => {
                if d != len {
                    proof {
                        let live = stored_live(store.index@, store.region@);
                        if table_holds(store.index@, store.region@) && one_dimension(dim, live) {
                            let w = choose|w: usize|
                                #[trigger] all_have(live, w) && (dim is Some ==> dim->0 == w);
                            assert(live.contains_key(id));
                            assert(live[id].vector.values.len() == w);
                            if i > 0 {
                                assert(ids@.contains(ids@[0]));
                                assert(live.contains_key(ids@[0]));
                                assert(live[ids@[0]].vector.values.len() == w);
                            }
                        }
                    }
                    return None;
                }
            },
            None => {
                found = Some(len);
            },
        }
        i += 1;
    }
    proof {
        assert forall|id: DocId| store.index@.contains_key(id) implies holds(
            store.region@,
            id,
            #[trigger] store.index@[id],
        ) by {
            assert(ids@.contains(id));
            let k = choose|k: int| 0 <= k < ids@.len() && ids@[k] == id;
            assert(holds(store.region@, ids@[k], store.index@[ids@[k]]));
        }
        let live = store.live();
        assert forall|id: DocId| live.contains_key(id) implies found is Some && (
        #[trigger] live[id]).vector.values.len() == found->0 by {
            assert(ids@.contains(id));
            let k = choose|k: int| 0 <= k < ids@.len() && ids@[k] == id;
            assert(holds(store.region@, ids@[k], store.index@[ids@[k]]));
        }
        if found is None {
            assert forall|id: DocId| !live.contains_key(id) by {
                if store.index@.contains_key(id) {
                    assert(ids@.contains(id));
                }
            }
            assert(live =~= Map::<DocId, DocumentView>::empty());
        }
        let d: usize = if found is Some { found->0 } else { 0 };
        assert(all_have(live, d) && (dim is Some ==> dim->0 == d));
        if dim is None {
            if live == Map::<DocId, DocumentView>::empty() {
                if ids@.len() > 0 {
                    assert(ids@.contains(ids@[0]));
                    assert(store.index@.contains_key(ids@[0]));
                    assert(live.contains_key(ids@[0]));
                }
            } else {
                assert(exists|id: DocId| live.contains_key(id)) by {
                    if forall|id: DocId| !live.contains_key(id) {
                        assert(live =~= Map::<DocId, DocumentView>::empty());
                    }
                }
                let id = choose|id: DocId| live.contains_key(id);
                assert(found is Some && live[id].vector.values.len() == found->0);
            }
        }
    }
    Some(found)
}

/// Apply the records of the log to the documents in memory, in order,
/// without logging anything. Fails where a document cannot be taken in;
/// the records before it stay applied.
pub fn replay_wal<H: Host>(storage: &mut Collection, entries: &Vec<WalEntry>, host: &H) -> (r:
    Result<(), PiramidError>)
    requires
        old(storage).inner_wf(),
    ensures
        final(storage).inner_wf(),
        final(storage).config == old(storage).config,
        final(storage).persistence == old(storage).persistence,
        final(storage).sidecars == old(storage).sidecars,
        final(storage).read_only == old(storage).read_only,
        final(storage).metadata.name == old(storage).metadata.name,
        final(storage).metadata.schema_version == old(storage).metadata.schema_version,
        final(storage).store.region@.len() >= old(storage).store.region@.len(),
        old(storage).caches_consistent() ==> final(storage).caches_consistent(),
        non_overlapping(old(storage).store.index@) ==> non_overlapping(final(storage).store.index@),
        match r {
            Ok(_) => {
                &&& final(storage).live() == apply_all(old(storage).live(), wal_views(entries@))
                &&& old(storage).shelf().replay(wal_views(entries@)) == Ok::<Shelf, PiramidError>(
                    final(storage).shelf(),
                )
            },
            Err(e) => old(storage).shelf().replay(wal_views(entries@)) == Err::<
                Shelf,
                PiramidError,
            >(e),
        },
        entries@.len() == 0 ==> *final(storage) == *old(storage),
        configured_as(old(storage).vector_index, final(storage).vector_index),
{
    let ghost records = wal_views(entries@);
    let ghost start = old(storage).shelf();
    let mut i: usize = 0;
    assert(records.take(0) =~= Seq::<WalEntryView>::empty());
    while i < entries.len()
        invariant
            i <= entries.len(),
            records == wal_views(entries@),
            start == old(storage).shelf(),
            storage.inner_wf(),
            storage.live() == apply_all(old(storage).live(), records.take(i as int)),
            start.replay(records.take(i as int)) == Ok::<Shelf, PiramidError>(storage.shelf()),
            i == 0 ==> *storage == *old(storage),
            configured_as(old(storage).vector_index, storage.vector_index),
            storage.config == old(storage).config,
            storage.persistence == old(storage).persistence,
            storage.sidecars == old(storage).sidecars,
            storage.read_only == old(storage).read_only,
            storage.metadata.name == old(storage).metadata.name,
            storage.metadata.schema_version == old(storage).metadata.schema_version,
            storage.store.region@.len() >= old(storage).store.region@.len(),
            old(storage).caches_consistent() ==> storage.caches_consistent(),
            non_overlapping(old(storage).store.index@) ==> non_overlapping(storage.store.index@),
        decreases entries.len() - i,
    {
        proof {
            let next = records.take(i + 1);
            assert(next.drop_last() =~= records.take(i as int));
            assert(next.last() == entries@[i as int]@);
        }
        let ghost live = storage.live();
        match &entries[i] {
            WalEntry::Delete { id, .. } => {
                delete_internal(storage, *id);
            },
            WalEntry::Checkpoint { .. } => {},
            WalEntry::Insert { .. } => {
                let doc = entries[i].document();
                match doc {
                    Some(d) => {
                        match insert_internal(storage, d, host) {
                            Ok(_) => {},
                            Err(e) => {
                                proof {
                                    start.lemma_replay_fails(records, i + 1);
                                }
                                return Err(e);
                            },
                        }
                    },
                    None => {},
                }
            },
            WalEntry::Update { id, .. } => {
                let doc = entries[i].document();
                match doc {
                    Some(d) => {
                        delete_internal(storage, *id);
                        match insert_internal(storage, d, host) {
                            Ok(_) => {},
                            Err(e) => {
                                proof {
                                    start.lemma_replay_fails(records, i + 1);
                                }
                                return Err(e);
                            },
                        }
                        assert(storage.live() =~= apply(live, entries@[i as int]@));
                    },
                    None => {},
                }
            },
        }
        i += 1;
    }
    assert(records.take(entries.len() as int) =~= records);
    Ok(())
}

/// Whether `index` is a new index that took in those of `ids` that have a
/// vector: a graph holds exactly these as live nodes and has no tombstone;
/// an inverted-file index has no centroids yet and holds no id in a
/// cluster.
pub open spec fn indexes_anew(index: AnnIndex, ids: Seq<DocId>, vectors: Set<DocId>) -> bool {
    match index {
        AnnIndex::Flat(_) => true,
        AnnIndex::Hnsw(h) => {
            &&& forall|id: DocId| #[trigger] h.has_live(id) <==> ids.contains(id) && vectors.contains(id)
            &&& forall|s: int| 0 <= s < h.nodes@.len() ==> !(#[trigger] h.nodes@[s]).deleted
            &&& h.nodes@.len() <= ids.len()
        },
        AnnIndex::Ivf(i) => i.centroids@.len() == 0 && i.cluster_of@ == Map::<DocId, usize>::empty(),
    }
}

/// Build the index anew from the cached vectors of the live documents: an
/// index as the configuration makes it for their number, which took in
/// every live document that has a cached vector.
pub fn rebuild_vector_index<H: Host>(storage: &mut Collection, host: &H)
    requires
        old(storage).inner_wf(),
    ensures
        final(storage).inner_wf(),
        old(storage).config.index.makes(
            old(storage).live().dom().len() as usize,
            final(storage).vector_index,
        ),
        indexes_anew(
            final(storage).vector_index,
            old(storage).store.index.order(),
            old(storage).vector_cache@.dom(),
        ),
        final(storage).store == old(storage).store,
        final(storage).vector_cache == old(storage).vector_cache,
        final(storage).metadata_cache == old(storage).metadata_cache,
        final(storage).config == old(storage).config,
        final(storage).metadata == old(storage).metadata,
        final(storage).path == old(storage).path,
        final(storage).persistence == old(storage).persistence,
        final(storage).sidecars == old(storage).sidecars,
        final(storage).read_only == old(storage).read_only,
{
    let ids = storage.store.index.ids();
    proof {
        storage.store.index.lemma_order();
        assert(storage.store.live().dom() =~= storage.store.index@.dom());
    }
    storage.vector_index = storage.config.index.create_index(ids.len());
    let mut i: usize = 0;
    proof {
        assert(ids@.take(0) =~= Seq::<DocId>::empty());
        let made = storage.vector_index;
        if made is Hnsw {
            let h = made->Hnsw_0;
            assert forall|id: DocId| !h.has_live(id) by {}
        }
    }
    while i < ids.len()
        invariant
            i <= ids.len(),
            ids@ == old(storage).store.index.order(),
            storage.vector_index.wf(),
            storage.config.index.makes(ids@.len() as usize, storage.vector_index),
            indexes_anew(storage.vector_index, ids@.take(i as int), storage.vector_cache@.dom()),
            storage.store == old(storage).store,
            storage.vector_cache == old(storage).vector_cache,
            storage.metadata_cache == old(storage).metadata_cache,
            storage.config == old(storage).config,
            storage.metadata == old(storage).metadata,
            storage.path == old(storage).path,
            storage.persistence == old(storage).persistence,
            storage.sidecars == old(storage).sidecars,
            storage.read_only == old(storage).read_only,
        decreases ids.len() - i,
    {
        let id = ids[i];
        let ghost before = storage.vector_index;
        let ghost seen = ids@.take(i as int);
        let ghost next = ids@.take(i + 1);
        proof {
            assert(next =~= seen.push(id));
            assert forall|x: DocId| next.contains(x) <==> seen.contains(x) || x == id by {
                if next.contains(x) {
                    let k = choose|k: int| 0 <= k < next.len() && next[k] == x;
                    if k < i {
                        assert(seen[k] == x);
                    }
                }
                if seen.contains(x) {
                    let k = choose|k: int| 0 <= k < seen.len() && seen[k] == x;
                    assert(next[k] == x);
                }
                assert(next[i as int] == id);
            }
        }
        match storage.vector_cache.get(&id) {
            Some(v) => {
                storage.vector_index.insert(id, v, &storage.vector_cache, host);
                proof {
                    let after = storage.vector_index;
                    match (before, after) {
                        (AnnIndex::Hnsw(a), AnnIndex::Hnsw(b)) => {
                            assert forall|s: int| 0 <= s < b.nodes@.len() implies !(
                            #[trigger] b.nodes@[s]).deleted by {
                                if s < a.nodes@.len() {
                                    assert(b.nodes@[s].id == a.nodes@[s].id);
                                    if a.nodes@[s].id != id {
                                        assert(a.has_live(a.nodes@[s].id));
                                    }
                                }
                                assert(b.has_live(b.nodes@[s].id));
                                b.lemma_live_node(s);
                            }
                        },
                        (AnnIndex::Ivf(a), AnnIndex::Ivf(b)) => {
                            assert(b.cluster_of@ =~= Map::<DocId, usize>::empty()) by {
                                assert forall|x: DocId| !b.cluster_of@.contains_key(x) by {
                                    if x != id {
                                        assert(b.cluster_of@.remove(id).contains_key(x)
                                            == a.cluster_of@.remove(id).contains_key(x));
                                    }
                                }
                            }
                        },
                        _ => {},
                    }
                }
            },
            None => {},
        }
        i += 1;
    }
    assert(ids@.take(ids.len() as int) =~= ids@);
}


impl Collection {
    /// The images of the files of this collection, as they are on disk
    /// between two operations.
    pub open spec fn durable(&self) -> DurableImageView {
        DurableImageView {
            data: self.store.region@,
            index_db: Some(self.sidecars.index_db@),
            ann_db: match self.sidecars.ann_db {
                Some(b) => Some(b@),
                None => None,
            },
            metadata_db: Some(self.sidecars.metadata_db@),
            wal: self.persistence.wal@.lines,
            wal_meta: Some(self.sidecars.wal_meta),
        }
    }

    /// A copy of the images of the files of this collection.
    pub fn image(&self) -> (r: DurableImage)
        ensures
            r@ == self.durable(),
    {
        let data = self.store.region.clone();
        assert(data@ =~= self.store.region@);
        let index_db = self.sidecars.index_db.clone();
        assert(index_db@ =~= self.sidecars.index_db@);
        let metadata_db = self.sidecars.metadata_db.clone();
        assert(metadata_db@ =~= self.sidecars.metadata_db@);
        let ann_db = match &self.sidecars.ann_db {
            Some(b) => Some(b.clone()),
            None => None,
        };
        let mut wal: Vec<WalLine> = Vec::new();
        let mut i: usize = 0;
        while i < self.persistence.wal.lines.len()
            invariant
                i <= self.persistence.wal.lines.len(),
                wal@.len() == i,
                forall|j: int| 0 <= j < i ==> wal@[j]@ == self.persistence.wal.lines@[j]@,
            decreases self.persistence.wal.lines.len() - i,
        {
            let line = match &self.persistence.wal.lines[i] {
                WalLine::Blank => WalLine::Blank,
                WalLine::Header { version } => WalLine::Header { version: *version },
                WalLine::Record(e) => WalLine::Record(e.duplicate()),
                WalLine::Malformed => WalLine::Malformed,
            };
            wal.push(line);
            i += 1;
        }
        assert(line_views(wal@) =~= self.persistence.wal@.lines);
        DurableImage {
            data,
            index_db: Some(index_db),
            ann_db,
            metadata_db: Some(metadata_db),
            wal,
            wal_meta: Some(self.sidecars.wal_meta),
        }
    }
}

/// Whether the index is new: a graph without nodes, an inverted-file index
/// without centroids and without an id in a cluster.
pub open spec fn is_new(index: AnnIndex) -> bool {
    match index {
        AnnIndex::Flat(_) => true,
        AnnIndex::Hnsw(h) => h.nodes@.len() == 0,
        AnnIndex::Ivf(i) => i.centroids@.len() == 0 && i.cluster_of@ == Map::<DocId, usize>::empty(),
    }
}

/// Whether the index is what the snapshot holds: the graph, or the
/// centroids with no id in a cluster yet.
pub open spec fn is_snapshot(index: AnnIndex, snapshot: Option<Seq<u8>>) -> bool {
    snapshot is Some && match index {
        AnnIndex::Flat(_) => false,
        AnnIndex::Hnsw(h) => graph_decoded(snapshot->0) == Some(h@),
        AnnIndex::Ivf(i) => centroids_decoded(snapshot->0) == Some(vector_views(i.centroids@))
            && i.cluster_of@ == Map::<DocId, usize>::empty(),
    }
}

/// The index that a collection of the documents `ids` is opened with: the
/// one that the snapshot holds, where there is a snapshot of its kind and,
/// for a graph, its live nodes stand for exactly these documents; else a
/// new one. Returns with it whether the snapshot was taken.
pub fn index_for(config: &IndexConfig, ids: &Vec<DocId>, snapshot: Option<&[u8]>) -> (r: (
    AnnIndex,
    bool,
))
    requires
        ids@.no_duplicates(),
    ensures
        r.0.wf(),
        config.makes(ids@.len() as usize, r.0),
        r.0.within(ids@.to_set()),
        if r.1 {
            is_snapshot(
                r.0,
                match snapshot {
                    Some(b) => Some(b@),
                    None => None,
                },
            )
        } else {
            is_new(r.0)
        },
{
    let fresh = config.create_index(ids.len());
    let (index, loaded) = load_vector_index(fresh, snapshot);
    if loaded && index.covers(ids) {
        proof {
            if index is Hnsw {
                let h = index->Hnsw_0;
                assert forall|id: DocId| #[trigger] h.has_live(id) implies ids@.to_set().contains(
                    id,
                ) by {
                    assert(ids@.contains(id));
                }
            }
        }
        (index, true)
    } else {
        let again = config.create_index(ids.len());
        proof {
            if again is Hnsw {
                let h = again->Hnsw_0;
                assert forall|id: DocId| !h.has_live(id) by {}
            }
        }
        (again, false)
    }
}

/// Whether the index of an opened collection is what opening owes. It is
/// as the configuration makes it for the documents of the table or for
/// the live documents. A graph holds exactly the live documents as live
/// nodes; it has no tombstone, or it comes from the snapshot, and is the
/// graph of the snapshot where no record was pending. An inverted-file
/// index holds none but live documents in its clusters.
pub open spec fn index_opened(c: &Collection, img: DurableImageView, stored: usize, pending: int) -> bool {
    &&& c.config.index.makes(stored, c.vector_index) || c.config.index.makes(
        c.live().dom().len() as usize,
        c.vector_index,
    )
    &&& match c.vector_index {
        AnnIndex::Flat(_) => true,
        AnnIndex::Hnsw(h) => {
            &&& forall|id: DocId| #[trigger] h.has_live(id) <==> c.live().contains_key(id)
            &&& (forall|s: int| 0 <= s < h.nodes@.len() ==> !(#[trigger] h.nodes@[s]).deleted)
                || (img.ann_db is Some && graph_decoded(img.ann_db->0) is Some && (pending == 0
                ==> graph_decoded(img.ann_db->0) == Some(h@)))
        },
        AnnIndex::Ivf(i) => forall|id: DocId| #[trigger]
            i.cluster_of@.contains_key(id) ==> c.live().contains_key(id),
    }
}

/// Build the index anew unless it was loaded and, where it is a graph, its
/// live nodes stand for exactly the live documents.
fn settle_index<H: Host>(collection: &mut Collection, loaded: bool, host: &H)
    requires
        old(collection).inner_wf(),
        old(collection).caches_consistent(),
    ensures
        final(collection).inner_wf(),
        final(collection).store == old(collection).store,
        final(collection).vector_cache == old(collection).vector_cache,
        final(collection).metadata_cache == old(collection).metadata_cache,
        final(collection).config == old(collection).config,
        final(collection).metadata == old(collection).metadata,
        final(collection).path == old(collection).path,
        final(collection).persistence == old(collection).persistence,
        final(collection).sidecars == old(collection).sidecars,
        final(collection).read_only == old(collection).read_only,
        (loaded && final(collection).vector_index == old(collection).vector_index) || (
        old(collection).config.index.makes(
            old(collection).live().dom().len() as usize,
            final(collection).vector_index,
        ) && indexes_anew(
            final(collection).vector_index,
            old(collection).store.index.order(),
            old(collection).vector_cache@.dom(),
        )),
        final(collection).vector_index matches AnnIndex::Hnsw(h) ==> forall|id: DocId| #[trigger]
            h.has_live(id) <==> final(collection).live().contains_key(id),
{
    let live = collection.store.index.ids();
    if !loaded || !collection.vector_index.covers(&live) {
        rebuild_vector_index(collection, host);
    } else {
        proof {
            let kept = collection.vector_index;
            if kept is Hnsw {
                let h = kept->Hnsw_0;
                assert forall|id: DocId| #[trigger] h.has_live(id) <==> collection.live().contains_key(
                    id,
                ) by {
                    if collection.live().contains_key(id) {
                        assert(live@.contains(id));
                        let i = choose|i: int| 0 <= i < live@.len() && live@[i] == id;
                        assert(h.has_live(live@[i]));
                    }
                }
            }
        }
    }
}

impl CollectionBuilder {
    /// Open the collection whose data file is at `path`, under the name
    /// `name`, from the images of its files: bring the region to its initial
    /// size, load the table and check every document it points at, load the
    /// metadata and the index, fill the caches, continue the log behind the
    /// greatest sequence number it holds, replay the records logged since
    /// the last checkpoint, build the index anew where none could be
    /// loaded, and bring the snapshots up to date. Where records were
    /// replayed, a checkpoint is taken at once.
    ///
    /// Fails exactly as `refusal` says.
    #[verifier::spinoff_prover]
    #[verifier::rlimit(50)]
    pub fn open<H: Host>(
        path: &str,
        name: String,
        image: DurableImage,
        options: CollectionOpenOptions,
        host: &H,
    ) -> (r: Result<Collection, PiramidError>)
        ensures
            match r {
                Ok(c) => {
                    &&& image@.refusal(
                        options.config.wal.enabled,
                        options.config.memory.initial_size_spec(),
                    ) is None
                    &&& c.wf()
                    &&& c.caches_consistent()
                    &&& c.config == options.config
                    &&& !c.read_only
                    &&& c.path@ == path@
                    &&& c.live() == image@.recovered_live(
                        options.config.wal.enabled,
                        options.config.memory.initial_size_spec(),
                    )
                    &&& c.store.region@.len() >= options.config.memory.initial_size_spec()
                    &&& image@.pending(options.config.wal.enabled)->Ok_0.len() > 0 ==> c.pending()
                        == Ok::<Seq<WalEntryView>, PiramidError>(Seq::<WalEntryView>::empty())
                    &&& Ok::<Shelf, PiramidError>(c.shelf()) == image@.shelf(
                        options.config.memory.initial_size_spec(),
                    ).replay(image@.pending(options.config.wal.enabled)->Ok_0)
                    &&& c.sidecars.wal_meta == if image@.pending(
                        options.config.wal.enabled,
                    )->Ok_0.len() > 0 {
                        image@.top_seq(options.config.wal.enabled) + 1
                    } else {
                        image@.min_seq(options.config.wal.enabled) as int
                    }
                    &&& c.next_seq() == c.sidecars.wal_meta + 1
                    &&& forall|i: int|
                        0 <= i < image@.pending(options.config.wal.enabled)->Ok_0.len() ==> (
                        #[trigger] image@.pending(options.config.wal.enabled)->Ok_0[i]).seq()
                            < c.sidecars.wal_meta
                    &&& index_opened(
                        &c,
                        image@,
                        image@.table(
                            options.config.memory.initial_size_spec(),
                        )->Ok_0.dom().len() as usize,
                        image@.pending(options.config.wal.enabled)->Ok_0.len() as int,
                    )
                },
                Err(e) => image@.refusal(
                    options.config.wal.enabled,
                    options.config.memory.initial_size_spec(),
                ) == Some(e),
            },
    {
        let config = options.config;
        let initial: u64 = config.memory.initial_size();
        if initial > usize::MAX as u64 {
            return Err(PiramidError::Io);
        }
        let ghost img = image@;
        let DurableImage { data, index_db, ann_db, metadata_db, wal, wal_meta } = image;
        let index_bytes: Option<&[u8]> = match &index_db {
            Some(b) => Some(b.as_slice()),
            None => None,
        };
        let index = match load_index(index_bytes, data.len(), initial) {
            Ok(t) => t,
            Err(e) => { return Err(e); },
        };
        let metadata_bytes: Option<&[u8]> = match &metadata_db {
            Some(b) => Some(b.as_slice()),
            None => None,
        };
        let loaded = match load_metadata(metadata_bytes) {
            Ok(m) => m,
            Err(e) => { return Err(e); },
        };
        let mut store = DocumentStore { region: data, index };
        let known: Option<usize> = match &loaded {
            Some(m) => m.dimensions,
            None => None,
        };
        assert(stored_live(store.index@, store.region@) =~= store.live());
        let found = match validate_store(&store, known) {
            Some(found) => found,
            None => { return Err(PiramidError::CorruptedData(Corruption::Document)); },
        };
        let ghost base = store.live();
        let min_seq: u64 = if config.wal.enabled {
            load_wal_meta(wal_meta)
        } else {
            0
        };
        if min_seq >= u64::MAX - 1 {
            return Err(PiramidError::Io);
        }
        let mut log = if config.wal.enabled {
            Wal::new(wal, min_seq + 1)
        } else {
            Wal::disabled(min_seq + 1)
        };
        let entries = match log.replay(min_seq) {
            Ok(entries) => entries,
            Err(e) => { return Err(e); },
        };
        // The log goes on behind every number that it holds.
        let top: u64 = greatest(&entries, min_seq);
        if top >= u64::MAX - 1 {
            return Err(PiramidError::Io);
        }
        log.next_seq = top + 1;
        proof {
            lemma_greatest_bounds(wal_views(entries@), min_seq);
            if config.wal.enabled {
                lemma_replayed_below(log@.lines, min_seq);
            }
        }
        let grown = store.ensure_size(initial);
        assert(grown is Ok);
        let count: usize = store.len();
        let mut metadata = match loaded {
            Some(m) => m,
            None => CollectionMetadata::new(name),
        };
        metadata.dimensions = found;
        metadata.update_vector_count(count);
        let ann_bytes: Option<&[u8]> = match &ann_db {
            Some(b) => Some(b.as_slice()),
            None => None,
        };
        let stored = store.index.ids();
        proof {
            store.index.lemma_order();
            assert(store.live().dom() =~= stored@.to_set());
        }
        let (index, loaded) = index_for(&config.index, &stored, ann_bytes);
        let ghost first = index;
        let mut collection = Collection {
            store,
            vector_index: index,
            vector_cache: HashMap::new(),
            metadata_cache: HashMap::new(),
            config,
            metadata,
            path: String::new(),
            persistence: PersistenceService::new(log),
            sidecars: Sidecars {
                index_db: Vec::new(),
                ann_db: None,
                metadata_db: Vec::new(),
                wal_meta: min_seq,
            },
            read_only: false,
        };
        assert(collection.shelf() == img.shelf(initial));
        rebuild(&mut collection);
        if loaded {
            collection.vector_index.reassign(&stored, &collection.vector_cache, host);
            proof {
                let after = collection.vector_index;
                if after is Ivf {
                    let i = after->Ivf_0;
                    assert forall|id: DocId| #[trigger]
                        i.cluster_of@.contains_key(id) implies collection.live().dom().contains(
                        id,
                    ) by {
                        assert(stored@.contains(id));
                    }
                }
            }
        }
        let ghost ready = collection.vector_index;
        assert(configured_as(first, ready));
        let replaying: bool = entries.len() > 0;
        match replay_wal(&mut collection, &entries, host) {
            Ok(_) => {},
            Err(e) => { return Err(e); },
        }
        let ghost replayed = collection.vector_index;
        settle_index(&mut collection, loaded, host);
        let ghost settled = collection.vector_index;
        proof {
            if loaded && settled == replayed && settled is Hnsw {
                assert(is_snapshot(first, img.ann_db));
                assert(ready == first);
                if entries@.len() == 0 {
                    assert(replayed == ready);
                }
            }
        }
        save_index(&mut collection);
        save_vector_index(&mut collection);
        save_metadata(&mut collection);
        proof {
            let pending = img.pending(config.wal.enabled)->Ok_0;
            lemma_agrees_empty(base);
            lemma_agrees_extend(Seq::<WalEntryView>::empty(), base, pending);
            assert(Seq::<WalEntryView>::empty() + pending =~= pending);
        }
        if replaying {
            let now: u64 = host.now_secs();
            let done = checkpoint(&mut collection, now);
            assert(done is Ok);
        }
        collection.path = path.to_owned();
        proof {
            let pend = img.pending(config.wal.enabled)->Ok_0;
            assert(Ok::<Shelf, PiramidError>(collection.shelf()) == img.shelf(initial).replay(pend));
            assert(collection.next_seq() == collection.sidecars.wal_meta + 1);
            let n0 = img.table(initial)->Ok_0.dom().len() as usize;
            assert(collection.config.index.makes(n0, collection.vector_index)
                || collection.config.index.makes(
                collection.live().dom().len() as usize,
                collection.vector_index,
            ));
            assert(collection.vector_index == settled);
            assert(pend.len() == entries@.len());
            assert(index_opened(&collection, img, n0, pend.len() as int));
        }
        Ok(collection)
    }
}

/// A collection that is closed between two operations and opened again
/// holds the documents it held: its files are usable, and what they recover
/// to is the set of its live documents. After a checkpoint, when the log
/// holds nothing to replay, nothing refuses to open them.
pub proof fn lemma_reopen_recovers(c: Collection)
    requires
        c.wf(),
        c.next_seq() < u64::MAX,
    ensures
        c.durable().unusable(c.config.wal.enabled, c.config.memory.initial_size_spec()) is None,
        c.durable().recovered_live(c.config.wal.enabled, c.config.memory.initial_size_spec())
            == c.live(),
        c.pending() == Ok::<Seq<WalEntryView>, PiramidError>(Seq::<WalEntryView>::empty())
            ==> c.durable().refusal(c.config.wal.enabled, c.config.memory.initial_size_spec())
            is None,
{
    let img = c.durable();
    let enabled = c.config.wal.enabled;
    let initial = c.config.memory.initial_size_spec();
    let table = c.store.index@;
    assert(img.table(initial) == Ok::<Map<DocId, EntryPointer>, PiramidError>(table));
    assert(stored_live(table, img.data) =~= c.live());
    assert(table_holds(table, img.data));
    if enabled {
        lemma_pending_below(c.persistence.wal@.lines, c.sidecars.wal_meta, c.next_seq() as int);
    }
    let d: usize = match c.metadata.dimensions {
        Some(d) => d,
        None => 0,
    };
    assert(all_have(c.live(), d));
    if enabled && c.persistence.wal@.lines.len() == 0 {
        let header = seq![WalLineView::Header { version: WAL_VERSION }];
        let none = Seq::<WalLineView>::empty();
        assert(header.drop_last() =~= none);
        assert(header.last() == WalLineView::Header { version: WAL_VERSION });
        assert(c.persistence.wal@.lines =~= none);
        assert(replayed(none, c.sidecars.wal_meta) == Ok::<Seq<WalEntryView>, PiramidError>(
            Seq::<WalEntryView>::empty(),
        ));
        assert(replayed(header, c.sidecars.wal_meta) == Ok::<Seq<WalEntryView>, PiramidError>(
            Seq::<WalEntryView>::empty(),
        ));
    }
    assert(img.pending(enabled) == c.pending());
    crate::storage::recovery::lemma_replay_changes_nothing(c.live(), c.pending()->Ok_0);
}

/// The files of a collection between two operations are a disk whose table
/// points at the live documents and whose log holds the pending records:
/// what they recover to is what that disk recovers to, and the pending
/// records agree with it.
pub proof fn lemma_files_are_disk(c: Collection)
    requires
        c.wf(),
        c.next_seq() < u64::MAX,
    ensures
        agrees(
            c.pending()->Ok_0,
            (Disk { stored: c.live(), pending: c.pending()->Ok_0 }).recovered(),
        ),
        c.durable().recovered_live(c.config.wal.enabled, c.config.memory.initial_size_spec()) == (Disk {
            stored: c.live(),
            pending: c.pending()->Ok_0,
        }).recovered(),
{
    lemma_reopen_recovers(c);
    crate::storage::recovery::lemma_replay_changes_nothing(c.live(), c.pending()->Ok_0);
}

/// Records that reached the log survive a crash, however many: where the
/// files hold more records than the collection has applied, each behind
/// the last checkpoint, they recover to the live documents with these
/// records applied in order.
pub proof fn lemma_logged_writes_survive(c: Collection, more: Seq<WalEntryView>)
    requires
        c.wf(),
        c.config.wal.enabled,
        forall|i: int| 0 <= i < more.len() ==> (#[trigger] more[i]).seq() > c.sidecars.wal_meta,
    ensures
        (DurableImageView {
            wal: c.persistence.wal@.lines + record_lines(more),
            ..c.durable()
        }).pending(true) == Ok::<Seq<WalEntryView>, PiramidError>(c.pending()->Ok_0 + more),
        (DurableImageView {
            wal: c.persistence.wal@.lines + record_lines(more),
            ..c.durable()
        }).recovered_live(true, c.config.memory.initial_size_spec()) == apply_all(c.live(), more),
    decreases more.len(),
{
    let lines = c.persistence.wal@.lines;
    let img = DurableImageView { wal: lines + record_lines(more), ..c.durable() };
    let initial = c.config.memory.initial_size_spec();
    let table = c.store.index@;
    let pending = c.pending()->Ok_0;
    assert(img.table(initial) == Ok::<Map<DocId, EntryPointer>, PiramidError>(table));
    assert(stored_live(table, img.data) =~= c.live());
    crate::storage::recovery::lemma_replay_changes_nothing(c.live(), pending);
    if more.len() == 0 {
        assert(lines + record_lines(more) =~= lines);
        assert(pending + more =~= pending);
        if lines.len() == 0 {
            let header = seq![WalLineView::Header { version: WAL_VERSION }];
            assert(header.drop_last() =~= lines);
            assert(header.last() == WalLineView::Header { version: WAL_VERSION });
        }
    } else {
        let init = more.drop_last();
        let e = more.last();
        assert(e == more[more.len() - 1]);
        assert forall|i: int| 0 <= i < init.len() implies (#[trigger] init[i]).seq()
            > c.sidecars.wal_meta by {
            assert(init[i] == more[i]);
        }
        lemma_logged_writes_survive(c, init);
        let shorter = lines + record_lines(init);
        assert(lines + record_lines(more) =~= shorter.push(WalLineView::Record(e)));
        if shorter.len() == 0 {
            let header = seq![WalLineView::Header { version: WAL_VERSION }];
            assert(header.drop_last() =~= shorter);
            assert(header.last() == WalLineView::Header { version: WAL_VERSION });
        }
        crate::storage::wal::log::lemma_replay_push(shorter, e, c.sidecars.wal_meta);
        assert((pending + init).push(e) =~= pending + more);
        lemma_apply_all_append(c.live(), pending, more);
        lemma_apply_all_append(c.live(), pending, init);
    }
    lemma_apply_all_append(c.live(), pending, more);
}

/// A collection opens again after a crash that lost everything but what
/// had reached the log, where the documents of the pending records fit:
/// the files with more records in the log than the collection had applied
/// are refused by nothing, and recover to the live documents with these
/// records applied.
pub proof fn lemma_crashed_reopens(c: Collection, more: Seq<WalEntryView>, d: usize)
    requires
        c.wf(),
        c.config.wal.enabled,
        c.next_seq() < u64::MAX,
        forall|i: int|
            0 <= i < more.len() ==> c.sidecars.wal_meta < (#[trigger] more[i]).seq() < u64::MAX - 1,
        c.metadata.dimensions is Some ==> c.metadata.dimensions == Some(d),
        carried_fit(c.pending()->Ok_0 + more, d),
        2 * (high_water(c.store.index@) + carried_len(c.pending()->Ok_0 + more)) <= usize::MAX,
    ensures
        (DurableImageView {
            wal: c.persistence.wal@.lines + record_lines(more),
            ..c.durable()
        }).refusal(true, c.config.memory.initial_size_spec()) is None,
        (DurableImageView {
            wal: c.persistence.wal@.lines + record_lines(more),
            ..c.durable()
        }).recovered_live(true, c.config.memory.initial_size_spec()) == apply_all(c.live(), more),
{
    lemma_reopen_recovers(c);
    lemma_logged_writes_survive(c, more);
    let img = DurableImageView {
        wal: c.persistence.wal@.lines + record_lines(more),
        ..c.durable()
    };
    let initial = c.config.memory.initial_size_spec();
    let table = c.store.index@;
    assert(img.table(initial) == Ok::<Map<DocId, EntryPointer>, PiramidError>(table));
    assert(c.durable().table(initial) == Ok::<Map<DocId, EntryPointer>, PiramidError>(table));
    assert(stored_live(table, img.data) =~= c.live());
    c.store.index.lemma_order();
    let full = c.persistence.wal@.lines + record_lines(more);
    assert(seqs_below(full, u64::MAX - 1)) by {
        assert forall|i: int| 0 <= i < full.len() implies ((#[trigger] full[i]) matches WalLineView::Record(
            e,
        ) ==> e.seq() < u64::MAX - 1) by {
            if i < c.persistence.wal@.lines.len() {
                assert(full[i] == c.persistence.wal@.lines[i]);
            } else {
                assert(full[i] == WalLineView::Record(more[i - c.persistence.wal@.lines.len()]));
            }
        }
    }
    if full.len() > 0 {
        lemma_pending_below(full, c.sidecars.wal_meta, u64::MAX - 1);
    }
    assert(img.unusable(true, initial) is None);
    let shelf = img.shelf(initial);
    assert(shelf.dims is Some ==> shelf.dims == Some(d)) by {
        let live = c.live();
        if shelf.dims is Some && !(live == Map::<DocId, DocumentView>::empty()) {
            assert(exists|id: DocId| live.contains_key(id)) by {
                if forall|id: DocId| !live.contains_key(id) {
                    assert(live =~= Map::<DocId, DocumentView>::empty());
                }
            }
        }
    }
    shelf.lemma_replay_fits(c.pending()->Ok_0 + more, d);
}

/// Applying records one batch after the other applies them all.
pub proof fn lemma_apply_all_append(
    live: Map<DocId, DocumentView>,
    first: Seq<WalEntryView>,
    then: Seq<WalEntryView>,
)
    ensures
        apply_all(live, first + then) == apply_all(apply_all(live, first), then),
    decreases then.len(),
{
    if then.len() == 0 {
        assert(first + then =~= first);
    } else {
        lemma_apply_all_append(live, first, then.drop_last());
        assert((first + then).drop_last() =~= first + then.drop_last());
        assert((first + then).last() == then.last());
    }
}

/// A collection that is closed between two operations opens again, also
/// while records are pending in its log, where their documents fit: each
/// has a vector of the collection's dimension and a binary form that a
/// pointer can hold, and appended behind the documents of the table they
/// end where the machine can still double the region.
pub proof fn lemma_reopen_succeeds(c: Collection, d: usize)
    requires
        c.wf(),
        c.next_seq() < u64::MAX,
        c.metadata.dimensions is Some ==> c.metadata.dimensions == Some(d),
        carried_fit(c.pending()->Ok_0, d),
        2 * (high_water(c.store.index@) + carried_len(c.pending()->Ok_0)) <= usize::MAX,
    ensures
        c.durable().refusal(c.config.wal.enabled, c.config.memory.initial_size_spec()) is None,
        c.durable().recovered_live(c.config.wal.enabled, c.config.memory.initial_size_spec())
            == c.live(),
{
    lemma_reopen_recovers(c);
    let img = c.durable();
    let enabled = c.config.wal.enabled;
    let initial = c.config.memory.initial_size_spec();
    let table = c.store.index@;
    assert(img.table(initial) == Ok::<Map<DocId, EntryPointer>, PiramidError>(table));
    assert(stored_live(table, img.data) =~= c.live());
    c.store.index.lemma_order();
    if enabled && c.persistence.wal@.lines.len() == 0 {
        let header = seq![WalLineView::Header { version: WAL_VERSION }];
        let none = Seq::<WalLineView>::empty();
        assert(header.drop_last() =~= none);
        assert(header.last() == WalLineView::Header { version: WAL_VERSION });
        assert(c.persistence.wal@.lines =~= none);
        assert(replayed(none, c.sidecars.wal_meta) == Ok::<Seq<WalEntryView>, PiramidError>(
            Seq::<WalEntryView>::empty(),
        ));
        assert(replayed(header, c.sidecars.wal_meta) == Ok::<Seq<WalEntryView>, PiramidError>(
            Seq::<WalEntryView>::empty(),
        ));
    }
    assert(img.pending(enabled) == c.pending());
    let shelf = img.shelf(initial);
    assert(shelf.dims is Some ==> shelf.dims == Some(d)) by {
        let live = c.live();
        if shelf.dims is Some && !(live == Map::<DocId, DocumentView>::empty()) {
            assert(exists|id: DocId| live.contains_key(id)) by {
                if forall|id: DocId| !live.contains_key(id) {
                    assert(live =~= Map::<DocId, DocumentView>::empty());
                }
            }
        }
    }
    shelf.lemma_replay_fits(c.pending()->Ok_0, d);
}

} // verus!
