//! The operations on the documents of a collection.

use vstd::prelude::*;
use crate::error::{Limit, PiramidError};
use crate::host::Host;
use crate::index::ann::{took_in, took_out, AnnIndex};
use crate::metadata::Metadata;
use crate::quantization::QuantizedVector;
use crate::storage::codec::{decoded, enc_document, encode_document};
use crate::storage::collection::persistence::{checkpoint, checkpoint_due, save_index};
use crate::storage::collection::storage::{dims_hold, Collection};
use crate::storage::document::{Document, DocumentView};
use crate::storage::persistence::index::{high_water, non_overlapping};
use crate::storage::persistence::mmap::grown_len;
use crate::storage::recovery::{apply, lemma_agrees_push};
use crate::storage::wal::entry::{WalEntry, WalEntryView};
use crate::storage::wal::log::{
    lemma_replay_push, lemma_seqs_below_more, lemma_seqs_below_push, record_lines, WalLineView,
    WAL_VERSION,
};
use crate::DocId;

verus! {

broadcast use vstd::std_specs::hash::group_hash_axioms;

/// The document with the id `id`, if there is one.
pub fn get(storage: &Collection, id: DocId) -> (r: Option<Document>)
    requires
        storage.inner_wf(),
    ensures
        match r {
            Some(d) => storage.live().contains_key(id) && storage.live()[id] == d@ && d.id == id,
            None => !storage.live().contains_key(id),
        },
{
    storage.store.get(id)
}

impl Collection {
    /// Why the store cannot take a document, if it cannot: its vector has
    /// another length than the collection's dimension, or its binary form
    /// cannot be appended.
    pub open spec fn internal_refusal(&self, doc: DocumentView) -> Option<PiramidError> {
        self.shelf().refusal(doc)
    }

    /// Whether the collection is `before` with `doc` taken in, as far as
    /// the region, the caches and the index go: the region holds every byte
    /// it held outside the new document, the caches hold the document's
    /// vector and metadata under its id and every other id as before, and
    /// the index took the id in.
    pub open spec fn took(&self, before: &Collection, doc: DocumentView) -> bool {
        let at = high_water(before.store.index@);
        let end = at + enc_document(doc).len();
        &&& forall|i: int|
            0 <= i < before.store.region@.len() && !(at <= i < end) ==> #[trigger] self.store.region@[i]
                == before.store.region@[i]
        &&& self.vector_cache@.contains_key(doc.id) && self.vector_cache@[doc.id]@ == doc.vector
        &&& self.metadata_cache@.contains_key(doc.id) && self.metadata_cache@[doc.id]@
            == doc.metadata
        &&& self.vector_cache@.remove(doc.id) == before.vector_cache@.remove(doc.id)
        &&& self.metadata_cache@.remove(doc.id) == before.metadata_cache@.remove(doc.id)
        &&& took_in(before.vector_index, self.vector_index, doc.id, self.vector_cache@.dom())
    }

    /// Whether the collection is `before` with the document of `doc.id`
    /// taken out and `doc` taken in, as far as the region, the table, the
    /// caches and the index go: the document lies behind every other
    /// document (where the one it replaces lay last, in its place), the
    /// region holds every byte it held outside the new document, the caches
    /// hold the document's vector and metadata under its id and every other
    /// id as before, and the index took the id out and in again.
    pub open spec fn replaced(&self, before: &Collection, doc: DocumentView) -> bool {
        let at = high_water(before.store.index@.remove(doc.id));
        let end = at + enc_document(doc).len();
        &&& self.shelf() == before.shelf().without(doc.id).put(doc)
        &&& forall|i: int|
            0 <= i < before.store.region@.len() && !(at <= i < end) ==> #[trigger] self.store.region@[i]
                == before.store.region@[i]
        &&& self.vector_cache@.contains_key(doc.id) && self.vector_cache@[doc.id]@ == doc.vector
        &&& self.metadata_cache@.contains_key(doc.id) && self.metadata_cache@[doc.id]@
            == doc.metadata
        &&& self.vector_cache@.remove(doc.id) == before.vector_cache@.remove(doc.id)
        &&& self.metadata_cache@.remove(doc.id) == before.metadata_cache@.remove(doc.id)
        &&& exists|between: AnnIndex|
            took_out(before.vector_index, between, doc.id) && #[trigger] took_in(
                between,
                self.vector_index,
                doc.id,
                self.vector_cache@.dom(),
            )
    }

    /// Why a write of `records` log records cannot start, if it cannot: the
    /// collection is read-only, or the log would run out of sequence numbers
    /// for these records and the checkpoint that may follow them.
    pub open spec fn write_refusal(&self, records: int) -> Option<PiramidError> {
        if self.read_only {
            Some(PiramidError::ReadOnlyMode)
        } else if self.next_seq() + records >= u64::MAX {
            Some(PiramidError::Io)
        } else {
            None
        }
    }

    /// Why `insert` refuses a document, if it does. In this order: the
    /// collection is read-only; the vector has another length than the
    /// collection's dimension; the collection is full; the document's binary
    /// form is longer than a pointer or the configuration allows; the data
    /// would outgrow the configured size; the log is out of sequence numbers
    /// or the region cannot grow.
    pub open spec fn insert_refusal(&self, doc: DocumentView) -> Option<PiramidError> {
        let actual = doc.vector.values.len();
        let len = enc_document(doc).len();
        let end = high_water(self.store.index@) + len;
        if self.read_only {
            Some(PiramidError::ReadOnlyMode)
        } else if self.metadata.dimensions is Some && self.metadata.dimensions->0 != actual {
            Some(
                PiramidError::DimensionMismatch {
                    expected: self.metadata.dimensions->0,
                    actual: actual as usize,
                },
            )
        } else if self.config.limits.max_vectors is Some && !self.live().contains_key(doc.id)
            && self.live().dom().len() >= self.config.limits.max_vectors->0 {
            Some(PiramidError::LimitsExceeded(Limit::MaxVectors))
        } else if len > u32::MAX || (self.config.limits.max_vector_bytes is Some && len
            > self.config.limits.max_vector_bytes->0) {
            Some(PiramidError::LimitsExceeded(Limit::MaxVectorBytes))
        } else if self.config.limits.max_bytes is Some && end > self.config.limits.max_bytes->0 {
            Some(PiramidError::LimitsExceeded(Limit::MaxBytes))
        } else if self.next_seq() + 1 >= u64::MAX {
            Some(PiramidError::Io)
        } else {
            match self.store.append_outcome(len as int) {
                Err(e) => Some(e),
                Ok(_) => None,
            }
        }
    }

    /// Why replacing the document with the id of `doc` by `doc` is refused,
    /// if it is. In this order: the collection is read-only; the vector has
    /// another length than the collection's dimension; the document's binary
    /// form is longer than a pointer or the configuration allows; the data
    /// would outgrow the configured size; the log is out of sequence numbers
    /// or the region cannot grow. The new form is appended behind what is
    /// left when the old one is forgotten.
    pub open spec fn update_refusal(&self, doc: DocumentView) -> Option<PiramidError> {
        let actual = doc.vector.values.len();
        let len = enc_document(doc).len();
        let end = high_water(self.store.index@.remove(doc.id)) + len;
        if self.read_only {
            Some(PiramidError::ReadOnlyMode)
        } else if self.metadata.dimensions is Some && self.metadata.dimensions->0 != actual {
            Some(
                PiramidError::DimensionMismatch {
                    expected: self.metadata.dimensions->0,
                    actual: actual as usize,
                },
            )
        } else if len > u32::MAX || (self.config.limits.max_vector_bytes is Some && len
            > self.config.limits.max_vector_bytes->0) {
            Some(PiramidError::LimitsExceeded(Limit::MaxVectorBytes))
        } else if self.config.limits.max_bytes is Some && end > self.config.limits.max_bytes->0 {
            Some(PiramidError::LimitsExceeded(Limit::MaxBytes))
        } else if self.next_seq() + 1 >= u64::MAX {
            Some(PiramidError::Io)
        } else if end > u64::MAX || (end > self.store.region@.len() && 2 * end > usize::MAX) {
            Some(PiramidError::Io)
        } else {
            None
        }
    }

    /// Why `upsert` refuses a document, if it does: as an update where the
    /// id is present, as an insert where it is not.
    pub open spec fn upsert_refusal(&self, doc: DocumentView) -> Option<PiramidError> {
        if self.live().contains_key(doc.id) {
            self.update_refusal(doc)
        } else {
            self.insert_refusal(doc)
        }
    }
}

/// Put a document, whose binary form is `bytes`, into the store, the caches
/// and the index, without logging it. A document with the same id is
/// replaced. Fails, changing nothing, exactly as `internal_refusal` says.
#[verifier::rlimit(30)]
pub fn insert_encoded<H: Host>(
    storage: &mut Collection,
    entry: Document,
    bytes: &[u8],
    host: &H,
) -> (r: Result<DocId, PiramidError>)
    requires
        old(storage).inner_wf(),
        bytes@ == enc_document(entry@),
        decoded(bytes@) == Some(entry@),
    ensures
        match r {
            Ok(id) => {
                &&& id == entry.id
                &&& old(storage).internal_refusal(entry@) is None
                &&& final(storage).inner_wf()
                &&& final(storage).live() == old(storage).live().insert(entry.id, entry@)
                &&& final(storage).store.index@ == old(storage).store.index@.insert(
                    entry.id,
                    final(storage).store.index@[entry.id],
                )
                &&& final(storage).store.index@[entry.id].offset == high_water(
                    old(storage).store.index@,
                )
                &&& final(storage).store.index@[entry.id].length == bytes@.len()
                &&& final(storage).store.region@.len() == grown_len(
                    old(storage).store.region@.len() as int,
                    high_water(old(storage).store.index@) + bytes@.len(),
                )
                &&& final(storage).shelf() == old(storage).shelf().put(entry@)
                &&& final(storage).took(old(storage), entry@)
                &&& final(storage).metadata.dimensions == Some(
                    entry@.vector.values.len() as usize,
                )
                &&& final(storage).metadata.name == old(storage).metadata.name
                &&& final(storage).metadata.schema_version == old(storage).metadata.schema_version
                &&& final(storage).config == old(storage).config
                &&& final(storage).persistence == old(storage).persistence
                &&& final(storage).sidecars == old(storage).sidecars
                &&& final(storage).read_only == old(storage).read_only
                &&& old(storage).caches_consistent() ==> final(storage).caches_consistent()
                &&& non_overlapping(old(storage).store.index@) ==> non_overlapping(
                    final(storage).store.index@,
                )
            },
            Err(e) => {
                &&& old(storage).internal_refusal(entry@) == Some(e)
                &&& *final(storage) == *old(storage)
            },
        },
{
    let id = entry.id;
    let dim: usize = entry.vector.dim();
    if let Some(expected) = storage.metadata.dimensions {
        if expected != dim {
            return Err(PiramidError::DimensionMismatch { expected, actual: dim });
        }
    }
    match storage.store.append_encoded(id, bytes) {
        Ok(_) => {},
        Err(e) => { return Err(e); },
    }
    storage.metadata.set_dimensions(dim);
    let vector = entry.vector;
    storage.vector_cache.insert(id, vector.duplicate());
    storage.metadata_cache.insert(id, entry.metadata);
    storage.vector_index.insert(id, &vector, &storage.vector_cache, host);
    let count: usize = storage.store.len();
    storage.metadata.update_vector_count(count);
    proof {
        assert(took_in(
            old(storage).vector_index,
            storage.vector_index,
            id,
            storage.vector_cache@.dom(),
        ));
        assert(storage.vector_index.within(storage.live().dom())) by {
            let before = old(storage).vector_index;
            let after = storage.vector_index;
            assert(before.within(old(storage).live().dom()));
            match (before, after) {
                (AnnIndex::Hnsw(a), AnnIndex::Hnsw(b)) => {
                    assert forall|x: DocId| #[trigger] b.has_live(x) implies storage.live().dom().contains(
                        x,
                    ) by {
                        if x != id {
                            assert(a.has_live(x));
                        }
                    }
                },
                (AnnIndex::Ivf(a), AnnIndex::Ivf(b)) => {
                    assert forall|x: DocId| #[trigger]
                        b.cluster_of@.contains_key(x) implies storage.live().dom().contains(x) by {
                        if x != id {
                            assert(b.cluster_of@.remove(id).contains_key(x));
                            assert(a.cluster_of@.remove(id).contains_key(x));
                            assert(a.cluster_of@.contains_key(x));
                        }
                    }
                },
                _ => {},
            }
        }
        assert(storage.vector_cache@.remove(id) =~= old(storage).vector_cache@.remove(id));
        assert(storage.metadata_cache@.remove(id) =~= old(storage).metadata_cache@.remove(id));
        assert(storage.shelf().table =~= old(storage).shelf().put(entry@).table);
        assert(storage.live().dom() =~= old(storage).live().dom().insert(id));
        if old(storage).caches_consistent() {
            assert(storage.vector_cache@.dom() =~= storage.live().dom());
            assert(storage.metadata_cache@.dom() =~= storage.live().dom());
        }
    }
    Ok(id)
}

/// Put a document into the store, the caches and the index, without logging
/// it. A document with the same id is replaced. Fails, changing nothing,
/// exactly as `internal_refusal` says.
pub fn insert_internal<H: Host>(storage: &mut Collection, entry: Document, host: &H) -> (r: Result<
    DocId,
    PiramidError,
>)
    requires
        old(storage).inner_wf(),
    ensures
        match r {
            Ok(id) => {
                &&& id == entry.id
                &&& old(storage).internal_refusal(entry@) is None
                &&& final(storage).inner_wf()
                &&& final(storage).store.region@.len() >= old(storage).store.region@.len()
                &&& final(storage).live() == old(storage).live().insert(entry.id, entry@)
                &&& final(storage).shelf() == old(storage).shelf().put(entry@)
                &&& final(storage).took(old(storage), entry@)
                &&& final(storage).metadata.dimensions == Some(
                    entry@.vector.values.len() as usize,
                )
                &&& final(storage).metadata.name == old(storage).metadata.name
                &&& final(storage).metadata.schema_version == old(storage).metadata.schema_version
                &&& final(storage).config == old(storage).config
                &&& final(storage).persistence == old(storage).persistence
                &&& final(storage).sidecars == old(storage).sidecars
                &&& final(storage).read_only == old(storage).read_only
                &&& old(storage).caches_consistent() ==> final(storage).caches_consistent()
                &&& non_overlapping(old(storage).store.index@) ==> non_overlapping(
                    final(storage).store.index@,
                )
            },
            Err(e) => {
                &&& old(storage).internal_refusal(entry@) == Some(e)
                &&& *final(storage) == *old(storage)
            },
        },
{
    let bytes = encode_document(&entry);
    insert_encoded(storage, entry, bytes.as_slice(), host)
}

/// Take a document out of the store, the caches and the index, without
/// logging it. Returns whether there was such a document.
pub fn delete_internal(storage: &mut Collection, id: DocId) -> (r: bool)
    requires
        old(storage).inner_wf(),
    ensures
        r == old(storage).live().contains_key(id),
        final(storage).inner_wf(),
        final(storage).live() == old(storage).live().remove(id),
        final(storage).store.index@ == old(storage).store.index@.remove(id),
        final(storage).store.region == old(storage).store.region,
        final(storage).shelf() == old(storage).shelf().without(id),
        took_out(old(storage).vector_index, final(storage).vector_index, id),
        final(storage).vector_cache@ == old(storage).vector_cache@.remove(id),
        final(storage).metadata_cache@ == old(storage).metadata_cache@.remove(id),
        final(storage).metadata.dimensions == old(storage).metadata.dimensions,
        final(storage).metadata.name == old(storage).metadata.name,
        final(storage).metadata.schema_version == old(storage).metadata.schema_version,
        final(storage).config == old(storage).config,
        final(storage).persistence == old(storage).persistence,
        final(storage).sidecars == old(storage).sidecars,
        final(storage).read_only == old(storage).read_only,
        old(storage).caches_consistent() ==> final(storage).caches_consistent(),
        non_overlapping(old(storage).store.index@) ==> non_overlapping(final(storage).store.index@),
{
    let r = storage.store.remove(id);
    storage.vector_index.remove(id);
    storage.vector_cache.remove(&id);
    storage.metadata_cache.remove(&id);
    let count: usize = storage.store.len();
    storage.metadata.update_vector_count(count);
    proof {
        assert(storage.live().dom() =~= old(storage).live().dom().remove(id));
        if old(storage).caches_consistent() {
            assert(storage.vector_cache@.dom() =~= storage.live().dom());
            assert(storage.metadata_cache@.dom() =~= storage.live().dom());
        }
        if storage.metadata.dimensions is None {
            assert(storage.live() =~= Map::<DocId, DocumentView>::empty());
        }
    }
    r
}

/// Whether the log of `after` is that of `before` with `records` logged.
/// Where no checkpoint was taken since, the records stand at the end of the
/// log (of an enabled one), the counter has moved by their number, and the
/// last checkpoint is what it was. Where a checkpoint was taken after them,
/// the log is its header alone, the checkpoint's record took the number
/// behind theirs, and that is the number of the last checkpoint.
pub open spec fn log_grew(before: &Collection, after: &Collection, records: Seq<WalEntryView>) -> bool {
    let wal = before.persistence.wal@;
    let next = before.next_seq() + records.len();
    ||| {
        &&& after.persistence.wal@.lines == if wal.enabled {
            wal.lines + record_lines(records)
        } else {
            wal.lines
        }
        &&& after.next_seq() == next
        &&& after.sidecars.wal_meta == before.sidecars.wal_meta
    }
    ||| {
        &&& wal.enabled
        &&& after.persistence.wal@.lines == seq![WalLineView::Header { version: WAL_VERSION }]
        &&& after.next_seq() == next + 1
        &&& after.sidecars.wal_meta == next
    }
}

/// A log that holds the records, and then had one operation counted, grew
/// by the records.
pub proof fn lemma_log_grew(
    before: &Collection,
    held: &Collection,
    after: &Collection,
    records: Seq<WalEntryView>,
)
    requires
        held.persistence.wal@.lines == if before.persistence.wal.enabled {
            before.persistence.wal@.lines + record_lines(records)
        } else {
            before.persistence.wal@.lines
        },
        held.next_seq() == before.next_seq() + records.len(),
        held.sidecars.wal_meta == before.sidecars.wal_meta,
        held.config.wal.enabled == before.persistence.wal.enabled,
        exists|now: u64| counted_at(held, after, now),
    ensures
        log_grew(before, after, records),
{
    let now = choose|now: u64| counted_at(held, after, now);
    assert(counted_at(held, after, now));
}

/// Whether `after` is `before` with one more write operation counted at the
/// time `now`. Where a checkpoint was due, it was taken: the count starts
/// again at zero, the checkpoint's record took the next sequence number,
/// and the log holds nothing to replay. Where none was due, the operation
/// was counted (with the log enabled) and nothing else has changed.
pub open spec fn counted_at(before: &Collection, after: &Collection, now: u64) -> bool {
    let p = before.persistence;
    if checkpoint_due(before.config.wal, p.operation_count, p.last_checkpoint_ts, now) {
        &&& after.persistence.operation_count == 0
        &&& after.persistence.last_checkpoint_ts == Some(now)
        &&& after.next_seq() == before.next_seq() + 1
        &&& after.sidecars.wal_meta == before.next_seq()
        &&& after.persistence.wal@.lines == seq![WalLineView::Header { version: WAL_VERSION }]
        &&& after.pending() == Ok::<Seq<WalEntryView>, PiramidError>(Seq::<WalEntryView>::empty())
    } else {
        &&& after.persistence.operation_count == if !before.config.wal.enabled
            || p.operation_count == usize::MAX {
            p.operation_count as int
        } else {
            p.operation_count + 1
        }
        &&& after.persistence.wal == p.wal
        &&& after.persistence.last_checkpoint_ts == p.last_checkpoint_ts
        &&& after.sidecars == before.sidecars
    }
}

/// Count one write operation at the time `now` and take a checkpoint where
/// one is due.
pub fn track_operation_at(storage: &mut Collection, now: u64)
    requires
        old(storage).wf(),
        old(storage).next_seq() < u64::MAX,
    ensures
        counted_at(old(storage), final(storage), now),
        final(storage).wf(),
        final(storage).live() == old(storage).live(),
        final(storage).store == old(storage).store,
        final(storage).vector_index == old(storage).vector_index,
        final(storage).vector_cache == old(storage).vector_cache,
        final(storage).metadata_cache == old(storage).metadata_cache,
        final(storage).config == old(storage).config,
        final(storage).metadata == old(storage).metadata,
        final(storage).read_only == old(storage).read_only,
        final(storage).next_seq() >= old(storage).next_seq(),
        final(storage).next_seq() <= old(storage).next_seq() + 1,
{
    let cfg = storage.config.wal;
    if storage.persistence.should_checkpoint(&cfg, now) {
        let done = checkpoint(storage, now);
        assert(done is Ok);
        storage.persistence.reset_counter();
    }
}

/// Count one write operation at the host's time and take a checkpoint
/// where one is due at that time.
pub fn track_operation<H: Host>(storage: &mut Collection, host: &H)
    requires
        old(storage).wf(),
        old(storage).next_seq() < u64::MAX,
    ensures
        exists|now: u64| counted_at(old(storage), final(storage), now),
        final(storage).wf(),
        final(storage).live() == old(storage).live(),
        final(storage).store == old(storage).store,
        final(storage).vector_index == old(storage).vector_index,
        final(storage).vector_cache == old(storage).vector_cache,
        final(storage).metadata_cache == old(storage).metadata_cache,
        final(storage).config == old(storage).config,
        final(storage).metadata == old(storage).metadata,
        final(storage).read_only == old(storage).read_only,
        final(storage).next_seq() >= old(storage).next_seq(),
        final(storage).next_seq() <= old(storage).next_seq() + 1,
{
    let now: u64 = host.now_secs();
    track_operation_at(storage, now);
}

/// Insert a document: log it as an insertion, append it to the data region, point its id at
/// it, take it into the caches and the index, bring the table's snapshot up
/// to date, and take a checkpoint where one is due. A document with the same
/// id is replaced.
///
/// Fails, changing nothing, exactly as `insert_refusal` says.
pub fn insert<H: Host>(storage: &mut Collection, entry: Document, host: &H) -> (r: Result<
    DocId,
    PiramidError,
>)
    requires
        old(storage).wf(),
    ensures
        match r {
            Ok(id) => {
                &&& id == entry.id
                &&& old(storage).insert_refusal(entry@) is None
                &&& final(storage).wf()
                &&& final(storage).live() == old(storage).live().insert(entry.id, entry@)
                &&& final(storage).shelf() == old(storage).shelf().put(entry@)
                &&& final(storage).took(old(storage), entry@)
                &&& log_grew(
                    old(storage),
                    final(storage),
                    seq![WalEntryView::Insert { doc: entry@, seq: old(storage).next_seq() }],
                )
                &&& final(storage).next_seq() > old(storage).next_seq()
                &&& final(storage).metadata.dimensions == Some(
                    entry@.vector.values.len() as usize,
                )
                &&& final(storage).config == old(storage).config
                &&& final(storage).read_only == old(storage).read_only
                &&& old(storage).caches_consistent() ==> final(storage).caches_consistent()
                &&& non_overlapping(old(storage).store.index@) ==> non_overlapping(
                    final(storage).store.index@,
                )
            },
            Err(e) => {
                &&& old(storage).insert_refusal(entry@) == Some(e)
                &&& *final(storage) == *old(storage)
            },
        },
{
    if storage.read_only {
        return Err(PiramidError::ReadOnlyMode);
    }
    let dim: usize = entry.vector.dim();
    if let Some(expected) = storage.metadata.dimensions {
        if expected != dim {
            return Err(PiramidError::DimensionMismatch { expected, actual: dim });
        }
    }
    let count: usize = storage.store.len();
    if let Some(max) = storage.config.limits.max_vectors {
        if !storage.store.contains(entry.id) && count >= max {
            return Err(PiramidError::LimitsExceeded(Limit::MaxVectors));
        }
    }
    let bytes = encode_document(&entry);
    if bytes.len() > u32::MAX as usize {
        return Err(PiramidError::LimitsExceeded(Limit::MaxVectorBytes));
    }
    if let Some(max) = storage.config.limits.max_vector_bytes {
        if bytes.len() > max {
            return Err(PiramidError::LimitsExceeded(Limit::MaxVectorBytes));
        }
    }
    let offset: u64 = storage.store.next_offset();
    if let Some(max) = storage.config.limits.max_bytes {
        if bytes.len() as u64 > max || offset > max - bytes.len() as u64 {
            return Err(PiramidError::LimitsExceeded(Limit::MaxBytes));
        }
    }
    if storage.persistence.wal.next_seq >= u64::MAX - 1 {
        return Err(PiramidError::Io);
    }
    if bytes.len() as u64 > u64::MAX - offset {
        return Err(PiramidError::Io);
    }
    let end: u64 = offset + bytes.len() as u64;
    if end > storage.store.region.len() as u64 && end > (usize::MAX / 2) as u64 {
        return Err(PiramidError::Io);
    }
    let id = entry.id;
    let ghost pending = storage.pending()->Ok_0;
    let mut record = WalEntry::insert_of(&entry);
    let logged = storage.persistence.wal.log(&mut record);
    assert(logged is Ok);
    proof {
        if old(storage).persistence.wal.enabled {
            lemma_replay_push(
                old(storage).persistence.wal@.lines,
                record@,
                storage.sidecars.wal_meta,
            );
        }
    }
    let done = insert_encoded(storage, entry, bytes.as_slice(), host);
    assert(done is Ok);
    proof {
        if old(storage).persistence.wal.enabled {
            lemma_agrees_push(pending, old(storage).live(), record@);
        } else {
            crate::storage::recovery::lemma_agrees_empty(storage.live());
        }
    }
    save_index(storage);
    let ghost held = *storage;
    track_operation(storage, host);
    proof {
        let records = seq![WalEntryView::Insert { doc: entry@, seq: old(storage).next_seq() }];
        lemma_seqs_below_more(
            old(storage).persistence.wal@.lines,
            old(storage).next_seq() as int,
            old(storage).next_seq() + 1,
        );
        lemma_seqs_below_push(
            old(storage).persistence.wal@.lines,
            records[0],
            old(storage).next_seq() + 1,
        );
        lemma_log_grew(old(storage), &held, storage, records);
    }
    Ok(id)
}

/// Delete a document: log the deletion, take the document out of the table,
/// the caches and the index, bring the table's snapshot up to date, and
/// take a checkpoint where one is due. Returns whether there was such a
/// document; where there was none, nothing is logged and nothing changes.
///
/// Fails, changing nothing, exactly where there is such a document and
/// `write_refusal(1)` says so.
pub fn delete<H: Host>(storage: &mut Collection, id: DocId, host: &H) -> (r: Result<
    bool,
    PiramidError,
>)
    requires
        old(storage).wf(),
    ensures
        match r {
            Ok(found) => {
                &&& found == old(storage).live().contains_key(id)
                &&& found ==> old(storage).write_refusal(1) is None
                &&& final(storage).wf()
                &&& final(storage).live() == old(storage).live().remove(id)
                &&& found ==> final(storage).next_seq() > old(storage).next_seq()
                &&& !found ==> *final(storage) == *old(storage)
                &&& found ==> log_grew(
                    old(storage),
                    final(storage),
                    seq![WalEntryView::Delete { id, seq: old(storage).next_seq() }],
                )
                &&& found ==> final(storage).shelf() == old(storage).shelf().without(id)
                    && took_out(old(storage).vector_index, final(storage).vector_index, id)
                    && final(storage).vector_cache@ == old(storage).vector_cache@.remove(id)
                    && final(storage).metadata_cache@ == old(storage).metadata_cache@.remove(id)
                &&& final(storage).config == old(storage).config
                &&& final(storage).read_only == old(storage).read_only
                &&& final(storage).metadata.dimensions == old(storage).metadata.dimensions
                &&& old(storage).caches_consistent() ==> final(storage).caches_consistent()
                &&& non_overlapping(old(storage).store.index@) ==> non_overlapping(
                    final(storage).store.index@,
                )
            },
            Err(e) => {
                &&& old(storage).live().contains_key(id)
                &&& old(storage).write_refusal(1) == Some(e)
                &&& *final(storage) == *old(storage)
            },
        },
{
    if !storage.store.contains(id) {
        assert(storage.live().remove(id) =~= storage.live());
        return Ok(false);
    }
    if storage.read_only {
        return Err(PiramidError::ReadOnlyMode);
    }
    if storage.persistence.wal.next_seq >= u64::MAX - 1 {
        return Err(PiramidError::Io);
    }
    let ghost pending = storage.pending()->Ok_0;
    let mut record = WalEntry::Delete { id, seq: 0 };
    let logged = storage.persistence.wal.log(&mut record);
    assert(logged is Ok);
    proof {
        if old(storage).persistence.wal.enabled {
            lemma_replay_push(
                old(storage).persistence.wal@.lines,
                record@,
                storage.sidecars.wal_meta,
            );
        }
    }
    delete_internal(storage, id);
    proof {
        if old(storage).persistence.wal.enabled {
            lemma_agrees_push(pending, old(storage).live(), record@);
        } else {
            crate::storage::recovery::lemma_agrees_empty(storage.live());
        }
    }
    save_index(storage);
    let ghost held = *storage;
    track_operation(storage, host);
    proof {
        let records = seq![WalEntryView::Delete { id, seq: old(storage).next_seq() }];
        lemma_seqs_below_more(
            old(storage).persistence.wal@.lines,
            old(storage).next_seq() as int,
            old(storage).next_seq() + 1,
        );
        lemma_seqs_below_push(
            old(storage).persistence.wal@.lines,
            records[0],
            old(storage).next_seq() + 1,
        );
        lemma_log_grew(old(storage), &held, storage, records);
    }
    Ok(true)
}


/// Replace the document that has the id of `entry` by `entry`: log the
/// update, forget the old document, append the new one, bring the table's
/// snapshot up to date, and take a checkpoint where one is due.
///
/// Fails, changing nothing, exactly as `update_refusal` says.
#[verifier::rlimit(30)]
pub fn replace<H: Host>(storage: &mut Collection, entry: Document, host: &H) -> (r: Result<
    DocId,
    PiramidError,
>)
    requires
        old(storage).wf(),
        old(storage).live().contains_key(entry.id),
    ensures
        match r {
            Ok(id) => {
                &&& id == entry.id
                &&& old(storage).update_refusal(entry@) is None
                &&& final(storage).wf()
                &&& final(storage).live() == old(storage).live().insert(entry.id, entry@)
                &&& final(storage).replaced(old(storage), entry@)
                &&& log_grew(
                    old(storage),
                    final(storage),
                    seq![WalEntryView::Update { doc: entry@, seq: old(storage).next_seq() }],
                )
                &&& final(storage).next_seq() > old(storage).next_seq()
                &&& final(storage).metadata.dimensions == old(storage).metadata.dimensions
                &&& final(storage).config == old(storage).config
                &&& final(storage).read_only == old(storage).read_only
                &&& old(storage).caches_consistent() ==> final(storage).caches_consistent()
                &&& non_overlapping(old(storage).store.index@) ==> non_overlapping(
                    final(storage).store.index@,
                )
            },
            Err(e) => {
                &&& old(storage).update_refusal(entry@) == Some(e)
                &&& *final(storage) == *old(storage)
            },
        },
{
    if storage.read_only {
        return Err(PiramidError::ReadOnlyMode);
    }
    let dim: usize = entry.vector.dim();
    if let Some(expected) = storage.metadata.dimensions {
        if expected != dim {
            return Err(PiramidError::DimensionMismatch { expected, actual: dim });
        }
    }
    let bytes = encode_document(&entry);
    if bytes.len() > u32::MAX as usize {
        return Err(PiramidError::LimitsExceeded(Limit::MaxVectorBytes));
    }
    if let Some(max) = storage.config.limits.max_vector_bytes {
        if bytes.len() > max {
            return Err(PiramidError::LimitsExceeded(Limit::MaxVectorBytes));
        }
    }
    let offset: u64 = storage.store.next_offset_without(entry.id);
    if let Some(max) = storage.config.limits.max_bytes {
        if bytes.len() as u64 > max || offset > max - bytes.len() as u64 {
            return Err(PiramidError::LimitsExceeded(Limit::MaxBytes));
        }
    }
    if storage.persistence.wal.next_seq >= u64::MAX - 1 {
        return Err(PiramidError::Io);
    }
    if bytes.len() as u64 > u64::MAX - offset {
        return Err(PiramidError::Io);
    }
    let end: u64 = offset + bytes.len() as u64;
    if end > storage.store.region.len() as u64 && end > (usize::MAX / 2) as u64 {
        return Err(PiramidError::Io);
    }
    let id = entry.id;
    let ghost pending = storage.pending()->Ok_0;
    let mut record = WalEntry::update_of(&entry);
    let logged = storage.persistence.wal.log(&mut record);
    assert(logged is Ok);
    proof {
        if old(storage).persistence.wal.enabled {
            lemma_replay_push(
                old(storage).persistence.wal@.lines,
                record@,
                storage.sidecars.wal_meta,
            );
        }
    }
    delete_internal(storage, id);
    let ghost between = *storage;
    let done = insert_encoded(storage, entry, bytes.as_slice(), host);
    assert(done is Ok);
    let ghost taken = *storage;
    proof {
        assert(taken.took(&between, entry@));
        assert(storage.vector_cache@.remove(id) =~= old(storage).vector_cache@.remove(id));
        assert(storage.metadata_cache@.remove(id) =~= old(storage).metadata_cache@.remove(id));
        assert(took_out(old(storage).vector_index, between.vector_index, id));
        assert(took_in(
            between.vector_index,
            storage.vector_index,
            id,
            storage.vector_cache@.dom(),
        ));
        assert(storage.replaced(old(storage), entry@));
        assert(storage.live() =~= old(storage).live().insert(id, entry@));
        if old(storage).persistence.wal.enabled {
            lemma_agrees_push(pending, old(storage).live(), record@);
        } else {
            crate::storage::recovery::lemma_agrees_empty(storage.live());
        }
    }
    save_index(storage);
    let ghost held = *storage;
    track_operation(storage, host);
    proof {
        let records = seq![WalEntryView::Update { doc: entry@, seq: old(storage).next_seq() }];
        lemma_seqs_below_more(
            old(storage).persistence.wal@.lines,
            old(storage).next_seq() as int,
            old(storage).next_seq() + 1,
        );
        lemma_seqs_below_push(
            old(storage).persistence.wal@.lines,
            records[0],
            old(storage).next_seq() + 1,
        );
        lemma_log_grew(old(storage), &held, storage, records);
    }
    Ok(id)
}

/// Insert a document, or replace the one that has its id.
///
/// Fails, changing nothing, exactly as `upsert_refusal` says.
pub fn upsert<H: Host>(storage: &mut Collection, entry: Document, host: &H) -> (r: Result<
    DocId,
    PiramidError,
>)
    requires
        old(storage).wf(),
    ensures
        match r {
            Ok(id) => {
                &&& id == entry.id
                &&& old(storage).upsert_refusal(entry@) is None
                &&& final(storage).wf()
                &&& final(storage).live() == old(storage).live().insert(entry.id, entry@)
                &&& if old(storage).live().contains_key(entry.id) {
                    final(storage).replaced(old(storage), entry@) && log_grew(
                        old(storage),
                        final(storage),
                        seq![WalEntryView::Update { doc: entry@, seq: old(storage).next_seq() }],
                    )
                } else {
                    final(storage).shelf() == old(storage).shelf().put(entry@)
                        && final(storage).took(old(storage), entry@) && log_grew(
                        old(storage),
                        final(storage),
                        seq![WalEntryView::Insert { doc: entry@, seq: old(storage).next_seq() }],
                    )
                }
                &&& final(storage).next_seq() > old(storage).next_seq()
                &&& final(storage).config == old(storage).config
                &&& final(storage).read_only == old(storage).read_only
                &&& old(storage).caches_consistent() ==> final(storage).caches_consistent()
                &&& non_overlapping(old(storage).store.index@) ==> non_overlapping(
                    final(storage).store.index@,
                )
            },
            Err(e) => {
                &&& old(storage).upsert_refusal(entry@) == Some(e)
                &&& *final(storage) == *old(storage)
            },
        },
{
    if storage.store.contains(entry.id) {
        replace(storage, entry, host)
    } else {
        insert(storage, entry, host)
    }
}

/// Give the document with the id `id` other metadata. Returns whether there
/// is such a document; where there is none, nothing changes.
///
/// Fails, changing nothing, exactly as `update_refusal` says of the document
/// with its new metadata.
pub fn update_metadata<H: Host>(
    storage: &mut Collection,
    id: DocId,
    metadata: Metadata,
    host: &H,
) -> (r: Result<bool, PiramidError>)
    requires
        old(storage).wf(),
    ensures
        match r {
            Ok(found) => {
                &&& found == old(storage).live().contains_key(id)
                &&& final(storage).wf()
                &&& final(storage).config == old(storage).config
                &&& final(storage).read_only == old(storage).read_only
                &&& old(storage).caches_consistent() ==> final(storage).caches_consistent()
                &&& if found {
                    let doc = DocumentView { metadata: metadata@, ..old(storage).live()[id] };
                    &&& old(storage).update_refusal(doc) is None
                    &&& final(storage).live() == old(storage).live().insert(id, doc)
                    &&& final(storage).replaced(old(storage), doc)
                    &&& log_grew(
                        old(storage),
                        final(storage),
                        seq![WalEntryView::Update { doc, seq: old(storage).next_seq() }],
                    )
                    &&& final(storage).next_seq() > old(storage).next_seq()
                } else {
                    *final(storage) == *old(storage)
                }
            },
            Err(e) => {
                &&& old(storage).live().contains_key(id)
                &&& old(storage).update_refusal(
                    DocumentView { metadata: metadata@, ..old(storage).live()[id] },
                ) == Some(e)
                &&& *final(storage) == *old(storage)
            },
        },
{
    match get(storage, id) {
        Some(entry) => {
            let updated = Document { id: entry.id, vector: entry.vector, text: entry.text, metadata };
            match replace(storage, updated, host) {
                Ok(_) => Ok(true),
                Err(e) => Err(e),
            }
        },
        None => Ok(false),
    }
}

/// Give the document with the id `id` another vector. Returns whether there
/// is such a document; where there is none, nothing changes.
///
/// Fails, changing nothing, exactly as `update_refusal` says of the document
/// with its new vector.
pub fn update_vector<H: Host>(
    storage: &mut Collection,
    id: DocId,
    vector: QuantizedVector,
    host: &H,
) -> (r: Result<bool, PiramidError>)
    requires
        old(storage).wf(),
    ensures
        match r {
            Ok(found) => {
                &&& found == old(storage).live().contains_key(id)
                &&& final(storage).wf()
                &&& final(storage).config == old(storage).config
                &&& final(storage).read_only == old(storage).read_only
                &&& old(storage).caches_consistent() ==> final(storage).caches_consistent()
                &&& if found {
                    let doc = DocumentView { vector: vector@, ..old(storage).live()[id] };
                    &&& old(storage).update_refusal(doc) is None
                    &&& final(storage).live() == old(storage).live().insert(id, doc)
                    &&& final(storage).replaced(old(storage), doc)
                    &&& log_grew(
                        old(storage),
                        final(storage),
                        seq![WalEntryView::Update { doc, seq: old(storage).next_seq() }],
                    )
                    &&& final(storage).next_seq() > old(storage).next_seq()
                } else {
                    *final(storage) == *old(storage)
                }
            },
            Err(e) => {
                &&& old(storage).live().contains_key(id)
                &&& old(storage).update_refusal(
                    DocumentView { vector: vector@, ..old(storage).live()[id] },
                ) == Some(e)
                &&& *final(storage) == *old(storage)
            },
        },
{
    match get(storage, id) {
        Some(entry) => {
            let updated = Document { id: entry.id, vector, text: entry.text, metadata: entry.metadata };
            match replace(storage, updated, host) {
                Ok(_) => Ok(true),
                Err(e) => Err(e),
            }
        },
        None => Ok(false),
    }
}

} // verus!
