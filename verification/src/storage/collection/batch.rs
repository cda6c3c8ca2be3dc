//! Operations on many documents at once: one pass over the log, one growth
//! of the region, then the changes in memory.

use vstd::prelude::*;
use crate::index::ann::{configured_as, took_in, AnnIndex};
use crate::storage::persistence::mmap::grown_len;
use crate::error::{Limit, PiramidError};
use crate::host::Host;
use crate::storage::codec::{decoded, enc_document, encode_document};
use crate::storage::collection::operations::{
    delete_internal, insert_encoded, lemma_log_grew, log_grew, track_operation,
};
use crate::storage::collection::persistence::save_index;
use crate::storage::collection::storage::Collection;
use crate::storage::document::{Document, DocumentView};
use crate::storage::persistence::index::{
    high_water, lemma_high_water_insert, non_overlapping,
};
use crate::storage::recovery::{
    agrees, apply_all, insert_all, lemma_agrees_empty, lemma_agrees_extend, lemma_apply_deletes,
    lemma_apply_inserts,
};
use crate::storage::wal::entry::{WalEntry, WalEntryView};
use crate::storage::wal::log::{
    lemma_replay_push, lemma_seqs_below_more, lemma_seqs_below_push, record_lines, seqs_below,
    WalLineView,
};
use crate::DocId;

verus! {

broadcast use vstd::std_specs::hash::group_hash_axioms;

/// The views of a sequence of documents.
pub open spec fn doc_views(s: Seq<Document>) -> Seq<DocumentView> {
    Seq::new(s.len(), |i: int| s[i]@)
}

/// The ids of a sequence of documents.
pub open spec fn doc_ids(s: Seq<DocumentView>) -> Seq<DocId> {
    Seq::new(s.len(), |i: int| s[i].id)
}

/// The number of bytes that the binary forms of the documents take.
pub open spec fn total_len(docs: Seq<DocumentView>) -> int
    decreases docs.len(),
{
    if docs.len() == 0 {
        0
    } else {
        total_len(docs.drop_last()) + enc_document(docs.last()).len()
    }
}

/// The dimension that a batch is held to: the collection's, or, where none
/// is set yet, that of the first document.
pub open spec fn batch_dim(dims: Option<usize>, docs: Seq<DocumentView>) -> int {
    match dims {
        Some(d) => d as int,
        None => if docs.len() > 0 {
            docs[0].vector.values.len() as int
        } else {
            0
        },
    }
}

/// Whether the document at `i` is the first whose vector has not `d`
/// components.
pub open spec fn is_first_mismatch(docs: Seq<DocumentView>, d: int, i: int) -> bool {
    &&& 0 <= i < docs.len()
    &&& docs[i].vector.values.len() != d
    &&& forall|j: int| 0 <= j < i ==> (#[trigger] docs[j]).vector.values.len() == d
}

/// Whether the binary form of `doc` is longer than a pointer can say or than
/// `limit` allows.
pub open spec fn oversize(limit: Option<usize>, doc: DocumentView) -> bool {
    enc_document(doc).len() > u32::MAX || (limit is Some && enc_document(doc).len() > limit->0)
}

impl Collection {
    /// Why `insert_batch` refuses a batch, if it does. In this order: the
    /// collection is read-only; some vector has another length than the
    /// batch is held to (the first such document is reported); the
    /// collection could not hold that many more documents; some binary form
    /// is too long; the data would outgrow the configured size; the log
    /// would run out of sequence numbers, or the region cannot grow.
    pub open spec fn batch_refusal(&self, docs: Seq<DocumentView>) -> Option<PiramidError> {
        let d = batch_dim(self.metadata.dimensions, docs);
        let end = high_water(self.store.index@) + total_len(docs);
        if self.read_only {
            Some(PiramidError::ReadOnlyMode)
        } else if exists|i: int| is_first_mismatch(docs, d, i) {
            let i = choose|i: int| is_first_mismatch(docs, d, i);
            Some(
                PiramidError::DimensionMismatch {
                    expected: d as usize,
                    actual: docs[i].vector.values.len() as usize,
                },
            )
        } else if self.config.limits.max_vectors is Some && self.live().dom().len() + docs.len()
            > self.config.limits.max_vectors->0 {
            Some(PiramidError::LimitsExceeded(Limit::MaxVectors))
        } else if exists|i: int|
            0 <= i < docs.len() && oversize(self.config.limits.max_vector_bytes, #[trigger] docs[i]) {
            Some(PiramidError::LimitsExceeded(Limit::MaxVectorBytes))
        } else if self.config.limits.max_bytes is Some && end > self.config.limits.max_bytes->0 {
            Some(PiramidError::LimitsExceeded(Limit::MaxBytes))
        } else if self.next_seq() + docs.len() >= u64::MAX {
            Some(PiramidError::Io)
        } else if end > u64::MAX || (end > self.store.region@.len() && 2 * end > usize::MAX) {
            Some(PiramidError::Io)
        } else {
            None
        }
    }

    /// Why `delete_batch` refuses, if it does: some id is present, and the
    /// collection is read-only or the log would run out of sequence numbers.
    pub open spec fn delete_batch_refusal(&self, ids: Seq<DocId>) -> Option<PiramidError> {
        if !(exists|i: int| 0 <= i < ids.len() && self.live().contains_key(#[trigger] ids[i])) {
            None
        } else if self.read_only {
            Some(PiramidError::ReadOnlyMode)
        } else if self.next_seq() + ids.len() >= u64::MAX {
            Some(PiramidError::Io)
        } else {
            None
        }
    }
}

/// The first mismatch is unique.
proof fn lemma_first_mismatch_unique(docs: Seq<DocumentView>, d: int, i: int, j: int)
    requires
        is_first_mismatch(docs, d, i),
        is_first_mismatch(docs, d, j),
    ensures
        i == j,
{
    if i < j {
        assert(docs[i].vector.values.len() == d);
    } else if j < i {
        assert(docs[j].vector.values.len() == d);
    }
}

/// The index of the first document whose vector has not `expected`
/// components.
fn check_dimensions(entries: &Vec<Document>, expected: usize) -> (r: Option<usize>)
    ensures
        match r {
            Some(i) => is_first_mismatch(doc_views(entries@), expected as int, i as int),
            None => forall|i: int|
                0 <= i < entries@.len() ==> (#[trigger] doc_views(entries@)[i]).vector.values.len()
                    == expected,
        },
{
    let mut i: usize = 0;
    while i < entries.len()
        invariant
            i <= entries.len(),
            forall|j: int|
                0 <= j < i ==> (#[trigger] doc_views(entries@)[j]).vector.values.len() == expected,
        decreases entries.len() - i,
    {
        if entries[i].vector.dim() != expected {
            return Some(i);
        }
        i += 1;
    }
    None
}

/// The binary forms of the documents and their total length, or nothing
/// where one of them is too long.
fn encode_all(entries: &Vec<Document>, limit: Option<usize>) -> (r: Option<(Vec<Vec<u8>>, u128)>)
    ensures
        match r {
            Some((forms, total)) => {
                &&& forms@.len() == entries@.len()
                &&& forall|i: int|
                    0 <= i < entries@.len() ==> (#[trigger] forms@[i])@ == enc_document(entries@[i]@)
                        && decoded(forms@[i]@) == Some(entries@[i]@)
                &&& forall|i: int|
                    0 <= i < entries@.len() ==> !oversize(limit, #[trigger] doc_views(entries@)[i])
                &&& total == total_len(doc_views(entries@))
            },
            None => exists|i: int|
                0 <= i < entries@.len() && oversize(limit, #[trigger] doc_views(entries@)[i]),
        },
{
    let ghost docs = doc_views(entries@);
    let mut forms: Vec<Vec<u8>> = Vec::new();
    let mut total: u128 = 0;
    let mut i: usize = 0;
    assert(docs.take(0) =~= Seq::<DocumentView>::empty());
    while i < entries.len()
        invariant
            i <= entries.len(),
            docs == doc_views(entries@),
            forms@.len() == i,
            forall|j: int|
                0 <= j < i ==> (#[trigger] forms@[j])@ == enc_document(entries@[j]@) && decoded(
                    forms@[j]@,
                ) == Some(entries@[j]@),
            forall|j: int| 0 <= j < i ==> !oversize(limit, #[trigger] docs[j]),
            total == total_len(docs.take(i as int)),
            total <= i * 0x1_0000_0000,
        decreases entries.len() - i,
    {
        let bytes = encode_document(&entries[i]);
        let too_long: bool = bytes.len() > u32::MAX as usize || match limit {
            Some(max) => bytes.len() > max,
            None => false,
        };
        if too_long {
            assert(oversize(limit, docs[i as int]));
            return None;
        }
        proof {
            let next = docs.take(i + 1);
            assert(next.drop_last() =~= docs.take(i as int));
            assert(next.last() == docs[i as int]);
        }
        total = total + bytes.len() as u128;
        forms.push(bytes);
        i += 1;
    }
    assert(docs.take(entries.len() as int) =~= docs);
    Some((forms, total))
}

/// Whether `records` are the insert records of `docs`, numbered from `first`.
pub open spec fn inserts_of(records: Seq<WalEntryView>, docs: Seq<DocumentView>, first: int) -> bool {
    &&& records.len() == docs.len()
    &&& forall|i: int|
        0 <= i < docs.len() ==> #[trigger] records[i] == (WalEntryView::Insert {
            doc: docs[i],
            seq: (first + i) as u64,
        })
}

/// The insert records of `docs`, numbered from `first`.
pub open spec fn insert_records(docs: Seq<DocumentView>, first: int) -> Seq<WalEntryView> {
    Seq::new(docs.len(), |i: int| WalEntryView::Insert { doc: docs[i], seq: (first + i) as u64 })
}

/// The delete records of those of `ids` that are live, in the order of the
/// ids and numbered from `first`; an id that comes twice has two records.
pub open spec fn delete_records(ids: Seq<DocId>, live: Set<DocId>, first: int) -> Seq<WalEntryView>
    decreases ids.len(),
{
    if ids.len() == 0 {
        Seq::empty()
    } else if live.contains(ids.last()) {
        delete_records(ids.drop_last(), live, first).push(
            WalEntryView::Delete {
                id: ids.last(),
                seq: (first + delete_records(ids.drop_last(), live, first).len()) as u64,
            },
        )
    } else {
        delete_records(ids.drop_last(), live, first)
    }
}

/// Log the insertion of every document of a batch.
fn log_inserts(storage: &mut Collection, entries: &Vec<Document>) -> (r: Ghost<Seq<WalEntryView>>)
    requires
        old(storage).pending() is Ok,
        old(storage).sidecars.wal_meta < old(storage).next_seq(),
        old(storage).next_seq() + entries@.len() < u64::MAX,
    ensures
        inserts_of(r@, doc_views(entries@), old(storage).next_seq() as int),
        r@ == insert_records(doc_views(entries@), old(storage).next_seq() as int),
        final(storage).persistence.wal@.lines == if old(storage).persistence.wal.enabled {
            old(storage).persistence.wal@.lines + record_lines(r@)
        } else {
            old(storage).persistence.wal@.lines
        },
        seqs_below(old(storage).persistence.wal@.lines, old(storage).next_seq() as int)
            ==> seqs_below(final(storage).persistence.wal@.lines, final(storage).next_seq() as int),
        final(storage).next_seq() == old(storage).next_seq() + entries@.len(),
        final(storage).pending() == Ok::<Seq<WalEntryView>, PiramidError>(
            if old(storage).persistence.wal.enabled {
                old(storage).pending()->Ok_0 + r@
            } else {
                Seq::<WalEntryView>::empty()
            },
        ),
        final(storage).persistence.wal.enabled == old(storage).persistence.wal.enabled,
        final(storage).persistence.operation_count == old(storage).persistence.operation_count,
        final(storage).persistence.last_checkpoint_ts == old(storage).persistence.last_checkpoint_ts,
        final(storage).store == old(storage).store,
        final(storage).vector_index == old(storage).vector_index,
        final(storage).vector_cache == old(storage).vector_cache,
        final(storage).metadata_cache == old(storage).metadata_cache,
        final(storage).config == old(storage).config,
        final(storage).metadata == old(storage).metadata,
        final(storage).sidecars == old(storage).sidecars,
        final(storage).read_only == old(storage).read_only,
{
    let ghost docs = doc_views(entries@);
    let ghost first = storage.next_seq() as int;
    let ghost before = storage.pending()->Ok_0;
    let ghost mut records = Seq::<WalEntryView>::empty();
    let mut i: usize = 0;
    assert(before + records =~= before);
    assert(storage.persistence.wal@.lines + record_lines(records)
        =~= storage.persistence.wal@.lines);
    while i < entries.len()
        invariant
            i <= entries.len(),
            docs == doc_views(entries@),
            first == old(storage).next_seq(),
            first + entries@.len() < u64::MAX,
            before == old(storage).pending()->Ok_0,
            records.len() == i,
            forall|j: int|
                0 <= j < i ==> #[trigger] records[j] == (WalEntryView::Insert {
                    doc: docs[j],
                    seq: (first + j) as u64,
                }),
            storage.next_seq() == first + i,
            storage.persistence.wal@.lines == if old(storage).persistence.wal.enabled {
                old(storage).persistence.wal@.lines + record_lines(records)
            } else {
                old(storage).persistence.wal@.lines
            },
            seqs_below(old(storage).persistence.wal@.lines, old(storage).next_seq() as int)
                ==> seqs_below(storage.persistence.wal@.lines, storage.next_seq() as int),
            storage.sidecars.wal_meta < storage.next_seq(),
            storage.pending() == Ok::<Seq<WalEntryView>, PiramidError>(
                if old(storage).persistence.wal.enabled {
                    before + records
                } else {
                    Seq::<WalEntryView>::empty()
                },
            ),
            storage.persistence.wal.enabled == old(storage).persistence.wal.enabled,
            storage.persistence.operation_count == old(storage).persistence.operation_count,
            storage.persistence.last_checkpoint_ts == old(storage).persistence.last_checkpoint_ts,
            storage.store == old(storage).store,
            storage.vector_index == old(storage).vector_index,
            storage.vector_cache == old(storage).vector_cache,
            storage.metadata_cache == old(storage).metadata_cache,
            storage.config == old(storage).config,
            storage.metadata == old(storage).metadata,
            storage.sidecars == old(storage).sidecars,
            storage.read_only == old(storage).read_only,
        decreases entries.len() - i,
    {
        let ghost lines = storage.persistence.wal@.lines;
        let mut record = WalEntry::insert_of(&entries[i]);
        let logged = storage.persistence.wal.log(&mut record);
        assert(logged is Ok);
        proof {
            if old(storage).persistence.wal.enabled {
                lemma_replay_push(lines, record@, storage.sidecars.wal_meta);
                assert((before + records).push(record@) =~= before + records.push(record@));
                assert(lines.push(WalLineView::Record(record@)) =~= old(
                    storage,
                ).persistence.wal@.lines + record_lines(records.push(record@)));
            }
            if seqs_below(old(storage).persistence.wal@.lines, old(storage).next_seq() as int) {
                lemma_seqs_below_more(lines, first + i, first + i + 1);
                lemma_seqs_below_push(lines, record@, first + i + 1);
            }
            records = records.push(record@);
        }
        i += 1;
    }
    proof {
        assert(records =~= insert_records(docs, first));
    }
    Ghost(records)
}

/// Whether the index `after` is `before` with the documents taken in: it
/// is of the same kind and under the same configuration, and a graph that
/// had slots left for all of them holds each as a live node and has no
/// more nodes than it had and there are documents.
pub open spec fn indexed_all(before: AnnIndex, after: AnnIndex, docs: Seq<DocumentView>) -> bool {
    &&& configured_as(before, after)
    &&& match (before, after) {
        (AnnIndex::Hnsw(a), AnnIndex::Hnsw(b)) => a.nodes@.len() <= b.nodes@.len() <= a.nodes@.len()
            + docs.len() && (a.nodes@.len() + docs.len() < usize::MAX ==> forall|j: int|
            0 <= j < docs.len() ==> b.has_live((#[trigger] docs[j]).id)),
        _ => true,
    }
}

/// An index that took documents in, and then one more, took them all in.
proof fn lemma_indexed_step(
    first: AnnIndex,
    before: AnnIndex,
    after: AnnIndex,
    docs: Seq<DocumentView>,
    doc: DocumentView,
    vectors: Set<DocId>,
)
    requires
        indexed_all(first, before, docs),
        took_in(before, after, doc.id, vectors),
    ensures
        indexed_all(first, after, docs.push(doc)),
{
    let next = docs.push(doc);
    if after is Hnsw {
        let a = first->Hnsw_0;
        let m = before->Hnsw_0;
        let b = after->Hnsw_0;
        if a.nodes@.len() + next.len() < usize::MAX {
            assert forall|j: int| 0 <= j < next.len() implies b.has_live((#[trigger] next[j]).id) by {
                if j < docs.len() {
                    assert(next[j] == docs[j]);
                    assert(m.has_live(docs[j].id));
                }
            }
        }
    }
}

/// Put every document of a batch into the store, the caches and the index.
#[verifier::spinoff_prover]
#[verifier::rlimit(40)]
/// The region has room for all of them.
fn admit_all<H: Host>(
    storage: &mut Collection,
    entries: &Vec<Document>,
    forms: &Vec<Vec<u8>>,
    host: &H,
)
    requires
        old(storage).inner_wf(),
        forms@.len() == entries@.len(),
        forall|i: int|
            0 <= i < entries@.len() ==> (#[trigger] forms@[i])@ == enc_document(entries@[i]@)
                && decoded(forms@[i]@) == Some(entries@[i]@) && forms@[i]@.len() <= u32::MAX,
        forall|i: int|
            0 <= i < entries@.len() ==> (#[trigger] doc_views(entries@)[i]).vector.values.len()
                == batch_dim(old(storage).metadata.dimensions, doc_views(entries@)),
        high_water(old(storage).store.index@) + total_len(doc_views(entries@)) <= old(storage).store.region@.len(),
    ensures
        final(storage).inner_wf(),
        final(storage).live() == insert_all(old(storage).live(), doc_views(entries@)),
        final(storage).shelf().table == old(storage).shelf().put_all(doc_views(entries@)).table,
        final(storage).shelf().dims == old(storage).shelf().put_all(doc_views(entries@)).dims,
        final(storage).store.region@.len() == old(storage).store.region@.len(),
        indexed_all(old(storage).vector_index, final(storage).vector_index, doc_views(entries@)),
        old(storage).metadata.dimensions is Some ==> final(storage).metadata.dimensions == old(storage).metadata.dimensions,
        final(storage).metadata.name == old(storage).metadata.name,
        final(storage).metadata.schema_version == old(storage).metadata.schema_version,
        final(storage).config == old(storage).config,
        final(storage).persistence == old(storage).persistence,
        final(storage).sidecars == old(storage).sidecars,
        final(storage).read_only == old(storage).read_only,
        old(storage).caches_consistent() ==> final(storage).caches_consistent(),
        non_overlapping(old(storage).store.index@) ==> non_overlapping(final(storage).store.index@),
{
    let ghost docs = doc_views(entries@);
    let ghost d = batch_dim(storage.metadata.dimensions, docs);
    let ghost start = high_water(storage.store.index@);
    let ghost room = storage.store.region@.len();
    let mut i: usize = 0;
    assert(docs.take(0) =~= Seq::<DocumentView>::empty());
    while i < entries.len()
        invariant
            i <= entries.len(),
            docs == doc_views(entries@),
            forms@.len() == entries@.len(),
            forall|j: int|
                0 <= j < entries@.len() ==> (#[trigger] forms@[j])@ == enc_document(entries@[j]@)
                    && decoded(forms@[j]@) == Some(entries@[j]@) && forms@[j]@.len() <= u32::MAX,
            forall|j: int| 0 <= j < entries@.len() ==> (#[trigger] docs[j]).vector.values.len() == d,
            storage.inner_wf(),
            storage.live() == insert_all(old(storage).live(), docs.take(i as int)),
            storage.shelf().table == old(storage).shelf().put_all(docs.take(i as int)).table,
            storage.shelf().dims == old(storage).shelf().put_all(docs.take(i as int)).dims,
            indexed_all(old(storage).vector_index, storage.vector_index, docs.take(i as int)),
            high_water(storage.store.index@) == start + total_len(docs.take(i as int)),
            storage.store.region@.len() == room,
            start + total_len(docs) <= room,
            storage.metadata.dimensions is Some ==> storage.metadata.dimensions->0 == d,
            old(storage).metadata.dimensions is Some ==> storage.metadata.dimensions == old(storage).metadata.dimensions,
            storage.metadata.name == old(storage).metadata.name,
            storage.metadata.schema_version == old(storage).metadata.schema_version,
            storage.config == old(storage).config,
            storage.persistence == old(storage).persistence,
            storage.sidecars == old(storage).sidecars,
            storage.read_only == old(storage).read_only,
            old(storage).caches_consistent() ==> storage.caches_consistent(),
            non_overlapping(old(storage).store.index@) ==> non_overlapping(storage.store.index@),
        decreases entries.len() - i,
    {
        proof {
            let next = docs.take(i + 1);
            assert(next.drop_last() =~= docs.take(i as int));
            assert(next.last() == docs[i as int]);
            lemma_total_len_monotone(docs, i + 1);
            storage.store.lemma_has_high_water();
            assert(docs[i as int] == entries@[i as int]@);
            assert(total_len(next) == total_len(docs.take(i as int)) + enc_document(
                docs[i as int],
            ).len());
            assert(forms@[i as int]@.len() == enc_document(docs[i as int]).len());
        }
        let ghost table = storage.store.index@;
        let ghost index_before = storage.vector_index;
        let capacity: usize = storage.store.region.len();
        let entry = entries[i].duplicate();
        let done = insert_encoded(storage, entry, forms[i].as_slice(), host);
        assert(done is Ok);
        proof {
            lemma_indexed_step(
                old(storage).vector_index,
                index_before,
                storage.vector_index,
                docs.take(i as int),
                docs[i as int],
                storage.vector_cache@.dom(),
            );
            assert(docs.take(i + 1) =~= docs.take(i as int).push(docs[i as int]));
            lemma_high_water_insert(table, entries@[i as int].id, storage.store.index@[entries@[i as int].id]);
        }
        i += 1;
    }
    assert(docs.take(entries.len() as int) =~= docs);
}

/// The forms of the first documents of a batch take no more room than those
/// of all of them.
proof fn lemma_total_len_monotone(docs: Seq<DocumentView>, k: int)
    requires
        0 <= k <= docs.len(),
    ensures
        0 <= total_len(docs.take(k)) <= total_len(docs),
    decreases docs.len() - k,
{
    if k == docs.len() {
        assert(docs.take(k) =~= docs);
        lemma_total_len_nonnegative(docs);
    } else {
        let next = docs.take(k + 1);
        assert(next.drop_last() =~= docs.take(k));
        lemma_total_len_monotone(docs, k + 1);
        lemma_total_len_nonnegative(docs.take(k));
    }
}

proof fn lemma_total_len_nonnegative(docs: Seq<DocumentView>)
    ensures
        0 <= total_len(docs),
    decreases docs.len(),
{
    if docs.len() > 0 {
        lemma_total_len_nonnegative(docs.drop_last());
    }
}

/// Insert a batch of documents: log every one of them, make room for all of
/// them at once, append them in order, each behind the one before it from
/// the old end of the documents on, bring the table's snapshot up to
/// date, and take a checkpoint where one is due. Later documents of the
/// batch replace earlier ones with the same id. Returns the ids in the order
/// of the batch.
///
/// Fails, changing nothing, exactly as `batch_refusal` says.
pub fn insert_batch<H: Host>(storage: &mut Collection, entries: Vec<Document>, host: &H) -> (r:
    Result<Vec<DocId>, PiramidError>)
    requires
        old(storage).wf(),
    ensures
        match r {
            Ok(ids) => {
                &&& ids@ == doc_ids(doc_views(entries@))
                &&& old(storage).batch_refusal(doc_views(entries@)) is None
                &&& final(storage).wf()
                &&& final(storage).live() == insert_all(old(storage).live(), doc_views(entries@))
                &&& final(storage).shelf().table == old(storage).shelf().put_all(
                    doc_views(entries@),
                ).table
                &&& final(storage).shelf().dims == old(storage).shelf().put_all(
                    doc_views(entries@),
                ).dims
                &&& final(storage).store.region@.len() == grown_len(
                    old(storage).store.region@.len() as int,
                    high_water(old(storage).store.index@) + total_len(doc_views(entries@)),
                )
                &&& indexed_all(
                    old(storage).vector_index,
                    final(storage).vector_index,
                    doc_views(entries@),
                )
                &&& log_grew(
                    old(storage),
                    final(storage),
                    insert_records(doc_views(entries@), old(storage).next_seq() as int),
                )
                &&& final(storage).next_seq() >= old(storage).next_seq() + entries@.len()
                &&& final(storage).config == old(storage).config
                &&& final(storage).read_only == old(storage).read_only
                &&& old(storage).caches_consistent() ==> final(storage).caches_consistent()
                &&& non_overlapping(old(storage).store.index@) ==> non_overlapping(
                    final(storage).store.index@,
                )
            },
            Err(e) => {
                &&& old(storage).batch_refusal(doc_views(entries@)) == Some(e)
                &&& *final(storage) == *old(storage)
            },
        },
{
    let ghost docs = doc_views(entries@);
    let n: usize = entries.len();
    if storage.read_only {
        return Err(PiramidError::ReadOnlyMode);
    }
    let expected: usize = match storage.metadata.dimensions {
        Some(d) => d,
        None => if n > 0 {
            entries[0].vector.dim()
        } else {
            0
        },
    };
    assert(expected == batch_dim(storage.metadata.dimensions, docs));
    match check_dimensions(&entries, expected) {
        Some(i) => {
            proof {
                let c = choose|c: int| is_first_mismatch(docs, expected as int, c);
                lemma_first_mismatch_unique(docs, expected as int, i as int, c);
            }
            return Err(
                PiramidError::DimensionMismatch { expected, actual: entries[i].vector.dim() },
            );
        },
        None => {},
    }
    let count: usize = storage.store.len();
    if let Some(max) = storage.config.limits.max_vectors {
        if n > max || count > max - n {
            return Err(PiramidError::LimitsExceeded(Limit::MaxVectors));
        }
    }
    let (forms, total) = match encode_all(&entries, storage.config.limits.max_vector_bytes) {
        Some(t) => t,
        None => { return Err(PiramidError::LimitsExceeded(Limit::MaxVectorBytes)); },
    };
    let offset: u64 = storage.store.next_offset();
    proof {
        lemma_total_len_nonnegative(docs);
    }
    assert(total <= n * 0x1_0000_0000) by {
        lemma_total_len_bound(docs, storage.config.limits.max_vector_bytes);
    }
    let end: u128 = offset as u128 + total;
    if let Some(max) = storage.config.limits.max_bytes {
        if end > max as u128 {
            return Err(PiramidError::LimitsExceeded(Limit::MaxBytes));
        }
    }
    if storage.persistence.wal.next_seq as u128 + n as u128 >= u64::MAX as u128 {
        return Err(PiramidError::Io);
    }
    if end > u64::MAX as u128 || (end > storage.store.region.len() as u128 && end > (usize::MAX
        / 2) as u128) {
        return Err(PiramidError::Io);
    }
    let ghost pending = storage.pending()->Ok_0;
    let records = log_inserts(storage, &entries);
    let room = storage.store.reserve(end as u64);
    assert(room is Ok);
    proof {
        assert forall|i: int| 0 <= i < entries@.len() implies (#[trigger] forms@[i])@.len()
            <= u32::MAX by {
            assert(!oversize(storage.config.limits.max_vector_bytes, doc_views(entries@)[i]));
        }
    }
    let ghost roomy = storage.shelf();
    admit_all(storage, &entries, &forms, host);
    proof {
        roomy.lemma_put_all_table(old(storage).shelf(), docs);
        lemma_apply_inserts(old(storage).live(), docs, records@);
        if old(storage).persistence.wal.enabled {
            lemma_agrees_extend(pending, old(storage).live(), records@);
        } else {
            lemma_agrees_empty(storage.live());
        }
    }
    save_index(storage);
    let ghost held = *storage;
    track_operation(storage, host);
    proof {
        lemma_log_grew(old(storage), &held, storage, records@);
    }
    let mut ids: Vec<DocId> = Vec::new();
    let mut i: usize = 0;
    while i < n
        invariant
            i <= n,
            n == entries@.len(),
            ids@ == doc_ids(doc_views(entries@)).take(i as int),
        decreases n - i,
    {
        ids.push(entries[i].id);
        assert(ids@ =~= doc_ids(doc_views(entries@)).take(i + 1));
        i += 1;
    }
    assert(ids@ =~= doc_ids(doc_views(entries@)));
    Ok(ids)
}

/// Forms that are not oversize take at most 2^32 bytes each.
proof fn lemma_total_len_bound(docs: Seq<DocumentView>, limit: Option<usize>)
    requires
        forall|i: int| 0 <= i < docs.len() ==> !oversize(limit, #[trigger] docs[i]),
    ensures
        total_len(docs) <= docs.len() * 0x1_0000_0000,
    decreases docs.len(),
{
    if docs.len() > 0 {
        let init = docs.drop_last();
        assert forall|i: int| 0 <= i < init.len() implies !oversize(limit, #[trigger] init[i]) by {
            assert(init[i] == docs[i]);
        }
        lemma_total_len_bound(init, limit);
        assert(!oversize(limit, docs[docs.len() - 1]));
    }
}


/// Whether `records` are deletions of ids of `ids` that are live, one at
/// least for each such id.
#[verifier::opaque]
pub open spec fn deletes_cover(
    records: Seq<WalEntryView>,
    ids: Seq<DocId>,
    live: Map<DocId, DocumentView>,
) -> bool {
    &&& forall|k: int|
        0 <= k < records.len() ==> (#[trigger] records[k] matches WalEntryView::Delete { id, .. }
            && ids.contains(id) && live.contains_key(id))
    &&& forall|i: int|
        0 <= i < ids.len() && live.contains_key(#[trigger] ids[i]) ==> exists|k: int|
            0 <= k < records.len() && (#[trigger] records[k]).subject() == Some(ids[i])
}

/// Log the deletion of every id of `ids` that the collection holds.
fn log_deletes(storage: &mut Collection, ids: &Vec<DocId>) -> (r: Ghost<Seq<WalEntryView>>)
    requires
        old(storage).inner_wf(),
        old(storage).pending() is Ok,
        old(storage).sidecars.wal_meta < old(storage).next_seq(),
        old(storage).next_seq() + ids@.len() < u64::MAX,
    ensures
        deletes_cover(r@, ids@, old(storage).live()),
        r@ == delete_records(ids@, old(storage).live().dom(), old(storage).next_seq() as int),
        final(storage).next_seq() == old(storage).next_seq() + r@.len(),
        final(storage).persistence.wal@.lines == if old(storage).persistence.wal.enabled {
            old(storage).persistence.wal@.lines + record_lines(r@)
        } else {
            old(storage).persistence.wal@.lines
        },
        seqs_below(old(storage).persistence.wal@.lines, old(storage).next_seq() as int)
            ==> seqs_below(final(storage).persistence.wal@.lines, final(storage).next_seq() as int),
        old(storage).next_seq() <= final(storage).next_seq() <= old(storage).next_seq() + ids@.len(),
        (exists|i: int| 0 <= i < ids@.len() && old(storage).live().contains_key(#[trigger] ids@[i]))
            ==> final(storage).next_seq() > old(storage).next_seq(),
        final(storage).pending() == Ok::<Seq<WalEntryView>, PiramidError>(
            if old(storage).persistence.wal.enabled {
                old(storage).pending()->Ok_0 + r@
            } else {
                Seq::<WalEntryView>::empty()
            },
        ),
        final(storage).persistence.wal.enabled == old(storage).persistence.wal.enabled,
        final(storage).persistence.operation_count == old(storage).persistence.operation_count,
        final(storage).persistence.last_checkpoint_ts == old(storage).persistence.last_checkpoint_ts,
        final(storage).store == old(storage).store,
        final(storage).vector_index == old(storage).vector_index,
        final(storage).vector_cache == old(storage).vector_cache,
        final(storage).metadata_cache == old(storage).metadata_cache,
        final(storage).config == old(storage).config,
        final(storage).metadata == old(storage).metadata,
        final(storage).sidecars == old(storage).sidecars,
        final(storage).read_only == old(storage).read_only,
{
    let ghost first = storage.next_seq() as int;
    let ghost before = storage.pending()->Ok_0;
    let ghost live = storage.live().dom();
    let ghost mut records = Seq::<WalEntryView>::empty();
    let mut i: usize = 0;
    assert(before + records =~= before);
    assert(storage.persistence.wal@.lines + record_lines(records)
        =~= storage.persistence.wal@.lines);
    assert(ids@.take(0) =~= Seq::<DocId>::empty());
    while i < ids.len()
        invariant
            i <= ids.len(),
            first == old(storage).next_seq(),
            first + ids@.len() < u64::MAX,
            before == old(storage).pending()->Ok_0,
            live == old(storage).live().dom(),
            old(storage).inner_wf(),
            records.len() <= i,
            records == delete_records(ids@.take(i as int), live, first),
            storage.next_seq() == first + records.len(),
            storage.persistence.wal@.lines == if old(storage).persistence.wal.enabled {
                old(storage).persistence.wal@.lines + record_lines(records)
            } else {
                old(storage).persistence.wal@.lines
            },
            seqs_below(old(storage).persistence.wal@.lines, old(storage).next_seq() as int)
                ==> seqs_below(storage.persistence.wal@.lines, storage.next_seq() as int),
            storage.sidecars.wal_meta < storage.next_seq(),
            storage.pending() == Ok::<Seq<WalEntryView>, PiramidError>(
                if old(storage).persistence.wal.enabled {
                    before + records
                } else {
                    Seq::<WalEntryView>::empty()
                },
            ),
            storage.persistence.wal.enabled == old(storage).persistence.wal.enabled,
            storage.persistence.operation_count == old(storage).persistence.operation_count,
            storage.persistence.last_checkpoint_ts == old(storage).persistence.last_checkpoint_ts,
            storage.store == old(storage).store,
            storage.vector_index == old(storage).vector_index,
            storage.vector_cache == old(storage).vector_cache,
            storage.metadata_cache == old(storage).metadata_cache,
            storage.config == old(storage).config,
            storage.metadata == old(storage).metadata,
            storage.sidecars == old(storage).sidecars,
            storage.read_only == old(storage).read_only,
        decreases ids.len() - i,
    {
        let id = ids[i];
        proof {
            let next = ids@.take(i + 1);
            assert(next.drop_last() =~= ids@.take(i as int));
            assert(next.last() == id);
        }
        if storage.store.contains(id) {
            let ghost lines = storage.persistence.wal@.lines;
            let ghost earlier = records;
            let mut record = WalEntry::Delete { id, seq: 0 };
            let logged = storage.persistence.wal.log(&mut record);
            assert(logged is Ok);
            proof {
                if old(storage).persistence.wal.enabled {
                    lemma_replay_push(lines, record@, storage.sidecars.wal_meta);
                    assert((before + records).push(record@) =~= before + records.push(record@));
                    assert(lines.push(WalLineView::Record(record@)) =~= old(
                        storage,
                    ).persistence.wal@.lines + record_lines(records.push(record@)));
                }
                if seqs_below(old(storage).persistence.wal@.lines, old(storage).next_seq() as int) {
                    lemma_seqs_below_more(lines, first + earlier.len(), first + earlier.len() + 1);
                    lemma_seqs_below_push(lines, record@, first + earlier.len() + 1);
                }
                records = records.push(record@);
            }
        }
        i += 1;
    }
    proof {
        assert(ids@.take(ids.len() as int) =~= ids@);
        lemma_delete_records(ids@, old(storage).live(), first);
    }
    Ghost(records)
}

/// Whether the record deletes one of `ids` that is live.
#[verifier::opaque]
pub open spec fn deletes_one(e: WalEntryView, ids: Seq<DocId>, live: Set<DocId>) -> bool {
    e matches WalEntryView::Delete { id, .. } && ids.contains(id) && live.contains(id)
}

/// The delete records of ids are no more than the ids, and there is one
/// where one of the ids is live.
proof fn lemma_delete_records_len(ids: Seq<DocId>, live: Set<DocId>, first: int)
    ensures
        delete_records(ids, live, first).len() <= ids.len(),
        (exists|i: int| 0 <= i < ids.len() && live.contains(#[trigger] ids[i])) ==> delete_records(
            ids,
            live,
            first,
        ).len() > 0,
    decreases ids.len(),
{
    if ids.len() > 0 {
        let init = ids.drop_last();
        lemma_delete_records_len(init, live, first);
        assert(ids.last() == ids[ids.len() - 1]);
        if exists|i: int| 0 <= i < ids.len() && live.contains(#[trigger] ids[i]) {
            let i = choose|i: int| 0 <= i < ids.len() && live.contains(#[trigger] ids[i]);
            if i < init.len() {
                assert(init[i] == ids[i]);
            }
        }
    }
}

/// Each delete record of ids deletes one of them that is live.
proof fn lemma_delete_records_sound(ids: Seq<DocId>, live: Set<DocId>, first: int)
    ensures
        forall|k: int|
            0 <= k < delete_records(ids, live, first).len() ==> deletes_one(
                #[trigger] delete_records(ids, live, first)[k],
                ids,
                live,
            ),
    decreases ids.len(),
{
    let records = delete_records(ids, live, first);
    if ids.len() > 0 {
        let init = ids.drop_last();
        let rest = delete_records(init, live, first);
        lemma_delete_records_sound(init, live, first);
        assert(ids.last() == ids[ids.len() - 1]);
        assert forall|k: int| 0 <= k < records.len() implies deletes_one(
            #[trigger] records[k],
            ids,
            live,
        ) by {
            reveal(deletes_one);
            if k < rest.len() {
                assert(records[k] == rest[k]);
                assert(deletes_one(rest[k], init, live));
                let id = rest[k]->Delete_id;
                let j = choose|j: int| 0 <= j < init.len() && init[j] == id;
                assert(ids[j] == id);
            }
        }
    }
}

/// Each live id of ids has a delete record.
proof fn lemma_delete_records_cover(ids: Seq<DocId>, live: Set<DocId>, first: int)
    ensures
        forall|i: int|
            0 <= i < ids.len() && live.contains(#[trigger] ids[i]) ==> has_record(
                delete_records(ids, live, first),
                ids[i],
            ),
    decreases ids.len(),
{
    let records = delete_records(ids, live, first);
    if ids.len() > 0 {
        let init = ids.drop_last();
        let rest = delete_records(init, live, first);
        lemma_delete_records_cover(init, live, first);
        assert(ids.last() == ids[ids.len() - 1]);
        assert forall|i: int| 0 <= i < ids.len() && live.contains(
            #[trigger] ids[i],
        ) implies has_record(records, ids[i]) by {
            reveal(has_record);
            if i < init.len() {
                assert(init[i] == ids[i]);
                assert(has_record(rest, init[i]));
                let k = choose|k: int|
                    0 <= k < rest.len() && (#[trigger] rest[k]).subject() == Some(init[i]);
                assert(records[k] == rest[k]);
            } else {
                assert(records[rest.len() as int].subject() == Some(ids[i]));
            }
        }
    }
}

/// Whether one of the records is about `id`.
#[verifier::opaque]
pub open spec fn has_record(records: Seq<WalEntryView>, id: DocId) -> bool {
    exists|k: int| 0 <= k < records.len() && (#[trigger] records[k]).subject() == Some(id)
}

/// The delete records of ids are deletions of live ids among them, one at
/// least for each such id, and no more than there are ids.
proof fn lemma_delete_records(ids: Seq<DocId>, live: Map<DocId, DocumentView>, first: int)
    ensures
        deletes_cover(delete_records(ids, live.dom(), first), ids, live),
        delete_records(ids, live.dom(), first).len() <= ids.len(),
        (exists|i: int| 0 <= i < ids.len() && live.contains_key(#[trigger] ids[i]))
            ==> delete_records(ids, live.dom(), first).len() > 0,
{
    let records = delete_records(ids, live.dom(), first);
    lemma_delete_records_len(ids, live.dom(), first);
    if exists|i: int| 0 <= i < ids.len() && live.contains_key(#[trigger] ids[i]) {
        let i = choose|i: int| 0 <= i < ids.len() && live.contains_key(#[trigger] ids[i]);
        assert(live.dom().contains(ids[i]));
    }
    lemma_delete_records_sound(ids, live.dom(), first);
    lemma_delete_records_cover(ids, live.dom(), first);
    assert forall|k: int| 0 <= k < records.len() implies (
    #[trigger] records[k] matches WalEntryView::Delete { id, .. } && ids.contains(id)
        && live.contains_key(id)) by {
        assert(deletes_one(records[k], ids, live.dom()));
        reveal(deletes_one);
    }
    assert forall|i: int| 0 <= i < ids.len() && live.contains_key(#[trigger] ids[i]) implies exists|
        k: int,
    | 0 <= k < records.len() && (#[trigger] records[k]).subject() == Some(ids[i]) by {
        assert(live.dom().contains(ids[i]));
        assert(has_record(records, ids[i]));
        reveal(has_record);
    }
    assert(deletes_cover(records, ids, live)) by {
        reveal(deletes_cover);
    }
}

/// Take every id of `ids` out of the store, the caches and the index.
/// Returns how many documents that were.
fn remove_all(storage: &mut Collection, ids: &Vec<DocId>) -> (r: usize)
    requires
        old(storage).inner_wf(),
    ensures
        final(storage).inner_wf(),
        final(storage).live() == old(storage).live().remove_keys(ids@.to_set()),
        r == old(storage).live().dom().len() - final(storage).live().dom().len(),
        final(storage).store.region == old(storage).store.region,
        final(storage).metadata.dimensions == old(storage).metadata.dimensions,
        final(storage).metadata.name == old(storage).metadata.name,
        final(storage).metadata.schema_version == old(storage).metadata.schema_version,
        final(storage).config == old(storage).config,
        final(storage).persistence == old(storage).persistence,
        final(storage).sidecars == old(storage).sidecars,
        final(storage).read_only == old(storage).read_only,
        old(storage).caches_consistent() ==> final(storage).caches_consistent(),
        non_overlapping(old(storage).store.index@) ==> non_overlapping(final(storage).store.index@),
{
    let before: usize = storage.store.len();
    let mut count: usize = 0;
    let mut i: usize = 0;
    assert(storage.live().remove_keys(ids@.take(0).to_set()) =~= storage.live());
    while i < ids.len()
        invariant
            i <= ids.len(),
            storage.inner_wf(),
            storage.live() == old(storage).live().remove_keys(ids@.take(i as int).to_set()),
            before == old(storage).live().dom().len(),
            count == before - storage.live().dom().len(),
            storage.live().dom().finite(),
            storage.store.region == old(storage).store.region,
            storage.metadata.dimensions == old(storage).metadata.dimensions,
            storage.metadata.name == old(storage).metadata.name,
            storage.metadata.schema_version == old(storage).metadata.schema_version,
            storage.config == old(storage).config,
            storage.persistence == old(storage).persistence,
            storage.sidecars == old(storage).sidecars,
            storage.read_only == old(storage).read_only,
            old(storage).caches_consistent() ==> storage.caches_consistent(),
            non_overlapping(old(storage).store.index@) ==> non_overlapping(storage.store.index@),
        decreases ids.len() - i,
    {
        let ghost live = storage.live();
        let id = ids[i];
        let found = delete_internal(storage, id);
        proof {
            assert(ids@.take(i + 1).to_set() =~= ids@.take(i as int).to_set().insert(id)) by {
                let a = ids@.take(i + 1);
                let b = ids@.take(i as int);
                assert forall|x: DocId| a.to_set().contains(x) <==> b.to_set().insert(id).contains(
                    x,
                ) by {
                    if a.contains(x) {
                        let k = choose|k: int| 0 <= k < a.len() && a[k] == x;
                        if k < i {
                            assert(b[k] == x);
                        }
                    }
                    if b.contains(x) {
                        let k = choose|k: int| 0 <= k < b.len() && b[k] == x;
                        assert(a[k] == x);
                    }
                    if x == id {
                        assert(a[i as int] == x);
                    }
                }
            }
            assert(storage.live() =~= old(storage).live().remove_keys(ids@.take(i + 1).to_set()));
            assert(storage.live().dom() =~= live.dom().remove(id));
        }
        if found {
            let now: usize = storage.store.len();
            count = before - now;
        }
        i += 1;
    }
    assert(ids@.take(ids.len() as int) =~= ids@);
    count
}

/// Whether the collection holds one of `ids`.
fn any_present(storage: &Collection, ids: &Vec<DocId>) -> (r: bool)
    requires
        storage.inner_wf(),
    ensures
        r == exists|i: int| 0 <= i < ids@.len() && storage.live().contains_key(#[trigger] ids@[i]),
{
    let mut i: usize = 0;
    while i < ids.len()
        invariant
            i <= ids.len(),
            storage.inner_wf(),
            forall|j: int| 0 <= j < i ==> !storage.live().contains_key(#[trigger] ids@[j]),
        decreases ids.len() - i,
    {
        if storage.store.contains(ids[i]) {
            return true;
        }
        i += 1;
    }
    false
}

/// Ids of which none is live have no delete records.
proof fn lemma_no_delete_records(ids: Seq<DocId>, live: Set<DocId>, first: int)
    requires
        forall|i: int| 0 <= i < ids.len() ==> !live.contains(#[trigger] ids[i]),
    ensures
        delete_records(ids, live, first) == Seq::<WalEntryView>::empty(),
    decreases ids.len(),
{
    if ids.len() > 0 {
        assert forall|i: int| 0 <= i < ids.drop_last().len() implies !live.contains(
            #[trigger] ids.drop_last()[i],
        ) by {
            assert(ids.drop_last()[i] == ids[i]);
        }
        lemma_no_delete_records(ids.drop_last(), live, first);
        assert(ids.last() == ids[ids.len() - 1]);
    }
}

/// Delete a batch of documents: log the deletion of each id that is
/// present, take them out of the table, the caches and the index, bring the
/// table's snapshot up to date, and take a checkpoint where one is due.
/// Returns how many documents were deleted; where none of the ids is
/// present, nothing changes.
///
/// Fails, changing nothing, exactly as `delete_batch_refusal` says.
pub fn delete_batch<H: Host>(storage: &mut Collection, ids: &Vec<DocId>, host: &H) -> (r: Result<
    usize,
    PiramidError,
>)
    requires
        old(storage).wf(),
    ensures
        match r {
            Ok(n) => {
                &&& old(storage).delete_batch_refusal(ids@) is None
                &&& final(storage).wf()
                &&& final(storage).live() == old(storage).live().remove_keys(ids@.to_set())
                &&& n == old(storage).live().dom().len() - final(storage).live().dom().len()
                &&& n > 0 ==> final(storage).next_seq() > old(storage).next_seq()
                &&& n == 0 ==> *final(storage) == *old(storage)
                &&& log_grew(
                    old(storage),
                    final(storage),
                    delete_records(ids@, old(storage).live().dom(), old(storage).next_seq() as int),
                )
                &&& final(storage).config == old(storage).config
                &&& final(storage).read_only == old(storage).read_only
                &&& final(storage).metadata.dimensions == old(storage).metadata.dimensions
                &&& old(storage).caches_consistent() ==> final(storage).caches_consistent()
                &&& non_overlapping(old(storage).store.index@) ==> non_overlapping(
                    final(storage).store.index@,
                )
            },
            Err(e) => {
                &&& old(storage).delete_batch_refusal(ids@) == Some(e)
                &&& *final(storage) == *old(storage)
            },
        },
{
    if !any_present(storage, ids) {
        proof {
            lemma_none_present(storage.live(), ids@);
            lemma_no_delete_records(ids@, storage.live().dom(), storage.next_seq() as int);
            assert(storage.persistence.wal@.lines + record_lines(Seq::<WalEntryView>::empty())
                =~= storage.persistence.wal@.lines);
        }
        return Ok(0);
    }
    if storage.read_only {
        return Err(PiramidError::ReadOnlyMode);
    }
    if storage.persistence.wal.next_seq as u128 + ids.len() as u128 >= u64::MAX as u128 {
        return Err(PiramidError::Io);
    }
    Ok(delete_present(storage, ids, host))
}

/// Delete a batch of which at least one id is present.
fn delete_present<H: Host>(storage: &mut Collection, ids: &Vec<DocId>, host: &H) -> (n: usize)
    requires
        old(storage).wf(),
        !old(storage).read_only,
        old(storage).next_seq() + ids@.len() < u64::MAX,
        exists|i: int| 0 <= i < ids@.len() && old(storage).live().contains_key(#[trigger] ids@[i]),
    ensures
        final(storage).wf(),
        final(storage).live() == old(storage).live().remove_keys(ids@.to_set()),
        n == old(storage).live().dom().len() - final(storage).live().dom().len(),
        n > 0,
        final(storage).next_seq() > old(storage).next_seq(),
        log_grew(
            old(storage),
            final(storage),
            delete_records(ids@, old(storage).live().dom(), old(storage).next_seq() as int),
        ),
        final(storage).config == old(storage).config,
        final(storage).read_only == old(storage).read_only,
        final(storage).metadata.dimensions == old(storage).metadata.dimensions,
        old(storage).caches_consistent() ==> final(storage).caches_consistent(),
        non_overlapping(old(storage).store.index@) ==> non_overlapping(final(storage).store.index@),
{
    let ghost pending = storage.pending()->Ok_0;
    let ghost live = storage.live();
    proof {
        storage.store.lemma_live_finite();
    }
    let records = log_deletes(storage, ids);
    let count = remove_all(storage, ids);
    proof {
        if old(storage).persistence.wal.enabled {
            lemma_deletes_agree(pending, live, records@, ids@);
        } else {
            lemma_agrees_empty(storage.live());
        }
        let j = choose|j: int| 0 <= j < ids@.len() && live.contains_key(#[trigger] ids@[j]);
        assert(ids@.to_set().contains(ids@[j]));
        lemma_removed_some(live, ids@.to_set(), ids@[j]);
    }
    save_index(storage);
    let ghost held = *storage;
    track_operation(storage, host);
    proof {
        lemma_log_grew(old(storage), &held, storage, records@);
    }
    count
}

/// Removing a set of keys that holds a key of the map makes the map smaller.
proof fn lemma_removed_some(live: Map<DocId, DocumentView>, gone: Set<DocId>, x: DocId)
    requires
        live.dom().finite(),
        live.contains_key(x),
        gone.contains(x),
    ensures
        live.remove_keys(gone).dom().len() < live.dom().len(),
{
    let after = live.remove_keys(gone).dom();
    let less = live.dom().remove(x);
    assert(after.subset_of(less));
    vstd::set_lib::lemma_len_subset(after, less);
}

/// The deletions logged for a batch agree with the live documents that are
/// left when the batch is removed.
proof fn lemma_deletes_agree(
    pending: Seq<WalEntryView>,
    live: Map<DocId, DocumentView>,
    records: Seq<WalEntryView>,
    ids: Seq<DocId>,
)
    requires
        agrees(pending, live),
        deletes_cover(records, ids, live),
    ensures
        agrees(pending + records, live.remove_keys(ids.to_set())),
{
    reveal(deletes_cover);
    assert forall|id: DocId| ids.to_set().contains(id) && live.contains_key(id) implies exists|
        k: int,
    | 0 <= k < records.len() && (#[trigger] records[k]).subject() == Some(id) by {
        let j = choose|j: int| 0 <= j < ids.len() && ids[j] == id;
        assert(live.contains_key(ids[j]));
    }
    assert forall|k: int| 0 <= k < records.len() implies (
    #[trigger] records[k] matches WalEntryView::Delete { id, .. } && ids.to_set().contains(id)) by {
        assert(records[k] is Delete);
    }
    lemma_apply_deletes(live, records, ids.to_set());
    lemma_agrees_extend(pending, live, records);
}


/// Removing ids of which none is present removes nothing.
proof fn lemma_none_present(live: Map<DocId, DocumentView>, ids: Seq<DocId>)
    requires
        forall|i: int| 0 <= i < ids.len() ==> !live.contains_key(#[trigger] ids[i]),
    ensures
        live.remove_keys(ids.to_set()) == live,
{
    assert forall|x: DocId| live.contains_key(x) implies !ids.to_set().contains(x) by {
        if ids.contains(x) {
            let k = choose|k: int| 0 <= k < ids.len() && ids[k] == x;
            assert(!live.contains_key(ids[k]));
        }
    }
    assert(live.remove_keys(ids.to_set()) =~= live);
}

} // verus!
