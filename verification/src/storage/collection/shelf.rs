//! What decides whether the store can take a document in: where the table
//! points, how long the region is, and the dimension of the vectors.

use vstd::prelude::*;
use crate::error::{Limit, PiramidError};
use crate::storage::codec::enc_document;
use crate::storage::collection::storage::Collection;
use crate::storage::document::DocumentView;
use crate::storage::persistence::index::{
    high_water, lemma_finite_high_water, lemma_high_water_insert, lemma_high_water_remove,
    EntryPointer,
};
use crate::storage::persistence::mmap::grown_len;
use crate::storage::wal::entry::WalEntryView;
use crate::DocId;

verus! {

/// The table, the length of the region and the dimension of a store.
pub struct Shelf {
    pub table: Map<DocId, EntryPointer>,
    pub region: int,
    pub dims: Option<usize>,
}

impl Shelf {
    /// Why the store cannot take `doc` in, if it cannot: its vector has
    /// another length than the dimension, its binary form is longer than a
    /// pointer can say, or it would end beyond what the machine addresses.
    pub open spec fn refusal(self, doc: DocumentView) -> Option<PiramidError> {
        let actual = doc.vector.values.len();
        let len = enc_document(doc).len();
        let end = high_water(self.table) + len;
        if self.dims is Some && self.dims->0 != actual {
            Some(PiramidError::DimensionMismatch { expected: self.dims->0, actual: actual as usize })
        } else if len > u32::MAX {
            Some(PiramidError::LimitsExceeded(Limit::MaxVectorBytes))
        } else if end > u64::MAX || (end > self.region && 2 * end > usize::MAX) {
            Some(PiramidError::Io)
        } else {
            None
        }
    }

    /// The store with `doc` appended behind every document of the table.
    pub open spec fn put(self, doc: DocumentView) -> Shelf {
        let len = enc_document(doc).len();
        let at = high_water(self.table);
        Shelf {
            table: self.table.insert(
                doc.id,
                EntryPointer { offset: at as u64, length: len as u32 },
            ),
            region: grown_len(self.region, at + len),
            dims: Some(doc.vector.values.len() as usize),
        }
    }

    /// The store with the documents appended in order, each behind the one
    /// before it.
    pub open spec fn put_all(self, docs: Seq<DocumentView>) -> Shelf
        decreases docs.len(),
    {
        if docs.len() == 0 {
            self
        } else {
            self.put_all(docs.drop_last()).put(docs.last())
        }
    }

    /// The store without the document of `id`.
    pub open spec fn without(self, id: DocId) -> Shelf {
        Shelf { table: self.table.remove(id), ..self }
    }

    /// The store with the record applied, or the error with which the
    /// record's document is refused.
    pub open spec fn step(self, e: WalEntryView) -> Result<Shelf, PiramidError> {
        match e {
            WalEntryView::Insert { doc, .. } => match self.refusal(doc) {
                Some(err) => Err(err),
                None => Ok(self.put(doc)),
            },
            WalEntryView::Update { doc, .. } => match self.without(doc.id).refusal(doc) {
                Some(err) => Err(err),
                None => Ok(self.without(doc.id).put(doc)),
            },
            WalEntryView::Delete { id, .. } => Ok(self.without(id)),
            WalEntryView::Checkpoint { .. } => Ok(self),
        }
    }

    /// The store with the records applied in order, or the error of the
    /// first record whose document is refused.
    pub open spec fn replay(self, records: Seq<WalEntryView>) -> Result<Shelf, PiramidError>
        decreases records.len(),
    {
        if records.len() == 0 {
            Ok(self)
        } else {
            match self.replay(records.drop_last()) {
                Err(e) => Err(e),
                Ok(s) => s.step(records.last()),
            }
        }
    }

    /// Where documents are put, and the dimension they leave, does not
    /// depend on the length of the region.
    pub proof fn lemma_put_all_table(self, other: Shelf, docs: Seq<DocumentView>)
        requires
            self.table == other.table,
            self.dims == other.dims,
        ensures
            self.put_all(docs).table == other.put_all(docs).table,
            self.put_all(docs).dims == other.put_all(docs).dims,
        decreases docs.len(),
    {
        if docs.len() > 0 {
            self.lemma_put_all_table(other, docs.drop_last());
        }
    }

    /// Records of which the first ones cannot be replayed cannot be
    /// replayed, and fail as these do.
    pub proof fn lemma_replay_fails(self, records: Seq<WalEntryView>, n: int)
        requires
            0 <= n <= records.len(),
            self.replay(records.take(n)) is Err,
        ensures
            self.replay(records) == self.replay(records.take(n)),
        decreases records.len() - n,
    {
        if n < records.len() {
            assert(records.take(n + 1).drop_last() =~= records.take(n));
            self.lemma_replay_fails(records, n + 1);
        } else {
            assert(records.take(n) =~= records);
        }
    }
}

/// The bytes that the documents of the records take in their binary form.
pub open spec fn carried_len(records: Seq<WalEntryView>) -> int
    decreases records.len(),
{
    if records.len() == 0 {
        0
    } else {
        carried_len(records.drop_last()) + match records.last() {
            WalEntryView::Insert { doc, .. } => enc_document(doc).len() as int,
            WalEntryView::Update { doc, .. } => enc_document(doc).len() as int,
            _ => 0,
        }
    }
}

/// Whether every document that the records carry has a vector of `d`
/// components and a binary form that a pointer can hold.
pub open spec fn carried_fit(records: Seq<WalEntryView>, d: usize) -> bool {
    forall|i: int|
        0 <= i < records.len() ==> match #[trigger] records[i] {
            WalEntryView::Insert { doc, .. } => doc.vector.values.len() == d && enc_document(
                doc,
            ).len() <= u32::MAX,
            WalEntryView::Update { doc, .. } => doc.vector.values.len() == d && enc_document(
                doc,
            ).len() <= u32::MAX,
            _ => true,
        }
}

impl Shelf {
    /// Records replay where their documents fit: each has a vector of the
    /// store's dimension and a form that a pointer can hold, and appended
    /// behind the documents of the table they end where the machine can
    /// still double the region.
    pub proof fn lemma_replay_fits(self, records: Seq<WalEntryView>, d: usize)
        requires
            self.table.dom().finite(),
            self.dims is Some ==> self.dims == Some(d),
            carried_fit(records, d),
            2 * (high_water(self.table) + carried_len(records)) <= usize::MAX,
        ensures
            self.replay(records) is Ok,
            self.replay(records)->Ok_0.table.dom().finite(),
            self.replay(records)->Ok_0.dims is Some ==> self.replay(records)->Ok_0.dims == Some(d),
            0 <= high_water(self.replay(records)->Ok_0.table) <= high_water(self.table)
                + carried_len(records),
            0 <= carried_len(records),
        decreases records.len(),
    {
        lemma_finite_high_water(self.table);
        if records.len() > 0 {
            let init = records.drop_last();
            let last = records.last();
            assert(carried_fit(init, d)) by {
                assert forall|i: int| 0 <= i < init.len() implies match #[trigger] init[i] {
                    WalEntryView::Insert { doc, .. } => doc.vector.values.len() == d
                        && enc_document(doc).len() <= u32::MAX,
                    WalEntryView::Update { doc, .. } => doc.vector.values.len() == d
                        && enc_document(doc).len() <= u32::MAX,
                    _ => true,
                } by {
                    assert(init[i] == records[i]);
                }
            }
            assert(last == records[records.len() - 1]);
            lemma_carried_nonnegative(init);
            self.lemma_replay_fits(init, d);
            let s = self.replay(init)->Ok_0;
            match last {
                WalEntryView::Insert { doc, .. } => {
                    s.lemma_put_fits(doc, d);
                },
                WalEntryView::Update { doc, .. } => {
                    lemma_high_water_remove(s.table, doc.id);
                    s.without(doc.id).lemma_put_fits(doc, d);
                },
                WalEntryView::Delete { id, .. } => {
                    lemma_high_water_remove(s.table, id);
                },
                WalEntryView::Checkpoint { .. } => {},
            }
        }
    }

    /// A document that fits is taken in, and ends where the documents
    /// before it ended, and its own length further.
    proof fn lemma_put_fits(self, doc: DocumentView, d: usize)
        requires
            self.table.dom().finite(),
            self.dims is Some ==> self.dims == Some(d),
            doc.vector.values.len() == d,
            enc_document(doc).len() <= u32::MAX,
            2 * (high_water(self.table) + enc_document(doc).len()) <= usize::MAX,
        ensures
            self.refusal(doc) is None,
            self.put(doc).table.dom().finite(),
            self.put(doc).dims == Some(d),
            high_water(self.put(doc).table) == high_water(self.table) + enc_document(doc).len(),
    {
        lemma_finite_high_water(self.table);
        let at = high_water(self.table);
        let p = EntryPointer { offset: at as u64, length: enc_document(doc).len() as u32 };
        lemma_high_water_insert(self.table, doc.id, p);
        assert(self.put(doc).table.dom() =~= self.table.dom().insert(doc.id));
    }
}

/// Documents take no negative number of bytes.
pub proof fn lemma_carried_nonnegative(records: Seq<WalEntryView>)
    ensures
        0 <= carried_len(records),
    decreases records.len(),
{
    if records.len() > 0 {
        lemma_carried_nonnegative(records.drop_last());
    }
}

impl Collection {
    /// The table, region length and dimension of the collection's store.
    pub open spec fn shelf(&self) -> Shelf {
        Shelf {
            table: self.store.index@,
            region: self.store.region@.len() as int,
            dims: self.metadata.dimensions,
        }
    }
}

} // verus!
