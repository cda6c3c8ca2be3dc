//! The records of the write-ahead log.

use vstd::prelude::*;
use crate::metadata::{EntryView, Metadata};
use crate::quantization::{QuantizedVector, QuantizedVectorView};
use crate::storage::document::{Document, DocumentView};
use crate::DocId;

verus! {

/// One record of the log. Each carries the sequence number it was logged
/// under.
#[derive(Debug)]
pub enum WalEntry {
    /// A document was inserted.
    Insert { id: DocId, vector: QuantizedVector, text: Vec<u8>, metadata: Metadata, seq: u64 },
    /// A document was replaced.
    Update { id: DocId, vector: QuantizedVector, text: Vec<u8>, metadata: Metadata, seq: u64 },
    /// A document was deleted.
    Delete { id: DocId, seq: u64 },
    /// Everything before this record is in the snapshots.
    Checkpoint { timestamp: u64, seq: u64 },
}

/// What a `WalEntry` holds.
pub enum WalEntryView {
    Insert { doc: DocumentView, seq: u64 },
    Update { doc: DocumentView, seq: u64 },
    Delete { id: DocId, seq: u64 },
    Checkpoint { timestamp: u64, seq: u64 },
}

impl WalEntryView {
    /// The sequence number of the record.
    pub open spec fn seq(self) -> u64 {
        match self {
            WalEntryView::Insert { seq, .. } => seq,
            WalEntryView::Update { seq, .. } => seq,
            WalEntryView::Delete { seq, .. } => seq,
            WalEntryView::Checkpoint { seq, .. } => seq,
        }
    }

    /// The same record under another sequence number.
    pub open spec fn with_seq(self, s: u64) -> WalEntryView {
        match self {
            WalEntryView::Insert { doc, .. } => WalEntryView::Insert { doc, seq: s },
            WalEntryView::Update { doc, .. } => WalEntryView::Update { doc, seq: s },
            WalEntryView::Delete { id, .. } => WalEntryView::Delete { id, seq: s },
            WalEntryView::Checkpoint { timestamp, .. } => WalEntryView::Checkpoint {
                timestamp,
                seq: s,
            },
        }
    }

    /// The document that the record speaks of, if it speaks of one.
    pub open spec fn subject(self) -> Option<DocId> {
        match self {
            WalEntryView::Insert { doc, .. } => Some(doc.id),
            WalEntryView::Update { doc, .. } => Some(doc.id),
            WalEntryView::Delete { id, .. } => Some(id),
            WalEntryView::Checkpoint { .. } => None,
        }
    }
}

impl View for WalEntry {
    type V = WalEntryView;

    open spec fn view(&self) -> WalEntryView {
        match self {
            WalEntry::Insert { id, vector, text, metadata, seq } => WalEntryView::Insert {
                doc: DocumentView { id: *id, vector: vector@, text: text@, metadata: metadata@ },
                seq: *seq,
            },
            WalEntry::Update { id, vector, text, metadata, seq } => WalEntryView::Update {
                doc: DocumentView { id: *id, vector: vector@, text: text@, metadata: metadata@ },
                seq: *seq,
            },
            WalEntry::Delete { id, seq } => WalEntryView::Delete { id: *id, seq: *seq },
            WalEntry::Checkpoint { timestamp, seq } => WalEntryView::Checkpoint {
                timestamp: *timestamp,
                seq: *seq,
            },
        }
    }
}

/// The views of a sequence of records.
pub open spec fn wal_views(s: Seq<WalEntry>) -> Seq<WalEntryView> {
    Seq::new(s.len(), |i: int| s[i]@)
}

impl WalEntry {
    /// The record of inserting `doc`, not yet sequenced.
    pub fn insert_of(doc: &Document) -> (r: Self)
        ensures
            r@ == (WalEntryView::Insert { doc: doc@, seq: 0 }),
    {
        let d = doc.duplicate();
        WalEntry::Insert { id: d.id, vector: d.vector, text: d.text, metadata: d.metadata, seq: 0 }
    }

    /// The record of replacing a document by `doc`, not yet sequenced.
    pub fn update_of(doc: &Document) -> (r: Self)
        ensures
            r@ == (WalEntryView::Update { doc: doc@, seq: 0 }),
    {
        let d = doc.duplicate();
        WalEntry::Update { id: d.id, vector: d.vector, text: d.text, metadata: d.metadata, seq: 0 }
    }

    /// The sequence number of the record.
    pub fn seq(&self) -> (r: u64)
        ensures
            r == self@.seq(),
    {
        match self {
            WalEntry::Insert { seq, .. } => *seq,
            WalEntry::Update { seq, .. } => *seq,
            WalEntry::Delete { seq, .. } => *seq,
            WalEntry::Checkpoint { seq, .. } => *seq,
        }
    }

    /// Put the record under the sequence number `s`.
    pub fn set_seq(&mut self, s: u64)
        ensures
            final(self)@ == old(self)@.with_seq(s),
    {
        match self {
            WalEntry::Insert { seq, .. } => { *seq = s; },
            WalEntry::Update { seq, .. } => { *seq = s; },
            WalEntry::Delete { seq, .. } => { *seq = s; },
            WalEntry::Checkpoint { seq, .. } => { *seq = s; },
        }
    }

    /// A copy of this record.
    pub fn duplicate(&self) -> (r: Self)
        ensures
            r@ == self@,
    {
        match self {
            WalEntry::Insert { id, vector, text, metadata, seq } => {
                let t = text.clone();
                assert(t@ =~= text@);
                WalEntry::Insert {
                    id: *id,
                    vector: vector.duplicate(),
                    text: t,
                    metadata: metadata.duplicate(),
                    seq: *seq,
                }
            },
            WalEntry::Update { id, vector, text, metadata, seq } => {
                let t = text.clone();
                assert(t@ =~= text@);
                WalEntry::Update {
                    id: *id,
                    vector: vector.duplicate(),
                    text: t,
                    metadata: metadata.duplicate(),
                    seq: *seq,
                }
            },
            WalEntry::Delete { id, seq } => WalEntry::Delete { id: *id, seq: *seq },
            WalEntry::Checkpoint { timestamp, seq } => WalEntry::Checkpoint {
                timestamp: *timestamp,
                seq: *seq,
            },
        }
    }
}

} // verus!
