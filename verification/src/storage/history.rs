//! The life of a collection over its writes, checkpoints and restarts.

use vstd::prelude::*;
use crate::storage::document::DocumentView;
use crate::storage::recovery::{
    agrees, apply, apply_all, insert_all, lemma_agrees_empty, lemma_agrees_push,
    lemma_replay_changes_nothing,
};
use crate::storage::wal::entry::WalEntryView;
use crate::DocId;

verus! {

/// What the files of a collection hold, as far as the documents go: the
/// documents that the table points at, and the records of the log behind
/// the last checkpoint.
pub struct Disk {
    pub stored: Map<DocId, DocumentView>,
    pub pending: Seq<WalEntryView>,
}

/// One event in the life of a collection.
pub enum Step {
    /// A write whose record reached the log, and nothing else the files:
    /// the process stopped before the table was saved.
    Logged(WalEntryView),
    /// A write whose record reached the log and whose table was saved.
    Saved(WalEntryView),
    /// A checkpoint.
    Checkpoint,
    /// The process stopped and the collection was opened again.
    Restart,
}

impl Disk {
    /// The live documents that the files recover to.
    pub open spec fn recovered(self) -> Map<DocId, DocumentView> {
        apply_all(self.stored, self.pending)
    }

    /// The files after an event. A write adds its record to the log, and
    /// its document to what the table points at where the table was saved.
    /// A checkpoint, and the recovery that opening again starts with, make
    /// the table point at the live documents and empty the log.
    pub open spec fn after(self, step: Step) -> Disk {
        match step {
            Step::Logged(e) => Disk { stored: self.stored, pending: self.pending.push(e) },
            Step::Saved(e) => Disk {
                stored: apply(self.recovered(), e),
                pending: self.pending.push(e),
            },
            Step::Checkpoint => Disk { stored: self.recovered(), pending: Seq::empty() },
            Step::Restart => Disk { stored: self.recovered(), pending: Seq::empty() },
        }
    }

    /// The files after the events, in order.
    pub open spec fn after_all(self, steps: Seq<Step>) -> Disk
        decreases steps.len(),
    {
        if steps.len() == 0 {
            self
        } else {
            self.after_all(steps.drop_last()).after(steps.last())
        }
    }
}

/// The live documents of a collection that never stops, after the events:
/// each write is applied, and nothing else changes them.
pub open spec fn never_stopped(live: Map<DocId, DocumentView>, steps: Seq<Step>) -> Map<
    DocId,
    DocumentView,
>
    decreases steps.len(),
{
    if steps.len() == 0 {
        live
    } else {
        match steps.last() {
            Step::Logged(e) => apply(never_stopped(live, steps.drop_last()), e),
            Step::Saved(e) => apply(never_stopped(live, steps.drop_last()), e),
            _ => never_stopped(live, steps.drop_last()),
        }
    }
}

/// Whatever writes, checkpoints and restarts a collection goes through, and
/// wherever between logging a record and saving the table it stops, its
/// files recover to the live documents of a collection that went through
/// the same writes and never stopped.
pub proof fn lemma_recovery_is_crash_free(disk: Disk, steps: Seq<Step>)
    requires
        agrees(disk.pending, disk.recovered()),
    ensures
        disk.after_all(steps).recovered() == never_stopped(disk.recovered(), steps),
        agrees(disk.after_all(steps).pending, disk.after_all(steps).recovered()),
    decreases steps.len(),
{
    if steps.len() > 0 {
        let init = steps.drop_last();
        lemma_recovery_is_crash_free(disk, init);
        let d = disk.after_all(init);
        let live = d.recovered();
        match steps.last() {
            Step::Logged(e) => {
                assert(d.pending.push(e).drop_last() =~= d.pending);
                lemma_agrees_push(d.pending, live, e);
            },
            Step::Saved(e) => {
                lemma_agrees_push(d.pending, live, e);
                lemma_replay_changes_nothing(apply(live, e), d.pending.push(e));
            },
            Step::Checkpoint => {
                lemma_agrees_empty(live);
            },
            Step::Restart => {
                lemma_agrees_empty(live);
            },
        }
    }
}

/// Documents of different ids, none of them live yet, are all live after
/// they were inserted, each as it was inserted, with every document that
/// was live before; and there are as many more live documents as were
/// inserted.
pub proof fn lemma_inserts_lose_nothing(live: Map<DocId, DocumentView>, docs: Seq<DocumentView>)
    requires
        live.dom().finite(),
        forall|i: int, j: int| 0 <= i < j < docs.len() ==> (#[trigger] docs[i]).id != (
        #[trigger] docs[j]).id,
        forall|i: int| 0 <= i < docs.len() ==> !live.contains_key((#[trigger] docs[i]).id),
    ensures
        insert_all(live, docs).dom().finite(),
        insert_all(live, docs).dom().len() == live.dom().len() + docs.len(),
        forall|i: int|
            0 <= i < docs.len() ==> insert_all(live, docs).contains_key((#[trigger] docs[i]).id)
                && insert_all(live, docs)[docs[i].id] == docs[i],
        forall|id: DocId| #[trigger]
            live.contains_key(id) ==> insert_all(live, docs).contains_key(id) && insert_all(
                live,
                docs,
            )[id] == live[id],
        forall|id: DocId| #[trigger]
            insert_all(live, docs).contains_key(id) ==> live.contains_key(id) || exists|i: int|
                0 <= i < docs.len() && (#[trigger] docs[i]).id == id,
    decreases docs.len(),
{
    if docs.len() > 0 {
        let init = docs.drop_last();
        let last = docs.last();
        assert(last == docs[docs.len() - 1]);
        assert forall|i: int, j: int| 0 <= i < j < init.len() implies (#[trigger] init[i]).id != (
        #[trigger] init[j]).id by {
            assert(init[i] == docs[i] && init[j] == docs[j]);
        }
        assert forall|i: int| 0 <= i < init.len() implies !live.contains_key(
            (#[trigger] init[i]).id,
        ) by {
            assert(init[i] == docs[i]);
        }
        lemma_inserts_lose_nothing(live, init);
        let before = insert_all(live, init);
        let after = insert_all(live, docs);
        assert(!before.contains_key(last.id)) by {
            if before.contains_key(last.id) {
                let i = choose|i: int| 0 <= i < init.len() && (#[trigger] init[i]).id == last.id;
                assert(docs[i].id == docs[docs.len() - 1].id);
            }
        }
        assert(after.dom() =~= before.dom().insert(last.id));
        assert forall|i: int| 0 <= i < docs.len() implies after.contains_key(
            (#[trigger] docs[i]).id,
        ) && after[docs[i].id] == docs[i] by {
            if i < init.len() {
                assert(init[i] == docs[i]);
                assert(before.contains_key(init[i].id));
            }
        }
        assert forall|id: DocId| #[trigger] live.contains_key(id) implies after.contains_key(id)
            && after[id] == live[id] by {
            assert(before.contains_key(id) && before[id] == live[id]);
            assert(id != last.id);
        }
        assert forall|id: DocId| #[trigger] after.contains_key(id) implies live.contains_key(id)
            || exists|i: int| 0 <= i < docs.len() && (#[trigger] docs[i]).id == id by {
            if id == last.id {
                assert(docs[docs.len() - 1].id == id);
            } else {
                assert(before.contains_key(id));
                if !live.contains_key(id) {
                    let i = choose|i: int| 0 <= i < init.len() && (#[trigger] init[i]).id == id;
                    assert(docs[i].id == id);
                }
            }
        }
    }
}

} // verus!
