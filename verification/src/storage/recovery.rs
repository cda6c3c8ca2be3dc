//! What replaying the log does to the set of live documents, and why a
//! collection that is reopened holds what it held.

use vstd::prelude::*;
use crate::storage::document::DocumentView;
use crate::storage::wal::entry::WalEntryView;
use crate::DocId;

verus! {

/// The live documents after one record has been applied.
pub open spec fn apply(live: Map<DocId, DocumentView>, e: WalEntryView) -> Map<
    DocId,
    DocumentView,
> {
    match e {
        WalEntryView::Insert { doc, .. } => live.insert(doc.id, doc),
        WalEntryView::Update { doc, .. } => live.insert(doc.id, doc),
        WalEntryView::Delete { id, .. } => live.remove(id),
        WalEntryView::Checkpoint { .. } => live,
    }
}

/// The live documents after the records have been applied in order.
pub open spec fn apply_all(live: Map<DocId, DocumentView>, records: Seq<WalEntryView>) -> Map<
    DocId,
    DocumentView,
>
    decreases records.len(),
{
    if records.len() == 0 {
        live
    } else {
        apply(apply_all(live, records.drop_last()), records.last())
    }
}

/// Whether `live` is what the record leaves of its subject.
pub open spec fn left_by(e: WalEntryView, live: Map<DocId, DocumentView>) -> bool {
    match e {
        WalEntryView::Insert { doc, .. } => live.contains_key(doc.id) && live[doc.id] == doc,
        WalEntryView::Update { doc, .. } => live.contains_key(doc.id) && live[doc.id] == doc,
        WalEntryView::Delete { id, .. } => !live.contains_key(id),
        WalEntryView::Checkpoint { .. } => true,
    }
}

/// Whether the record at `i` is the last word on its subject: no later
/// record speaks of the same document.
pub open spec fn settles(records: Seq<WalEntryView>, i: int) -> bool {
    forall|j: int| i < j < records.len() ==> (#[trigger] records[j]).subject() != records[i].subject()
}

/// Whether `live` already holds what the records would make of it: each
/// record that is the last word on its subject finds `live` as it would
/// leave it.
pub open spec fn agrees(records: Seq<WalEntryView>, live: Map<DocId, DocumentView>) -> bool {
    forall|i: int|
        0 <= i < records.len() && settles(records, i) ==> left_by(#[trigger] records[i], live)
}

/// Index of the last record that speaks of `id`, or -1.
pub open spec fn last_about(records: Seq<WalEntryView>, id: DocId) -> int
    decreases records.len(),
{
    if records.len() == 0 {
        -1
    } else if records.last().subject() == Some(id) {
        records.len() - 1
    } else {
        last_about(records.drop_last(), id)
    }
}

proof fn lemma_last_about(records: Seq<WalEntryView>, id: DocId)
    ensures
        -1 <= last_about(records, id) < records.len(),
        last_about(records, id) >= 0 ==> records[last_about(records, id)].subject() == Some(id),
        forall|j: int|
            last_about(records, id) < j < records.len() ==> (#[trigger] records[j]).subject()
                != Some(id),
    decreases records.len(),
{
    if records.len() > 0 && records.last().subject() != Some(id) {
        let init = records.drop_last();
        lemma_last_about(init, id);
        assert forall|j: int| last_about(records, id) < j < records.len() implies (
        #[trigger] records[j]).subject() != Some(id) by {
            if j < init.len() {
                assert(init[j] == records[j]);
            }
        }
    }
}

/// What applying the records makes of one id: what the last record about it
/// leaves, or what there was where no record speaks of it.
proof fn lemma_apply_all_at(live: Map<DocId, DocumentView>, records: Seq<WalEntryView>, id: DocId)
    ensures
        last_about(records, id) < 0 ==> (apply_all(live, records).contains_key(id)
            == live.contains_key(id) && (live.contains_key(id) ==> apply_all(live, records)[id]
            == live[id])),
        last_about(records, id) >= 0 ==> match records[last_about(records, id)] {
            WalEntryView::Insert { doc, .. } => apply_all(live, records).contains_key(id)
                && apply_all(live, records)[id] == doc,
            WalEntryView::Update { doc, .. } => apply_all(live, records).contains_key(id)
                && apply_all(live, records)[id] == doc,
            WalEntryView::Delete { .. } => !apply_all(live, records).contains_key(id),
            WalEntryView::Checkpoint { .. } => true,
        },
    decreases records.len(),
{
    lemma_last_about(records, id);
    if records.len() > 0 {
        let init = records.drop_last();
        lemma_apply_all_at(live, init, id);
        lemma_last_about(init, id);
        if records.last().subject() != Some(id) {
            let i = last_about(init, id);
            if i >= 0 {
                assert(init[i] == records[i]);
            }
        }
    }
}

/// Replaying what a collection has already taken in changes nothing: where
/// the live documents agree with the records, applying the records gives the
/// same live documents.
pub proof fn lemma_replay_changes_nothing(
    live: Map<DocId, DocumentView>,
    records: Seq<WalEntryView>,
)
    requires
        agrees(records, live),
    ensures
        apply_all(live, records) == live,
{
    let after = apply_all(live, records);
    assert forall|id: DocId|
        (#[trigger] after.dom().contains(id)) == live.dom().contains(id) && (live.dom().contains(
            id,
        ) ==> after[id] == live[id]) by {
        lemma_apply_all_at(live, records, id);
        lemma_last_about(records, id);
        let i = last_about(records, id);
        if i >= 0 {
            assert(settles(records, i));
            assert(left_by(records[i], live));
        }
    }
    assert(after =~= live);
}

/// No records agree with anything.
pub proof fn lemma_agrees_empty(live: Map<DocId, DocumentView>)
    ensures
        agrees(Seq::<WalEntryView>::empty(), live),
{
}

/// Logging a record and applying it keeps the live documents in agreement
/// with the log.
pub proof fn lemma_agrees_push(
    records: Seq<WalEntryView>,
    live: Map<DocId, DocumentView>,
    e: WalEntryView,
)
    requires
        agrees(records, live),
    ensures
        agrees(records.push(e), apply(live, e)),
{
    let after = records.push(e);
    let live2 = apply(live, e);
    assert forall|i: int| 0 <= i < after.len() && settles(after, i) implies left_by(
        #[trigger] after[i],
        live2,
    ) by {
        if i < records.len() {
            assert(after[i] == records[i]);
            assert(after[records.len() as int] == e);
            assert(after[i].subject() != e.subject());
            assert forall|j: int| i < j < records.len() implies (#[trigger] records[j]).subject()
                != records[i].subject() by {
                assert(after[j] == records[j]);
            }
            assert(settles(records, i));
            assert(left_by(records[i], live));
        }
    }
}

/// Logging records and applying them keeps the live documents in agreement
/// with the log.
#[verifier::rlimit(40)]
pub proof fn lemma_agrees_extend(
    records: Seq<WalEntryView>,
    live: Map<DocId, DocumentView>,
    more: Seq<WalEntryView>,
)
    requires
        agrees(records, live),
    ensures
        agrees(records + more, apply_all(live, more)),
    decreases more.len(),
{
    if more.len() == 0 {
        assert(records + more =~= records);
    } else {
        let init = more.drop_last();
        lemma_agrees_extend(records, live, init);
        lemma_agrees_push(records + init, apply_all(live, init), more.last());
        assert((records + init).push(more.last()) =~= records + more);
    }
}

/// The live documents after the given documents have been inserted in order.
pub open spec fn insert_all(live: Map<DocId, DocumentView>, docs: Seq<DocumentView>) -> Map<
    DocId,
    DocumentView,
>
    decreases docs.len(),
{
    if docs.len() == 0 {
        live
    } else {
        insert_all(live, docs.drop_last()).insert(docs.last().id, docs.last())
    }
}

/// Applying the insert records of documents inserts the documents.
pub proof fn lemma_apply_inserts(
    live: Map<DocId, DocumentView>,
    docs: Seq<DocumentView>,
    records: Seq<WalEntryView>,
)
    requires
        records.len() == docs.len(),
        forall|i: int|
            0 <= i < docs.len() ==> (#[trigger] records[i] matches WalEntryView::Insert {
                doc,
                ..
            } && doc == docs[i]),
    ensures
        apply_all(live, records) == insert_all(live, docs),
    decreases docs.len(),
{
    if docs.len() > 0 {
        let ri = records.drop_last();
        let di = docs.drop_last();
        assert forall|i: int| 0 <= i < di.len() implies (#[trigger] ri[i] matches WalEntryView::Insert {
            doc,
            ..
        } && doc == di[i]) by {
            assert(ri[i] == records[i]);
            assert(di[i] == docs[i]);
        }
        lemma_apply_inserts(live, di, ri);
        assert(records.last() == records[records.len() - 1]);
        assert(docs.last() == docs[docs.len() - 1]);
    }
}

/// Applying deletions removes exactly the documents they name.
pub proof fn lemma_apply_deletes(
    live: Map<DocId, DocumentView>,
    records: Seq<WalEntryView>,
    gone: Set<DocId>,
)
    requires
        forall|i: int|
            0 <= i < records.len() ==> (#[trigger] records[i] matches WalEntryView::Delete {
                id,
                ..
            } && gone.contains(id)),
        forall|id: DocId|
            gone.contains(id) && live.contains_key(id) ==> exists|i: int|
                0 <= i < records.len() && (#[trigger] records[i]).subject() == Some(id),
    ensures
        apply_all(live, records) == live.remove_keys(gone),
{
    let after = apply_all(live, records);
    let want = live.remove_keys(gone);
    assert forall|id: DocId|
        (#[trigger] after.dom().contains(id)) == want.dom().contains(id) && (want.dom().contains(
            id,
        ) ==> after[id] == want[id]) by {
        lemma_apply_all_at(live, records, id);
        lemma_last_about(records, id);
        let i = last_about(records, id);
        if i >= 0 {
            assert(records[i] is Delete);
        } else if gone.contains(id) && live.contains_key(id) {
            let k = choose|k: int|
                0 <= k < records.len() && (#[trigger] records[k]).subject() == Some(id);
            assert(records[k].subject() != Some(id));
        }
    }
    assert(after =~= want);
}

} // verus!
