//! Compaction: the live documents are written anew, one behind the other,
//! and the dead space between them is gone.

use vstd::prelude::*;
use crate::error::{Limit, PiramidError};
use crate::host::Host;
use crate::storage::collection::builder::rebuild_vector_index;
use crate::storage::collection::cache::rebuild;
use crate::storage::collection::persistence::{checkpoint, save_index};
use crate::storage::collection::storage::Collection;
use crate::storage::codec::enc_document;
use crate::storage::document::DocumentView;
use crate::storage::persistence::index::{
    high_water, is_high_water, lemma_high_water, lemma_high_water_insert, non_overlapping,
    EntryPointer,
};
use crate::storage::wal::log::{WalLineView, WAL_VERSION};
use crate::storage::persistence::mmap::grown_len;
use crate::storage::store::DocumentStore;
use crate::storage::wal::entry::WalEntryView;
use crate::DocId;

verus! {

/// What a compaction did.
#[derive(Debug, Clone, Copy, PartialEq, Eq, Structural)]
pub struct CompactStats {
    /// Documents before the compaction.
    pub original_entries: usize,
    /// Documents after it.
    pub compacted_entries: usize,
}

/// Where the first `n` documents of `order` end, and how long the region
/// is, once they were appended one behind the other to an empty region of
/// `initial` bytes; or the error of the first that cannot be appended: a
/// binary form longer than a pointer can say, or an end beyond what the
/// machine addresses.
pub open spec fn packed(
    live: Map<DocId, DocumentView>,
    order: Seq<DocId>,
    initial: int,
    n: int,
) -> Result<(int, int), PiramidError>
    decreases n,
{
    if n <= 0 {
        Ok((0, initial))
    } else {
        match packed(live, order, initial, n - 1) {
            Err(e) => Err(e),
            Ok((end, region)) => {
                let len = enc_document(live[order[n - 1]]).len();
                if len > u32::MAX {
                    Err(PiramidError::LimitsExceeded(Limit::MaxVectorBytes))
                } else if end + len > u64::MAX || (end + len > region && 2 * (end + len)
                    > usize::MAX) {
                    Err(PiramidError::Io)
                } else {
                    Ok((end + len, grown_len(region, end + len)))
                }
            },
        }
    }
}

/// Where the document at place `j` of `order` lies once the documents were
/// packed: behind the documents before it, with the length of its binary
/// form.
pub open spec fn packed_at(
    live: Map<DocId, DocumentView>,
    order: Seq<DocId>,
    initial: int,
    j: int,
) -> EntryPointer {
    EntryPointer {
        offset: packed(live, order, initial, j)->Ok_0.0 as u64,
        length: enc_document(live[order[j]]).len() as u32,
    }
}

/// Whether the table points at the documents as they lie packed: the first
/// at 0, each other behind the one before it in `order`, without a gap,
/// in a region as long as packing them made it.
pub open spec fn lies_packed(
    store: &DocumentStore,
    live: Map<DocId, DocumentView>,
    order: Seq<DocId>,
    initial: int,
) -> bool {
    &&& packed(live, order, initial, order.len() as int) == Ok::<(int, int), PiramidError>(
        (high_water(store.index@), store.region@.len() as int),
    )
    &&& forall|j: int|
        0 <= j < order.len() ==> store.index@.contains_key(#[trigger] order[j])
            && store.index@[order[j]] == packed_at(live, order, initial, j)
}

/// Documents of which the first ones cannot be packed cannot be packed.
proof fn lemma_packed_fails(
    live: Map<DocId, DocumentView>,
    order: Seq<DocId>,
    initial: int,
    n: int,
    m: int,
)
    requires
        0 <= n <= m,
        packed(live, order, initial, n) is Err,
    ensures
        packed(live, order, initial, m) == packed(live, order, initial, n),
    decreases m - n,
{
    if n < m {
        lemma_packed_fails(live, order, initial, n, m - 1);
    }
}

/// A store that holds the documents of `store`, appended in the order of
/// its table, one behind the other, to an empty region of `initial` bytes.
fn rewritten(store: &DocumentStore, initial: u64) -> (r: Result<DocumentStore, PiramidError>)
    requires
        store.wf(),
        initial <= usize::MAX,
    ensures
        match r {
            Ok(fresh) => {
                &&& fresh.wf()
                &&& fresh.live() == store.live()
                &&& non_overlapping(fresh.index@)
                &&& fresh.region@.len() >= initial
                &&& lies_packed(&fresh, store.live(), store.index.order(), initial as int)
            },
            Err(e) => packed(
                store.live(),
                store.index.order(),
                initial as int,
                store.index.order().len() as int,
            ) == Err::<(int, int), PiramidError>(e),
        },
{
    let mut fresh = DocumentStore::new(Vec::new());
    let sized = fresh.ensure_size(initial);
    assert(sized is Ok);
    let ids = store.index.ids();
    let mut i: usize = 0;
    assert(ids@.take(0).to_set() =~= Set::<DocId>::empty());
    assert(fresh.live() =~= store.live().restrict(ids@.take(0).to_set()));
    proof {
        fresh.lemma_has_high_water();
        assert(is_high_water(fresh.index@, 0));
        lemma_high_water(fresh.index@, 0);
    }
    while i < ids.len()
        invariant
            i <= ids.len(),
            store.wf(),
            fresh.wf(),
            ids@ == store.index.order(),
            forall|id: DocId| ids@.contains(id) <==> store.live().contains_key(id),
            fresh.live() == store.live().restrict(ids@.take(i as int).to_set()),
            non_overlapping(fresh.index@),
            fresh.region@.len() >= initial,
            packed(store.live(), ids@, initial as int, i as int) == Ok::<(int, int), PiramidError>(
                (high_water(fresh.index@), fresh.region@.len() as int),
            ),
            ids@.no_duplicates(),
            forall|j: int|
                0 <= j < i ==> fresh.index@.contains_key(#[trigger] ids@[j]) && fresh.index@[ids@[j]]
                    == packed_at(store.live(), ids@, initial as int, j),
        decreases ids.len() - i,
    {
        let id = ids[i];
        let ghost seen = ids@.take(i as int);
        let ghost next = ids@.take(i + 1);
        proof {
            assert(ids@.contains(id));
            assert(next.to_set() =~= seen.to_set().insert(id)) by {
                assert forall|x: DocId| next.to_set().contains(x) <==> seen.to_set().insert(
                    id,
                ).contains(x) by {
                    if next.contains(x) {
                        let k = choose|k: int| 0 <= k < next.len() && next[k] == x;
                        if k < i {
                            assert(seen[k] == x);
                        }
                    }
                    if seen.contains(x) {
                        let k = choose|k: int| 0 <= k < seen.len() && seen[k] == x;
                        assert(next[k] == x);
                    }
                    if x == id {
                        assert(next[i as int] == x);
                    }
                }
            }
        }
        let ghost before = fresh;
        match store.get(id) {
            Some(doc) => {
                match fresh.append(&doc) {
                    Ok(p) => {
                        proof {
                            before.lemma_has_high_water();
                            lemma_high_water_insert(before.index@, id, p);
                            assert(p == packed_at(store.live(), ids@, initial as int, i as int));
                            assert forall|j: int| 0 <= j < i + 1 implies fresh.index@.contains_key(
                                #[trigger] ids@[j],
                            ) && fresh.index@[ids@[j]] == packed_at(
                                store.live(),
                                ids@,
                                initial as int,
                                j,
                            ) by {
                                if j < i {
                                    assert(ids@[j] != ids@[i as int]);
                                }
                            }
                        }
                    },
                    Err(e) => {
                        proof {
                            lemma_packed_fails(
                                store.live(),
                                ids@,
                                initial as int,
                                i + 1,
                                ids@.len() as int,
                            );
                        }
                        return Err(e);
                    },
                }
                assert(fresh.live() =~= store.live().restrict(next.to_set()));
            },
            None => {},
        }
        i += 1;
    }
    proof {
        assert(ids@.take(ids.len() as int) =~= ids@);
        assert(fresh.live() =~= store.live());
    }
    Ok(fresh)
}

/// Why a compaction is refused, if it is: the collection is read-only, the
/// log is out of sequence numbers, the machine cannot address the initial
/// size of the region, or the live documents cannot be packed into it.
pub open spec fn compact_refusal(collection: &Collection) -> Option<PiramidError> {
    let initial = collection.config.memory.initial_size_spec();
    let order = collection.store.index.order();
    if collection.read_only {
        Some(PiramidError::ReadOnlyMode)
    } else if collection.next_seq() >= u64::MAX - 1 || initial > usize::MAX {
        Some(PiramidError::Io)
    } else {
        match packed(collection.live(), order, initial as int, order.len() as int) {
            Err(e) => Some(e),
            Ok(_) => None,
        }
    }
}

/// Compact the collection: write the live documents anew into an emptied
/// region, point the table at them, build the caches and the index anew,
/// and take a checkpoint. The live documents stay what they are; afterwards
/// they lie packed from the start of the region in the order of the table,
/// without a gap, and the log is its header alone.
///
/// Fails, changing nothing, exactly as `compact_refusal` says.
pub fn compact<H: Host>(collection: &mut Collection, host: &H) -> (r: Result<
    CompactStats,
    PiramidError,
>)
    requires
        old(collection).wf(),
    ensures
        match r {
            Ok(stats) => {
                &&& !old(collection).read_only
                &&& old(collection).next_seq() < u64::MAX - 1
                &&& final(collection).wf()
                &&& final(collection).caches_consistent()
                &&& final(collection).live() == old(collection).live()
                &&& stats.original_entries == old(collection).live().dom().len()
                &&& stats.compacted_entries == stats.original_entries
                &&& non_overlapping(final(collection).store.index@)
                &&& lies_packed(
                    &final(collection).store,
                    old(collection).live(),
                    old(collection).store.index.order(),
                    old(collection).config.memory.initial_size_spec() as int,
                )
                &&& old(collection).config.wal.enabled ==> final(collection).persistence.wal@.lines
                    == seq![WalLineView::Header { version: WAL_VERSION }]
                &&& final(collection).config == old(collection).config
                &&& final(collection).read_only == old(collection).read_only
                &&& final(collection).next_seq() >= old(collection).next_seq()
                &&& final(collection).pending() == Ok::<Seq<WalEntryView>, PiramidError>(
                    Seq::<WalEntryView>::empty(),
                )
            },
            Err(e) => {
                &&& *final(collection) == *old(collection)
                &&& compact_refusal(old(collection)) == Some(e)
            },
        },
        r is Err <==> compact_refusal(old(collection)) is Some,
{
    if collection.read_only {
        return Err(PiramidError::ReadOnlyMode);
    }
    if collection.persistence.wal.next_seq >= u64::MAX - 1 {
        return Err(PiramidError::Io);
    }
    let initial: u64 = collection.config.memory.initial_size();
    if initial > usize::MAX as u64 {
        return Err(PiramidError::Io);
    }
    let original_entries: usize = collection.store.len();
    let fresh = match rewritten(&collection.store, initial) {
        Ok(fresh) => fresh,
        Err(e) => { return Err(e); },
    };
    collection.store = fresh;
    rebuild(collection);
    rebuild_vector_index(collection, host);
    save_index(collection);
    let now: u64 = host.now_secs();
    let done = checkpoint(collection, now);
    assert(done is Ok);
    let compacted_entries: usize = collection.store.len();
    Ok(CompactStats { original_entries, compacted_entries })
}

} // verus!
