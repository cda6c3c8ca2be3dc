//! Finding near-duplicates: pairs of documents whose vectors are at least as
//! similar as a threshold asks.

use vstd::prelude::*;
use std::collections::HashMap;
use crate::config::execution::ExecutionMode;
use crate::config::search::SearchConfig;
use crate::distance::DistanceMetric;
use crate::host::{Host, Probe};
use crate::index::ann::sound_hits;
use crate::index::ranking::Scored;
use crate::quantization::QuantizedVector;
use crate::score::Score;
use crate::storage::collection::storage::Collection;
use crate::storage::store::DocumentStore;
use crate::DocId;

verus! {

broadcast use vstd::std_specs::hash::group_hash_axioms;

/// Two documents and their similarity. `id_a` is the lower id.
#[derive(Debug, Clone, Copy, PartialEq, Eq, Structural)]
pub struct DuplicateHit {
    pub id_a: DocId,
    pub id_b: DocId,
    pub score: Score,
}

/// Twice `l`, and never more than the machine can count.
pub open spec fn doubled(l: usize) -> int {
    if 2 * l > usize::MAX {
        usize::MAX as int
    } else {
        2 * l
    }
}

/// How many neighbours are asked of the index for each document: the
/// number given, else twice the limit and at least 10, else 49; never more
/// than there are other documents, and never fewer than 1.
pub open spec fn neighbor_count(k_override: Option<usize>, limit: Option<usize>, ids: usize) -> int {
    let base: int = match k_override {
        Some(k) => k as int,
        None => match limit {
            Some(l) => if doubled(l) < 10 {
                10
            } else {
                doubled(l)
            },
            None => 49,
        },
    };
    let others: int = if ids == 0 { 0 } else { ids - 1 };
    let capped: int = if base < others { base } else { others };
    if capped < 1 {
        1
    } else {
        capped
    }
}

/// How many neighbours are asked of the index for each document.
pub fn neighbor_k(k_override: Option<usize>, limit: Option<usize>, ids: usize) -> (r: usize)
    ensures
        r == neighbor_count(k_override, limit, ids),
        r >= 1,
{
    let base: usize = match k_override {
        Some(k) => k,
        None => match limit {
            Some(l) => {
                let twice: usize = if l > usize::MAX / 2 { usize::MAX } else { l * 2 };
                if twice < 10 { 10 } else { twice }
            },
            None => 49,
        },
    };
    let others: usize = if ids == 0 { 0 } else { ids - 1 };
    let capped: usize = if base < others { base } else { others };
    if capped < 1 { 1 } else { capped }
}

/// Whether the pairs are in the order of their similarity, highest first.
pub open spec fn by_score(pairs: Seq<DuplicateHit>) -> bool {
    forall|i: int, j: int|
        0 <= i < j < pairs.len() ==> (#[trigger] pairs[i]).score.key >= (#[trigger] pairs[j]).score.key
}

/// Whether no pair of documents occurs twice.
pub open spec fn distinct_pairs(pairs: Seq<DuplicateHit>) -> bool {
    forall|i: int, j: int|
        0 <= i < j < pairs.len() ==> !((#[trigger] pairs[i]).id_a == (#[trigger] pairs[j]).id_a
            && pairs[i].id_b == pairs[j].id_b)
}

/// Whether each pair names two different live documents, lower id first,
/// whose similarity reaches the threshold.
pub open spec fn pairs_valid(pairs: Seq<DuplicateHit>, live: Set<DocId>, threshold: Score) -> bool {
    forall|i: int|
        0 <= i < pairs.len() ==> (#[trigger] pairs[i]).id_a < pairs[i].id_b && live.contains(
            pairs[i].id_a,
        ) && live.contains(pairs[i].id_b) && pairs[i].score.key >= threshold.key
}

/// Whether `out` holds the elements of `input`, each once, in another order.
pub open spec fn rearranged(out: Seq<DuplicateHit>, input: Seq<DuplicateHit>, perm: Seq<int>) -> bool {
    &&& out.len() == input.len()
    &&& perm.len() == out.len()
    &&& perm.no_duplicates()
    &&& forall|j: int|
        0 <= j < out.len() ==> 0 <= #[trigger] perm[j] < input.len() && out[j] == input[perm[j]]
}

/// Whether `p` is the place of `x` among pairs that come highest first:
/// behind every pair that is at least as similar, before the first that is
/// less.
pub open spec fn is_place(out: Seq<DuplicateHit>, x: DuplicateHit, p: int) -> bool {
    &&& 0 <= p <= out.len()
    &&& forall|j: int| 0 <= j < p ==> (#[trigger] out[j]).score.key >= x.score.key
    &&& p < out.len() ==> out[p].score.key < x.score.key
}

/// The pairs with `x` put in its place.
pub open spec fn put_in_place(out: Seq<DuplicateHit>, x: DuplicateHit) -> Seq<DuplicateHit> {
    out.insert(choose|p: int| is_place(out, x, p), x)
}

/// The pairs in the order of their similarity, highest first; pairs of the
/// same similarity in the order they came in.
pub open spec fn sorted_by_score(pairs: Seq<DuplicateHit>) -> Seq<DuplicateHit>
    decreases pairs.len(),
{
    if pairs.len() == 0 {
        Seq::empty()
    } else {
        put_in_place(sorted_by_score(pairs.drop_last()), pairs.last())
    }
}

/// A pair has one place.
proof fn lemma_one_place(out: Seq<DuplicateHit>, x: DuplicateHit, p: int, q: int)
    requires
        is_place(out, x, p),
        is_place(out, x, q),
    ensures
        p == q,
{
    if p < q {
        assert(out[p].score.key >= x.score.key);
    } else if q < p {
        assert(out[q].score.key >= x.score.key);
    }
}

/// The pairs in the order of their similarity, highest first; pairs of the
/// same similarity stay in the order they came in.
pub fn sort_by_score(pairs: &Vec<DuplicateHit>) -> (out: Vec<DuplicateHit>)
    ensures
        out@ == sorted_by_score(pairs@),
        by_score(out@),
        exists|perm: Seq<int>| rearranged(out@, pairs@, perm),
{
    let mut out: Vec<DuplicateHit> = Vec::new();
    let ghost mut perm: Seq<int> = Seq::empty();
    let mut i: usize = 0;
    assert(pairs@.take(0) =~= Seq::<DuplicateHit>::empty());
    while i < pairs.len()
        invariant
            i <= pairs.len(),
            out@ == sorted_by_score(pairs@.take(i as int)),
            by_score(out@),
            rearranged(out@, pairs@.take(i as int), perm),
        decreases pairs.len() - i,
    {
        let x = pairs[i];
        let ghost before = out@;
        let ghost old_perm = perm;
        let n: usize = out.len();
        let mut p: usize = 0;
        while p < n && out[p].score.key >= x.score.key
            invariant
                p <= n,
                n == out.len(),
                out@ == before,
                forall|j: int| 0 <= j < p ==> (#[trigger] before[j]).score.key >= x.score.key,
            decreases n - p,
        {
            p += 1;
        }
        out.insert(p, x);
        proof {
            let next = pairs@.take(i + 1);
            assert(next.drop_last() =~= pairs@.take(i as int));
            assert(next.last() == x);
            assert(is_place(before, x, p as int));
            lemma_one_place(before, x, p as int, choose|q: int| is_place(before, x, q));
            perm = old_perm.insert(p as int, i as int);
            let after = out@;
            assert forall|a: int, b: int| 0 <= a < b < after.len() implies (#[trigger] after[a]).score.key
                >= (#[trigger] after[b]).score.key by {
                if b < p {
                    assert(after[a] == before[a] && after[b] == before[b]);
                } else if b == p {
                    assert(after[a] == before[a]);
                } else if a < p {
                    assert(after[a] == before[a] && after[b] == before[b - 1]);
                } else if a == p {
                    assert(after[b] == before[b - 1]);
                    assert(before[p as int].score.key < x.score.key);
                    if b - 1 > p {
                        assert(before[p as int].score.key >= before[b - 1].score.key);
                    }
                } else {
                    assert(after[a] == before[a - 1] && after[b] == before[b - 1]);
                }
            }
            assert forall|j: int| 0 <= j < after.len() implies 0 <= #[trigger] perm[j] < i + 1
                && after[j] == pairs@.take(i + 1)[perm[j]] by {
                if j < p {
                    assert(perm[j] == old_perm[j]);
                    assert(after[j] == before[j]);
                } else if j > p {
                    assert(perm[j] == old_perm[j - 1]);
                    assert(after[j] == before[j - 1]);
                }
            }
            assert forall|a: int, b: int| 0 <= a < perm.len() && 0 <= b < perm.len() && a != b implies perm[a]
                != perm[b] by {
                let oa = if a < p { a } else { a - 1 };
                let ob = if b < p { b } else { b - 1 };
                if a != p && b != p {
                    assert(perm[a] == old_perm[oa] && perm[b] == old_perm[ob]);
                } else if a == p {
                    assert(perm[b] == old_perm[ob]);
                } else {
                    assert(perm[a] == old_perm[oa]);
                }
            }
        }
        i += 1;
    }
    assert(pairs@.take(pairs.len() as int) =~= pairs@);
    out
}

/// What the index answered when it was asked for the neighbours of a
/// document.
#[derive(Debug)]
pub struct Answer {
    /// The document whose neighbours were asked for.
    pub id: DocId,
    /// The neighbours, best first.
    pub hits: Vec<Scored>,
}

/// Two ids as a pair, the lower one first.
pub open spec fn pair_of(a: DocId, b: DocId) -> (DocId, DocId) {
    if a < b {
        (a, b)
    } else {
        (b, a)
    }
}

/// The pairs that one answer brings, in the order of the neighbours: the
/// document with each neighbour that is live and not the document itself.
pub open spec fn pairs_of_answer(id: DocId, hits: Seq<Scored>, live: Set<DocId>) -> Seq<
    (DocId, DocId),
>
    decreases hits.len(),
{
    if hits.len() == 0 {
        Seq::empty()
    } else if hits.last().id != id && live.contains(hits.last().id) {
        pairs_of_answer(id, hits.drop_last(), live).push(pair_of(id, hits.last().id))
    } else {
        pairs_of_answer(id, hits.drop_last(), live)
    }
}

/// The pairs that the answers bring, in the order of the answers.
pub open spec fn pairs_of_answers(asked: Seq<Answer>, live: Set<DocId>) -> Seq<(DocId, DocId)>
    decreases asked.len(),
{
    if asked.len() == 0 {
        Seq::empty()
    } else {
        pairs_of_answers(asked.drop_last(), live) + pairs_of_answer(
            asked.last().id,
            asked.last().hits@,
            live,
        )
    }
}

/// The pairs, each once, in the order in which they first come.
pub open spec fn each_once(pairs: Seq<(DocId, DocId)>) -> Seq<(DocId, DocId)>
    decreases pairs.len(),
{
    if pairs.len() == 0 {
        Seq::empty()
    } else if each_once(pairs.drop_last()).contains(pairs.last()) {
        each_once(pairs.drop_last())
    } else {
        each_once(pairs.drop_last()).push(pairs.last())
    }
}

/// The pairs of two documents that both have a vector, in their order.
pub open spec fn with_vectors(pairs: Seq<(DocId, DocId)>, vectors: Set<DocId>) -> Seq<
    (DocId, DocId),
>
    decreases pairs.len(),
{
    if pairs.len() == 0 {
        Seq::empty()
    } else if vectors.contains(pairs.last().0) && vectors.contains(pairs.last().1) {
        with_vectors(pairs.drop_last(), vectors).push(pairs.last())
    } else {
        with_vectors(pairs.drop_last(), vectors)
    }
}

/// Whether `scored` gives a similarity to each of the pairs, in their
/// order.
pub open spec fn scores_of(scored: Seq<DuplicateHit>, pairs: Seq<(DocId, DocId)>) -> bool {
    &&& scored.len() == pairs.len()
    &&& forall|j: int|
        0 <= j < scored.len() ==> (#[trigger] scored[j]).id_a == pairs[j].0 && scored[j].id_b
            == pairs[j].1
}

/// The pairs whose similarity reaches the threshold, in their order.
pub open spec fn reaching(scored: Seq<DuplicateHit>, threshold: Score) -> Seq<DuplicateHit>
    decreases scored.len(),
{
    if scored.len() == 0 {
        Seq::empty()
    } else if scored.last().score.key >= threshold.key {
        reaching(scored.drop_last(), threshold).push(scored.last())
    } else {
        reaching(scored.drop_last(), threshold)
    }
}

/// The near-duplicates among scored pairs: those whose similarity reaches
/// the threshold, the most similar first, and no more than the limit.
pub open spec fn selected(scored: Seq<DuplicateHit>, threshold: Score, limit: Option<usize>) -> Seq<
    DuplicateHit,
> {
    let sorted = sorted_by_score(reaching(scored, threshold));
    match limit {
        Some(max) => if sorted.len() > max {
            sorted.take(max as int)
        } else {
            sorted
        },
        None => sorted,
    }
}

/// The tuning under which the index is asked for neighbours: what is
/// given, else the collection's own.
pub open spec fn tuning_for(
    collection: &Collection,
    ef_override: Option<usize>,
    nprobe_override: Option<usize>,
) -> SearchConfig {
    SearchConfig {
        ef: match ef_override {
            Some(ef) => Some(ef),
            None => collection.config.search.ef,
        },
        nprobe: match nprobe_override {
            Some(n) => Some(n),
            None => collection.config.search.nprobe,
        },
        filter_overfetch: collection.config.search.filter_overfetch,
    }
}

/// Whether `asked` holds, for each document of the table in its order, an
/// answer that the index of the collection owes when it is asked for `k`
/// neighbours of that document's cached vector; a document without cached
/// vector has no neighbours.
pub open spec fn answers(collection: &Collection, asked: Seq<Answer>, k: int, tuning: SearchConfig) -> bool {
    let ids = collection.store.index.order();
    let vectors = collection.vector_cache@.dom();
    &&& asked.len() == ids.len()
    &&& forall|i: int|
        0 <= i < asked.len() ==> (#[trigger] asked[i]).id == ids[i] && if vectors.contains(ids[i]) {
            sound_hits(asked[i].hits@, k, vectors) && collection.vector_index.exact_hits(
                asked[i].hits@,
                k,
                ids,
                vectors,
                tuning,
            )
        } else {
            asked[i].hits@.len() == 0
        }
}

/// Whether the pairs `scored` are what a search for duplicates examines:
/// the index was asked for `k` neighbours of every document, and each pair
/// of a document and a live neighbour got its similarity once.
pub open spec fn examined(
    collection: &Collection,
    asked: Seq<Answer>,
    scored: Seq<DuplicateHit>,
    k: int,
    tuning: SearchConfig,
) -> bool {
    &&& answers(collection, asked, k, tuning)
    &&& scores_of(
        scored,
        with_vectors(
            each_once(pairs_of_answers(asked, collection.live().dom())),
            collection.vector_cache@.dom(),
        ),
    )
}

/// Pairs of two documents that have a vector are among the pairs, and none
/// comes twice where none did.
proof fn lemma_with_vectors(pairs: Seq<(DocId, DocId)>, vectors: Set<DocId>)
    ensures
        forall|x: (DocId, DocId)| #[trigger]
            with_vectors(pairs, vectors).contains(x) ==> pairs.contains(x),
        pairs.no_duplicates() ==> with_vectors(pairs, vectors).no_duplicates(),
    decreases pairs.len(),
{
    let w = with_vectors(pairs, vectors);
    if pairs.len() > 0 {
        let init = pairs.drop_last();
        let rest = with_vectors(init, vectors);
        lemma_with_vectors(init, vectors);
        assert forall|x: (DocId, DocId)| #[trigger] w.contains(x) implies pairs.contains(x) by {
            let j = choose|j: int| 0 <= j < w.len() && w[j] == x;
            if j < rest.len() {
                assert(rest[j] == x);
                assert(rest.contains(x));
                let m = choose|m: int| 0 <= m < init.len() && init[m] == x;
                assert(pairs[m] == x);
            } else {
                assert(pairs[pairs.len() - 1] == x);
            }
        }
        if pairs.no_duplicates() {
            assert(init.no_duplicates());
            assert forall|a: int, b: int| 0 <= a < w.len() && 0 <= b < w.len() && a != b implies w[a]
                != w[b] by {
                if a < rest.len() && b < rest.len() {
                    assert(w[a] == rest[a] && w[b] == rest[b]);
                } else {
                    let low = if a < b { a } else { b };
                    assert(w[low] == rest[low]);
                    assert(rest.contains(rest[low]));
                    let m = choose|m: int| 0 <= m < init.len() && init[m] == rest[low];
                    assert(pairs[m] == rest[low]);
                    assert(pairs[pairs.len() - 1] == pairs.last());
                }
            }
        }
    }
}

/// The pairs that reach the threshold are among the pairs, reach it, and
/// no two documents come twice where none did.
proof fn lemma_reaching(scored: Seq<DuplicateHit>, threshold: Score)
    ensures
        forall|j: int|
            0 <= j < reaching(scored, threshold).len() ==> scored.contains(
                #[trigger] reaching(scored, threshold)[j],
            ) && reaching(scored, threshold)[j].score.key >= threshold.key,
        distinct_pairs(scored) ==> distinct_pairs(reaching(scored, threshold)),
    decreases scored.len(),
{
    let r = reaching(scored, threshold);
    if scored.len() > 0 {
        let init = scored.drop_last();
        let rest = reaching(init, threshold);
        lemma_reaching(init, threshold);
        assert forall|j: int| 0 <= j < r.len() implies scored.contains(#[trigger] r[j])
            && r[j].score.key >= threshold.key by {
            if j < rest.len() {
                assert(r[j] == rest[j]);
                let m = choose|m: int| 0 <= m < init.len() && init[m] == rest[j];
                assert(scored[m] == r[j]);
            } else {
                assert(scored[scored.len() - 1] == r[j]);
            }
        }
        if distinct_pairs(scored) {
            assert(distinct_pairs(init)) by {
                assert forall|a: int, b: int| 0 <= a < b < init.len() implies !((
                #[trigger] init[a]).id_a == (#[trigger] init[b]).id_a && init[a].id_b
                    == init[b].id_b) by {
                    assert(init[a] == scored[a] && init[b] == scored[b]);
                }
            }
            assert forall|a: int, b: int| 0 <= a < b < r.len() implies !((#[trigger] r[a]).id_a == (
            #[trigger] r[b]).id_a && r[a].id_b == r[b].id_b) by {
                if b < rest.len() {
                    assert(r[a] == rest[a] && r[b] == rest[b]);
                } else {
                    assert(r[a] == rest[a]);
                    let m = choose|m: int| 0 <= m < init.len() && init[m] == rest[a];
                    assert(scored[m] == init[m]);
                    assert(r[b] == scored[scored.len() - 1]);
                }
            }
        }
    }
}

/// Ask the index for the neighbours of every document of the table.
fn ask_all<H: Host>(
    collection: &Collection,
    ids: &Vec<DocId>,
    k: usize,
    tuning: &SearchConfig,
    host: &H,
) -> (asked: Vec<Answer>)
    requires
        collection.inner_wf(),
        ids@ == collection.store.index.order(),
        ids@.no_duplicates(),
    ensures
        answers(collection, asked@, k as int, *tuning),
{
    let mut asked: Vec<Answer> = Vec::new();
    let mut i: usize = 0;
    while i < ids.len()
        invariant
            i <= ids.len(),
            collection.inner_wf(),
            ids@ == collection.store.index.order(),
            ids@.no_duplicates(),
            asked@.len() == i,
            forall|j: int|
                0 <= j < i ==> (#[trigger] asked@[j]).id == ids@[j] && if collection.vector_cache@.dom().contains(
                    ids@[j],
                ) {
                    sound_hits(asked@[j].hits@, k as int, collection.vector_cache@.dom())
                        && collection.vector_index.exact_hits(
                        asked@[j].hits@,
                        k as int,
                        ids@,
                        collection.vector_cache@.dom(),
                        *tuning,
                    )
                } else {
                    asked@[j].hits@.len() == 0
                },
        decreases ids.len() - i,
    {
        let id = ids[i];
        let hits = match collection.vector_cache.get(&id) {
            Some(v) => {
                let probe: Probe<'_, H::Query> = Probe::Stored(v);
                collection.vector_index.search(
                    &probe,
                    k,
                    ids,
                    &collection.vector_cache,
                    tuning,
                    host,
                )
            },
            None => Vec::new(),
        };
        let ghost before = asked@;
        asked.push(Answer { id, hits });
        proof {
            assert forall|j: int| 0 <= j < i implies asked@[j] == before[j] by {}
        }
        i += 1;
    }
    asked
}

/// Whether the list holds the pair.
fn seen_before(seen: &Vec<(DocId, DocId)>, a: DocId, b: DocId) -> (r: bool)
    ensures
        r == seen@.contains((a, b)),
{
    let mut i: usize = 0;
    while i < seen.len()
        invariant
            i <= seen.len(),
            forall|j: int| 0 <= j < i ==> #[trigger] seen@[j] != (a, b),
        decreases seen.len() - i,
    {
        if seen[i].0 == a && seen[i].1 == b {
            return true;
        }
        i += 1;
    }
    false
}

/// The pairs of documents that the answers bring together: each document
/// that was asked for with each of its neighbours that is live and not the
/// document itself, the lower id first, each pair once, in the order in
/// which the pairs first come.
#[verifier::rlimit(30)]
pub fn pair_up(asked: &Vec<Answer>, store: &DocumentStore) -> (pairs: Vec<(DocId, DocId)>)
    requires
        store.wf(),
    ensures
        pairs@ == each_once(pairs_of_answers(asked@, store.live().dom())),
        pairs@.no_duplicates(),
        forall|j: int|
            0 <= j < pairs@.len() ==> (#[trigger] pairs@[j]).0 < pairs@[j].1 && exists|i: int|
                0 <= i < asked@.len() && pairs_of_answer(
                    (#[trigger] asked@[i]).id,
                    asked@[i].hits@,
                    store.live().dom(),
                ).contains(pairs@[j]),
{
    let ghost live = store.live().dom();
    let mut seen: Vec<(DocId, DocId)> = Vec::new();
    let mut i: usize = 0;
    assert(asked@.take(0) =~= Seq::<Answer>::empty());
    while i < asked.len()
        invariant
            i <= asked.len(),
            store.wf(),
            live == store.live().dom(),
            seen@ == each_once(pairs_of_answers(asked@.take(i as int), live)),
            seen@.no_duplicates(),
            forall|j: int|
                0 <= j < seen@.len() ==> (#[trigger] seen@[j]).0 < seen@[j].1 && exists|m: int|
                    0 <= m < i && pairs_of_answer(
                        (#[trigger] asked@[m]).id,
                        asked@[m].hits@,
                        live,
                    ).contains(seen@[j]),
        decreases asked.len() - i,
    {
        let id = asked[i].id;
        let ghost done = pairs_of_answers(asked@.take(i as int), live);
        let ghost hits = asked@[i as int].hits@;
        let count: usize = asked[i].hits.len();
        let mut n: usize = 0;
        proof {
            assert(hits.take(0) =~= Seq::<Scored>::empty());
            assert(done + pairs_of_answer(id, hits.take(0), live) =~= done);
        }
        while n < count
            invariant
                n <= count,
                i < asked.len(),
                store.wf(),
                live == store.live().dom(),
                id == asked@[i as int].id,
                hits == asked@[i as int].hits@,
                count == hits.len(),
                seen@ == each_once(done + pairs_of_answer(id, hits.take(n as int), live)),
                seen@.no_duplicates(),
                forall|j: int|
                    0 <= j < seen@.len() ==> (#[trigger] seen@[j]).0 < seen@[j].1 && ((exists|m: int|
                        0 <= m < i && pairs_of_answer(
                            (#[trigger] asked@[m]).id,
                            asked@[m].hits@,
                            live,
                        ).contains(seen@[j])) || pairs_of_answer(
                        id,
                        hits.take(n as int),
                        live,
                    ).contains(seen@[j])),
            decreases count - n,
        {
            let other = asked[i].hits[n].id;
            let ghost part = pairs_of_answer(id, hits.take(n as int), live);
            let ghost grown = pairs_of_answer(id, hits.take(n + 1), live);
            let ghost before = seen@;
            proof {
                assert(hits.take(n + 1).drop_last() =~= hits.take(n as int));
                assert(hits.take(n + 1).last() == hits[n as int]);
                assert forall|x: (DocId, DocId)| part.contains(x) implies grown.contains(x) by {
                    let m = choose|m: int| 0 <= m < part.len() && part[m] == x;
                    assert(grown[m] == x);
                }
            }
            n += 1;
            if other != id && store.contains(other) {
                let (a, b) = if id < other { (id, other) } else { (other, id) };
                proof {
                    assert((a, b) == pair_of(id, other));
                    assert(grown == part.push((a, b)));
                    assert(done + grown =~= (done + part).push((a, b)));
                    assert((done + grown).drop_last() =~= done + part);
                    assert(grown[part.len() as int] == (a, b));
                }
                if !seen_before(&seen, a, b) {
                    seen.push((a, b));
                    proof {
                        assert forall|x: int, y: int|
                            0 <= x < seen@.len() && 0 <= y < seen@.len() && x != y implies seen@[x]
                            != seen@[y] by {
                            if x < before.len() && y < before.len() {
                                assert(seen@[x] == before[x] && seen@[y] == before[y]);
                            } else if x < before.len() {
                                assert(seen@[x] == before[x]);
                                assert(before.contains(before[x]));
                            } else {
                                assert(seen@[y] == before[y]);
                                assert(before.contains(before[y]));
                            }
                        }
                        assert forall|j: int| 0 <= j < seen@.len() implies (#[trigger] seen@[j]).0
                            < seen@[j].1 && ((exists|m: int|
                            0 <= m < i && pairs_of_answer(
                                (#[trigger] asked@[m]).id,
                                asked@[m].hits@,
                                live,
                            ).contains(seen@[j])) || grown.contains(seen@[j])) by {
                            if j < before.len() {
                                assert(seen@[j] == before[j]);
                            }
                        }
                    }
                }
            } else {
                assert(grown == part);
            }
        }
        proof {
            assert(hits.take(count as int) =~= hits);
            let next = asked@.take(i + 1);
            assert(next.drop_last() =~= asked@.take(i as int));
            assert(next.last() == asked@[i as int]);
        }
        i += 1;
    }
    assert(asked@.take(asked.len() as int) =~= asked@);
    seen
}

/// Give each pair of two documents that both have a cached vector its
/// similarity under `metric`.
fn score_all<H: Host>(
    pairs: &Vec<(DocId, DocId)>,
    vectors: &HashMap<DocId, QuantizedVector>,
    metric: DistanceMetric,
    mode: ExecutionMode,
    host: &H,
) -> (scored: Vec<DuplicateHit>)
    ensures
        scores_of(scored@, with_vectors(pairs@, vectors@.dom())),
{
    let mut scored: Vec<DuplicateHit> = Vec::new();
    let mut i: usize = 0;
    assert(pairs@.take(0) =~= Seq::<(DocId, DocId)>::empty());
    while i < pairs.len()
        invariant
            i <= pairs.len(),
            scores_of(scored@, with_vectors(pairs@.take(i as int), vectors@.dom())),
        decreases pairs.len() - i,
    {
        let (a, b) = pairs[i];
        let ghost before = scored@;
        proof {
            let next = pairs@.take(i + 1);
            assert(next.drop_last() =~= pairs@.take(i as int));
            assert(next.last() == (a, b));
        }
        match (vectors.get(&a), vectors.get(&b)) {
            (Some(va), Some(vb)) => {
                let score = host.similarity(metric, mode, va, vb);
                scored.push(DuplicateHit { id_a: a, id_b: b, score });
                proof {
                    let w = with_vectors(pairs@.take(i + 1), vectors@.dom());
                    assert forall|j: int| 0 <= j < scored@.len() implies (#[trigger] scored@[j]).id_a
                        == w[j].0 && scored@[j].id_b == w[j].1 by {
                        if j < before.len() {
                            assert(scored@[j] == before[j]);
                        }
                    }
                }
            },
            _ => {},
        }
        i += 1;
    }
    assert(pairs@.take(pairs.len() as int) =~= pairs@);
    scored
}

/// The near-duplicates among scored pairs: those whose similarity reaches
/// `threshold`, the most similar first (pairs of the same similarity in the
/// order they came in), and at most `limit` of them.
pub fn select_duplicates(scored: &Vec<DuplicateHit>, threshold: Score, limit: Option<usize>) -> (pairs:
    Vec<DuplicateHit>)
    ensures
        pairs@ == selected(scored@, threshold, limit),
        by_score(pairs@),
        limit is Some ==> pairs@.len() <= limit->0,
        forall|j: int|
            0 <= j < pairs@.len() ==> scored@.contains(#[trigger] pairs@[j]) && pairs@[j].score.key
                >= threshold.key,
        distinct_pairs(scored@) ==> distinct_pairs(pairs@),
{
    let mut kept: Vec<DuplicateHit> = Vec::new();
    let mut i: usize = 0;
    assert(scored@.take(0) =~= Seq::<DuplicateHit>::empty());
    while i < scored.len()
        invariant
            i <= scored.len(),
            kept@ == reaching(scored@.take(i as int), threshold),
        decreases scored.len() - i,
    {
        proof {
            let next = scored@.take(i + 1);
            assert(next.drop_last() =~= scored@.take(i as int));
            assert(next.last() == scored@[i as int]);
        }
        if scored[i].score.reaches(threshold) {
            kept.push(scored[i]);
        }
        i += 1;
    }
    assert(scored@.take(scored.len() as int) =~= scored@);
    let mut pairs = sort_by_score(&kept);
    proof {
        lemma_reaching(scored@, threshold);
        let perm = choose|perm: Seq<int>| rearranged(pairs@, kept@, perm);
        assert forall|j: int| 0 <= j < pairs@.len() implies scored@.contains(#[trigger] pairs@[j])
            && pairs@[j].score.key >= threshold.key by {
            assert(pairs@[j] == kept@[perm[j]]);
        }
        if distinct_pairs(scored@) {
            lemma_rearranged_distinct(pairs@, kept@, perm);
        }
    }
    if let Some(max) = limit {
        if pairs.len() > max {
            let ghost sorted = pairs@;
            pairs.truncate(max);
            proof {
                assert forall|j: int| 0 <= j < pairs@.len() implies pairs@[j] == sorted[j] by {}
            }
        }
    }
    pairs
}

/// A rearrangement keeps the pairs distinct.
proof fn lemma_rearranged_distinct(out: Seq<DuplicateHit>, input: Seq<DuplicateHit>, perm: Seq<int>)
    requires
        rearranged(out, input, perm),
        distinct_pairs(input),
    ensures
        distinct_pairs(out),
{
    assert forall|a: int, b: int| 0 <= a < b < out.len() implies !((#[trigger] out[a]).id_a == (
    #[trigger] out[b]).id_a && out[a].id_b == out[b].id_b) by {
        let ja = perm[a];
        let jb = perm[b];
        assert(ja != jb);
        assert(out[a] == input[ja] && out[b] == input[jb]);
        if ja < jb {
            assert(!(input[ja].id_a == input[jb].id_a && input[ja].id_b == input[jb].id_b));
        } else {
            assert(!(input[jb].id_a == input[ja].id_a && input[jb].id_b == input[ja].id_b));
        }
    }
}

/// The pairs of one answer name the document asked for and a live
/// neighbour of it.
proof fn lemma_pairs_of_answer(id: DocId, hits: Seq<Scored>, live: Set<DocId>, x: (DocId, DocId))
    requires
        pairs_of_answer(id, hits, live).contains(x),
    ensures
        x.0 < x.1,
        x.0 == id || live.contains(x.0),
        x.1 == id || live.contains(x.1),
    decreases hits.len(),
{
    let all = pairs_of_answer(id, hits, live);
    let j = choose|j: int| 0 <= j < all.len() && all[j] == x;
    if hits.len() > 0 {
        let rest = pairs_of_answer(id, hits.drop_last(), live);
        if j < rest.len() {
            assert(rest[j] == x);
            lemma_pairs_of_answer(id, hits.drop_last(), live, x);
        }
    }
}

/// Find near-duplicates: for each document, ask the index for its nearest
/// neighbours, score each pair of documents once under `metric`, and keep
/// the pairs whose similarity reaches `threshold`. The pairs come in the
/// order of their similarity, highest first, and at most `limit` of them.
///
/// What is returned is `selected` of the pairs examined: the index owes an
/// answer for every document, and every pair of a document and a live
/// neighbour of it is scored once.
#[verifier::rlimit(30)]
pub fn find_duplicates<H: Host>(
    collection: &Collection,
    metric: DistanceMetric,
    threshold: Score,
    limit: Option<usize>,
    k_override: Option<usize>,
    ef_override: Option<usize>,
    nprobe_override: Option<usize>,
    host: &H,
) -> (pairs: Vec<DuplicateHit>)
    requires
        collection.inner_wf(),
    ensures
        pairs_valid(pairs@, collection.live().dom(), threshold),
        distinct_pairs(pairs@),
        by_score(pairs@),
        limit is Some ==> pairs@.len() <= limit->0,
        exists|asked: Seq<Answer>, scored: Seq<DuplicateHit>| #[trigger]
            examined(
                collection,
                asked,
                scored,
                neighbor_count(k_override, limit, collection.live().dom().len() as usize),
                tuning_for(collection, ef_override, nprobe_override),
            ) && pairs@ == selected(scored, threshold, limit),
{
    let ids = collection.store.index.ids();
    let mode = collection.config.execution;
    let tuning = SearchConfig {
        ef: match ef_override {
            Some(ef) => Some(ef),
            None => collection.config.search.ef,
        },
        nprobe: match nprobe_override {
            Some(n) => Some(n),
            None => collection.config.search.nprobe,
        },
        filter_overfetch: collection.config.search.filter_overfetch,
    };
    let k: usize = neighbor_k(k_override, limit, ids.len());
    let ghost live = collection.live().dom();
    proof {
        collection.store.lemma_live_finite();
        collection.store.index.lemma_order();
        assert(live =~= collection.store.index@.dom());
    }
    let asked = ask_all(collection, &ids, k, &tuning, host);
    let candidates = pair_up(&asked, &collection.store);
    let scored = score_all(&candidates, &collection.vector_cache, metric, mode, host);
    let pairs = select_duplicates(&scored, threshold, limit);
    proof {
        let vectors = collection.vector_cache@.dom();
        let w = with_vectors(candidates@, vectors);
        lemma_with_vectors(candidates@, vectors);
        assert(distinct_pairs(scored@)) by {
            assert forall|a: int, b: int| 0 <= a < b < scored@.len() implies !((
            #[trigger] scored@[a]).id_a == (#[trigger] scored@[b]).id_a && scored@[a].id_b
                == scored@[b].id_b) by {
                assert(w[a] != w[b]);
            }
        }
        assert forall|j: int| 0 <= j < pairs@.len() implies (#[trigger] pairs@[j]).id_a
            < pairs@[j].id_b && live.contains(pairs@[j].id_a) && live.contains(pairs@[j].id_b)
            && pairs@[j].score.key >= threshold.key by {
            let m = choose|m: int| 0 <= m < scored@.len() && scored@[m] == pairs@[j];
            let x = w[m];
            assert(w.contains(x));
            assert(candidates@.contains(x));
            let c = choose|c: int| 0 <= c < candidates@.len() && candidates@[c] == x;
            let i = choose|i: int|
                0 <= i < asked@.len() && pairs_of_answer(
                    (#[trigger] asked@[i]).id,
                    asked@[i].hits@,
                    live,
                ).contains(candidates@[c]);
            lemma_pairs_of_answer(asked@[i].id, asked@[i].hits@, live, x);
            assert(asked@[i].id == ids@[i]);
            assert(ids@.contains(ids@[i]));
        }
        assert(ids@.len() == live.len());
        assert(k == neighbor_count(k_override, limit, live.len() as usize));
        assert(tuning == tuning_for(collection, ef_override, nprobe_override));
        assert(examined(collection, asked@, scored@, k as int, tuning));
    }
    pairs
}

} // verus!
