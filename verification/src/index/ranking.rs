//! Ranking scored ids: best first, and the best k of a scan.

use vstd::prelude::*;
use crate::score::Score;
use crate::DocId;

verus! {

/// An id with its similarity to a query.
#[derive(Debug, Clone, Copy, PartialEq, Eq, Structural)]
pub struct Scored {
    pub id: DocId,
    pub score: Score,
}

/// Whether `a` ranks before `b`: it has the higher similarity, or the same
/// similarity and the lower id.
pub open spec fn ranks_before(a: Scored, b: Scored) -> bool {
    a.score.key > b.score.key || (a.score.key == b.score.key && a.id < b.id)
}

/// Whether the sequence is ranked: each element ranks before all behind it.
pub open spec fn ranked(s: Seq<Scored>) -> bool {
    forall|i: int, j: int| 0 <= i < j < s.len() ==> ranks_before(#[trigger] s[i], #[trigger] s[j])
}

/// Whether no id occurs twice.
pub open spec fn distinct_ids(s: Seq<Scored>) -> bool {
    forall|i: int, j: int| 0 <= i < j < s.len() ==> (#[trigger] s[i]).id != (#[trigger] s[j]).id
}

/// The smaller of two numbers.
pub open spec fn least(a: int, b: int) -> int {
    if a <= b {
        a
    } else {
        b
    }
}

/// Whether `hits` are the best `k` of `scan`: as many as `k` allows, each
/// taken from the scan, ranked, and such that everything left out ranks
/// behind every hit.
pub open spec fn is_best_k(hits: Seq<Scored>, scan: Seq<Scored>, k: int) -> bool {
    &&& hits.len() == least(k, scan.len() as int)
    &&& ranked(hits)
    &&& forall|i: int| 0 <= i < hits.len() ==> scan.contains(#[trigger] hits[i])
    &&& forall|i: int, j: int|
        0 <= i < hits.len() && 0 <= j < scan.len() && !hits.contains(scan[j]) ==> ranks_before(
            #[trigger] hits[i],
            #[trigger] scan[j],
        )
}

/// Whether `a` ranks before `b`.
pub fn better(a: &Scored, b: &Scored) -> (r: bool)
    ensures
        r == ranks_before(*a, *b),
{
    a.score.key > b.score.key || (a.score.key == b.score.key && a.id < b.id)
}

/// Offer `x` to the best `k` of what was scanned so far: it takes its place
/// among them where it ranks before the last of them or where there are
/// fewer than `k`, and the last one leaves where there are more than `k`.
pub(crate) fn offer(best: &mut Vec<Scored>, k: usize, x: Scored, Ghost(seen): Ghost<Seq<Scored>>)
    requires
        is_best_k(old(best)@, seen, k as int),
        distinct_ids(seen.push(x)),
    ensures
        is_best_k(final(best)@, seen.push(x), k as int),
{
    let ghost before = best@;
    let ghost all = seen.push(x);
    let n: usize = best.len();
    proof {
        assert(all[seen.len() as int] == x);
        assert forall|j: int| 0 <= j < seen.len() implies all[j] == seen[j] by {}
        assert forall|i: int| 0 <= i < before.len() implies (#[trigger] before[i]).id != x.id by {
            assert(seen.contains(before[i]));
            let j = choose|j: int| 0 <= j < seen.len() && seen[j] == before[i];
            assert(all[j].id != all[seen.len() as int].id);
        }
    }
    if k == 0 {
        return;
    }
    if n == k && !better(&x, &best[n - 1]) {
        proof {
            assert forall|i: int, j: int|
                0 <= i < before.len() && 0 <= j < all.len() && !before.contains(
                    all[j],
                ) implies ranks_before(#[trigger] before[i], #[trigger] all[j]) by {
                if j == seen.len() {
                    assert(before[n - 1].id != x.id);
                    assert(ranks_before(before[n - 1], x));
                    if i < n - 1 {
                        assert(ranks_before(before[i], before[n - 1]));
                    }
                }
            }
            assert forall|i: int| 0 <= i < before.len() implies all.contains(
                #[trigger] before[i],
            ) by {
                let j = choose|j: int| 0 <= j < seen.len() && seen[j] == before[i];
                assert(all[j] == before[i]);
            }
        }
        return;
    }
    let mut p: usize = 0;
    while p < n && better(&best[p], &x)
        invariant
            p <= n,
            n == best.len(),
            best@ == before,
            forall|i: int| 0 <= i < p ==> ranks_before(#[trigger] before[i], x),
        decreases n - p,
    {
        p += 1;
    }
    best.insert(p, x);
    let ghost grown = best@;
    proof {
        assert(grown[p as int] == x);
        assert forall|i: int| 0 <= i < p implies grown[i] == before[i] by {}
        assert forall|i: int| p < i < grown.len() implies grown[i] == before[i - 1] by {}
        assert forall|i: int| p <= i < before.len() implies ranks_before(x, #[trigger] before[i]) by {
            assert(before[i].id != x.id);
            if i > p {
                assert(ranks_before(before[p as int], before[i]));
            }
        }
        assert(ranked(grown)) by {
            assert forall|i: int, j: int| 0 <= i < j < grown.len() implies ranks_before(
                #[trigger] grown[i],
                #[trigger] grown[j],
            ) by {
                if j < p {
                    assert(ranks_before(before[i], before[j]));
                } else if j == p {
                    assert(ranks_before(before[i], x));
                } else if i < p {
                    assert(ranks_before(before[i], before[j - 1]));
                } else if i == p {
                    assert(ranks_before(x, before[j - 1]));
                } else {
                    assert(ranks_before(before[i - 1], before[j - 1]));
                }
            }
        }
    }
    if best.len() > k {
        best.pop();
    }
    proof {
        let after = best@;
        assert forall|i: int| 0 <= i < after.len() implies after[i] == grown[i] by {}
        assert forall|i: int| 0 <= i < after.len() implies all.contains(#[trigger] after[i]) by {
            if i < p {
                let j = choose|j: int| 0 <= j < seen.len() && seen[j] == before[i];
                assert(all[j] == after[i]);
            } else if i == p {
                assert(all[seen.len() as int] == after[i]);
            } else {
                let j = choose|j: int| 0 <= j < seen.len() && seen[j] == before[i - 1];
                assert(all[j] == after[i]);
            }
        }
        assert forall|i: int, j: int|
            0 <= i < after.len() && 0 <= j < all.len() && !after.contains(all[j]) implies ranks_before(
            #[trigger] after[i],
            #[trigger] all[j],
        ) by {
            let o = all[j];
            if j == seen.len() {
                // x itself was left out: it was inserted at p and then popped,
                // which cannot be, as it ranks before the element that left.
                assert(grown[p as int] == x);
                if (p as int) < after.len() {
                    assert(after[p as int] == x);
                    assert(after.contains(x));
                }
            } else if before.contains(o) {
                // an old hit that left: it was the last of the grown sequence.
                let q = choose|q: int| 0 <= q < before.len() && before[q] == o;
                let g = if q < p { q } else { q + 1 };
                assert(grown[g] == o);
                if g < after.len() {
                    assert(after[g] == o);
                    assert(after.contains(o));
                }
                assert(ranks_before(grown[i], grown[g]));
            } else {
                // left out before: it ranks behind every old hit, and behind x
                // because x ranks before an old hit or there was room.
                assert(seen[j] == o);
                if i < p {
                    assert(ranks_before(before[i], seen[j]));
                } else if i == p {
                    if (p as int) < before.len() {
                        assert(ranks_before(x, before[p as int]));
                        assert(ranks_before(before[p as int], seen[j]));
                    } else {
                        // x came last and stayed: there was room, so nothing
                        // was left out before.
                        assert(before.len() < k);
                        assert(before.len() == seen.len());
                        lemma_all_taken(before, seen, j);
                    }
                } else {
                    assert(ranks_before(before[i - 1], seen[j]));
                }
            }
        }
    }
}

/// Ranked hits that are as many as the scan, all taken from a scan without
/// repeated ids, leave nothing of the scan out.
pub proof fn lemma_all_taken(hits: Seq<Scored>, scan: Seq<Scored>, j: int)
    requires
        ranked(hits),
        distinct_ids(scan),
        hits.len() == scan.len(),
        forall|i: int| 0 <= i < hits.len() ==> scan.contains(#[trigger] hits[i]),
        0 <= j < scan.len(),
    ensures
        hits.contains(scan[j]),
{
    // The hits are pairwise different (they are ranked), so they are as many
    // different elements of the scan as the scan has.
    assert(hits.no_duplicates()) by {
        assert forall|a: int, b: int| 0 <= a < hits.len() && 0 <= b < hits.len() && a != b implies hits[a]
            != hits[b] by {
            if a < b {
                assert(ranks_before(hits[a], hits[b]));
            } else {
                assert(ranks_before(hits[b], hits[a]));
            }
        }
    }
    assert(scan.no_duplicates()) by {
        assert forall|a: int, b: int| 0 <= a < scan.len() && 0 <= b < scan.len() && a != b implies scan[a]
            != scan[b] by {
            if a < b {
                assert(scan[a].id != scan[b].id);
            } else {
                assert(scan[b].id != scan[a].id);
            }
        }
    }
    hits.unique_seq_to_set();
    scan.unique_seq_to_set();
    assert(hits.to_set().subset_of(scan.to_set()));
    vstd::set_lib::lemma_subset_equality(hits.to_set(), scan.to_set());
    assert(scan.to_set().contains(scan[j]));
}

/// Two elements of a scan without repeated ids are the same element or one
/// ranks before the other.
proof fn lemma_scan_order(scan: Seq<Scored>, a: Scored, b: Scored)
    requires
        distinct_ids(scan),
        scan.contains(a),
        scan.contains(b),
    ensures
        a == b || ranks_before(a, b) || ranks_before(b, a),
{
    let ia = choose|i: int| 0 <= i < scan.len() && scan[i] == a;
    let ib = choose|i: int| 0 <= i < scan.len() && scan[i] == b;
    if ia < ib {
        assert(scan[ia].id != scan[ib].id);
    } else if ib < ia {
        assert(scan[ib].id != scan[ia].id);
    }
}

/// Two selections of the best `k` of one scan agree at every place.
proof fn lemma_best_k_agree(h1: Seq<Scored>, h2: Seq<Scored>, scan: Seq<Scored>, k: int, i: int)
    requires
        distinct_ids(scan),
        is_best_k(h1, scan, k),
        is_best_k(h2, scan, k),
        0 <= i < h1.len(),
    ensures
        h1[i] == h2[i],
    decreases i,
{
    assert forall|j: int| 0 <= j < i implies h1[j] == h2[j] by {
        lemma_best_k_agree(h1, h2, scan, k, j);
    }
    let a = h1[i];
    let b = h2[i];
    lemma_scan_order(scan, a, b);
    if a != b {
        if ranks_before(a, b) {
            lemma_not_behind(h2, h1, scan, i, a);
        } else {
            lemma_not_behind(h1, h2, scan, i, b);
        }
    }
}

/// In a selection that agrees with another before place `i`, the element
/// that the other has at place `i` does not rank before the element at
/// place `i`.
proof fn lemma_not_behind(h: Seq<Scored>, other: Seq<Scored>, scan: Seq<Scored>, i: int, x: Scored)
    requires
        ranked(h),
        ranked(other),
        h.len() == other.len(),
        0 <= i < h.len(),
        other[i] == x,
        forall|j: int| 0 <= j < i ==> other[j] == h[j],
        forall|a: int, j: int|
            0 <= a < h.len() && 0 <= j < scan.len() && !h.contains(scan[j]) ==> ranks_before(
                #[trigger] h[a],
                #[trigger] scan[j],
            ),
        scan.contains(x),
    ensures
        !ranks_before(x, h[i]),
{
    if !ranks_before(x, h[i]) {
    } else if h.contains(x) {
        let p = choose|p: int| 0 <= p < h.len() && h[p] == x;
        if p < i {
            assert(other[p] == h[p]);
            assert(ranks_before(other[p], other[i]));
        } else if p > i {
            assert(ranks_before(h[i], h[p]));
        }
    } else {
        let j = choose|j: int| 0 <= j < scan.len() && scan[j] == x;
        assert(ranks_before(h[i], scan[j]));
    }
}

/// The best `k` of a scan without repeated ids are unique: whatever meets
/// `is_best_k` is the one ranked sequence of the `k` best.
pub proof fn lemma_best_k_unique(h1: Seq<Scored>, h2: Seq<Scored>, scan: Seq<Scored>, k: int)
    requires
        distinct_ids(scan),
        is_best_k(h1, scan, k),
        is_best_k(h2, scan, k),
    ensures
        h1 == h2,
{
    assert forall|i: int| 0 <= i < h1.len() implies h1[i] == h2[i] by {
        lemma_best_k_agree(h1, h2, scan, k, i);
    }
    assert(h1 =~= h2);
}

/// The best `k` of a scan.
pub fn top_k(scan: &Vec<Scored>, k: usize) -> (hits: Vec<Scored>)
    requires
        distinct_ids(scan@),
    ensures
        is_best_k(hits@, scan@, k as int),
{
    let mut best: Vec<Scored> = Vec::new();
    let mut i: usize = 0;
    assert(scan@.take(0) =~= Seq::<Scored>::empty());
    while i < scan.len()
        invariant
            i <= scan.len(),
            distinct_ids(scan@),
            is_best_k(best@, scan@.take(i as int), k as int),
        decreases scan.len() - i,
    {
        proof {
            assert(scan@.take(i as int).push(scan@[i as int]) =~= scan@.take(i + 1));
        }
        offer(&mut best, k, scan[i], Ghost(scan@.take(i as int)));
        i += 1;
    }
    assert(scan@.take(scan.len() as int) =~= scan@);
    best
}

} // verus!
