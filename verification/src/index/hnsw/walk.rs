//! The walk over one layer of the graph, and what it is sure to find.

use std::collections::HashMap;
use std::collections::HashSet;
use vstd::prelude::*;
use crate::host::{probe_similarity, Host, Probe};
use crate::index::hnsw::graph::{Candidate, HnswIndex};
use crate::index::ranking::{better, distinct_ids, is_best_k, lemma_all_taken, offer, Scored};
use crate::quantization::QuantizedVector;
use crate::score::Score;
use crate::DocId;

verus! {

broadcast use vstd::std_specs::hash::group_hash_axioms;

/// What a walk has done so far.
pub struct WalkGhost {
    /// The nodes that were scored and offered to the results, in order.
    pub seen: Seq<Scored>,
    /// The slots that were looked at, in order.
    pub order: Seq<int>,
    /// The slots that were taken off the frontier.
    pub expanded: Set<int>,
    /// How many slots were taken off the frontier.
    pub pops: nat,
    /// The slot whose neighbours are being looked at (-1: none).
    pub current: int,
    /// How many of its neighbours were looked at.
    pub upto: int,
}

/// Whether the node in slot `s` is on the frontier.
pub open spec fn on_frontier(frontier: Seq<Candidate>, s: int) -> bool {
    exists|j: int| 0 <= j < frontier.len() && (#[trigger] frontier[j]).slot == s
}

/// Whether one of the hits is of this id.
pub open spec fn has_id(hits: Seq<Scored>, id: DocId) -> bool {
    exists|i: int| 0 <= i < hits.len() && (#[trigger] hits[i]).id == id
}

impl HnswIndex {
    /// Whether the node in slot `a` has the node in slot `b` among its
    /// neighbours on `layer`.
    pub open spec fn edge(&self, layer: int, a: int, b: int) -> bool {
        &&& 0 <= a < self.nodes@.len()
        &&& 0 <= layer < self.nodes@[a].neighbors@.len()
        &&& 0 <= b < self.nodes@.len()
        &&& exists|j: int|
            0 <= j < self.list_at(a, layer).len() && (#[trigger] self.list_at(a, layer)[j]) == b
    }

    /// Whether the links of `layer` lead from one of `entries` to slot `s`
    /// in at most `steps` steps.
    pub open spec fn reached_in(&self, layer: int, entries: Seq<usize>, s: int, steps: nat) -> bool
        decreases steps,
    {
        if steps == 0 {
            0 <= s < self.nodes@.len() && exists|j: int|
                0 <= j < entries.len() && (#[trigger] entries[j]) == s
        } else {
            self.reached_in(layer, entries, s, (steps - 1) as nat) || exists|a: int|
                self.reached_in(layer, entries, a, (steps - 1) as nat) && #[trigger] self.edge(
                    layer,
                    a,
                    s,
                )
        }
    }

    /// Whether the links of `layer` lead from one of `entries` to slot `s`.
    pub open spec fn reaches(&self, layer: int, entries: Seq<usize>, s: int) -> bool {
        exists|steps: nat| self.reached_in(layer, entries, s, steps)
    }

    /// Whether a search can return the node in slot `s`: it has a vector,
    /// and it is no tombstone where the search leaves those out.
    pub open spec fn scorable(&self, s: int, vectors: Set<DocId>, live_only: bool) -> bool {
        &&& 0 <= s < self.nodes@.len()
        &&& vectors.contains(self.nodes@[s].id)
        &&& live_only ==> !self.nodes@[s].deleted
    }

    /// Whether the hits hold every node that a search can return and that
    /// the links of `layer` lead to from `entries`.
    pub open spec fn covers_reach(
        &self,
        hits: Seq<Scored>,
        layer: int,
        entries: Seq<usize>,
        vectors: Set<DocId>,
        live_only: bool,
    ) -> bool {
        forall|s: int|
            self.reaches(layer, entries, s) && self.scorable(s, vectors, live_only) ==> has_id(
                hits,
                #[trigger] self.nodes@[s].id,
            )
    }

    /// Whether the links of `layer` lead from one of `entries` to the node
    /// of `id`.
    pub open spec fn reached_id(&self, layer: int, entries: Seq<usize>, id: DocId) -> bool {
        exists|s: int|
            0 <= s < self.nodes@.len() && (#[trigger] self.nodes@[s]).id == id && self.reaches(
                layer,
                entries,
                s,
            )
    }

    /// Whether a walk has met nothing but what the links of `layer` lead to
    /// from `entries`: every node on the frontier and every node scored.
    pub open spec fn walk_sound(
        &self,
        frontier: Seq<Candidate>,
        seen: Seq<Scored>,
        layer: int,
        entries: Seq<usize>,
    ) -> bool {
        &&& forall|j: int|
            0 <= j < frontier.len() ==> self.reaches(
                layer,
                entries,
                (#[trigger] frontier[j]).slot as int,
            )
        &&& forall|i: int|
            0 <= i < seen.len() ==> self.reached_id(layer, entries, (#[trigger] seen[i]).id)
    }

    /// Where the links lead to a node, they lead to its neighbours.
    pub proof fn lemma_reach_step(&self, layer: int, entries: Seq<usize>, a: int, b: int)
        requires
            self.reaches(layer, entries, a),
            self.edge(layer, a, b),
        ensures
            self.reaches(layer, entries, b),
    {
        let steps = choose|steps: nat| self.reached_in(layer, entries, a, steps);
        assert(self.reached_in(layer, entries, b, steps + 1));
    }

    /// A walk that has met only what the links lead to still has, after a
    /// node that they lead to was looked at.
    proof fn lemma_sound_after_visit(
        &self,
        before: Seq<Candidate>,
        after: Seq<Candidate>,
        seen: Seq<Scored>,
        more: Seq<Scored>,
        slot: int,
        layer: int,
        entries: Seq<usize>,
    )
        requires
            self.walk_sound(before, seen, layer, entries),
            0 <= slot < self.nodes@.len() ==> self.reaches(layer, entries, slot),
            after == before || (0 <= slot < self.nodes@.len() && after.len() == before.len() + 1
                && after.drop_last() == before && after.last().slot == slot),
            more == seen || (0 <= slot < self.nodes@.len() && more.len() == seen.len() + 1
                && more.drop_last() == seen && more.last().id == self.nodes@[slot].id),
        ensures
            self.walk_sound(after, more, layer, entries),
    {
        assert forall|j: int| 0 <= j < after.len() implies self.reaches(
            layer,
            entries,
            (#[trigger] after[j]).slot as int,
        ) by {
            if after != before {
                if j < before.len() {
                    assert(after.drop_last()[j] == after[j]);
                } else {
                    assert(after[j] == after.last());
                }
            }
        }
        assert forall|i: int| 0 <= i < more.len() implies self.reached_id(
            layer,
            entries,
            (#[trigger] more[i]).id,
        ) by {
            if more != seen {
                if i < seen.len() {
                    assert(more.drop_last()[i] == more[i]);
                } else {
                    assert(more[i] == more.last());
                    assert(self.nodes@[slot].id == more[i].id);
                }
            }
        }
    }

    /// What holds of a walk at every step, whatever it has found: the
    /// results are the best of what was scored, every slot was looked at
    /// once, and no more slots were put on the frontier than were looked at.
    pub open spec fn walk_base(
        &self,
        visited: Set<DocId>,
        frontier: Seq<Candidate>,
        results: Seq<Scored>,
        g: WalkGhost,
        ef: int,
        live_only: bool,
        vectors: Set<DocId>,
    ) -> bool {
        &&& self.walked(g.seen, vectors, live_only)
        &&& is_best_k(results, g.seen, ef)
        &&& forall|i: int| 0 <= i < g.seen.len() ==> visited.contains((#[trigger] g.seen[i]).id)
        &&& g.order.no_duplicates()
        &&& forall|i: int|
            0 <= i < g.order.len() ==> 0 <= #[trigger] g.order[i] < self.nodes@.len()
                && visited.contains(self.nodes@[g.order[i]].id)
        &&& forall|s: int|
            0 <= s < self.nodes@.len() && visited.contains((#[trigger] self.nodes@[s]).id)
                ==> g.order.contains(s)
        &&& frontier.len() + g.pops <= g.order.len()
    }

    /// What holds of a walk as long as its results have room: every slot
    /// that was looked at was taken off the frontier or is still on it, the
    /// neighbours of every slot that was taken off were looked at, and what
    /// could be scored was.
    pub open spec fn walk_closure(
        &self,
        frontier: Seq<Candidate>,
        g: WalkGhost,
        layer: int,
        live_only: bool,
        vectors: Set<DocId>,
    ) -> bool {
        &&& forall|s: int| #[trigger]
            g.order.contains(s) ==> g.expanded.contains(s) || on_frontier(frontier, s)
        &&& forall|a: int, b: int|
            g.expanded.contains(a) && a != g.current && #[trigger] self.edge(layer, a, b)
                ==> g.order.contains(b)
        &&& g.current >= 0 ==> {
            &&& g.current < self.nodes@.len()
            &&& 0 <= layer < self.nodes@[g.current].neighbors@.len()
            &&& forall|j: int|
                0 <= j < g.upto && j < self.list_at(g.current, layer).len() && (
                #[trigger] self.list_at(g.current, layer)[j]) < self.nodes@.len()
                    ==> g.order.contains(self.list_at(g.current, layer)[j] as int)
        }
        &&& forall|s: int|
            g.order.contains(s) && #[trigger] self.scorable(s, vectors, live_only) ==> has_id(
                g.seen,
                self.nodes@[s].id,
            )
    }

    /// What holds of a walk at every step.
    pub open spec fn walk_inv(
        &self,
        visited: Set<DocId>,
        frontier: Seq<Candidate>,
        results: Seq<Scored>,
        g: WalkGhost,
        ef: int,
        layer: int,
        live_only: bool,
        vectors: Set<DocId>,
    ) -> bool {
        &&& self.walk_base(visited, frontier, results, g, ef, live_only, vectors)
        &&& results.len() < ef ==> self.walk_closure(frontier, g, layer, live_only, vectors)
    }

    /// Look at the node in `slot`, unless it was looked at before: score it
    /// against the probe, put it on the frontier where it can still improve
    /// the results, and offer it to the results unless it is a tombstone
    /// that the search leaves out. A node whose vector is gone is walked
    /// through and never returned.
    #[verifier::rlimit(30)]
    pub(crate) fn visit<H: Host>(
        &self,
        slot: usize,
        probe: &Probe<'_, H::Query>,
        ef: usize,
        layer: usize,
        live_only: bool,
        vectors: &HashMap<DocId, QuantizedVector>,
        host: &H,
        visited: &mut HashSet<DocId>,
        frontier: &mut Vec<Candidate>,
        results: &mut Vec<Scored>,
        Ghost(g): Ghost<WalkGhost>,
    ) -> (r: Ghost<WalkGhost>)
        requires
            self.wf(),
            self.walk_inv(
                old(visited)@,
                old(frontier)@,
                old(results)@,
                g,
                ef as int,
                layer as int,
                live_only,
                vectors@.dom(),
            ),
        ensures
            self.walk_inv(
                final(visited)@,
                final(frontier)@,
                final(results)@,
                r@,
                ef as int,
                layer as int,
                live_only,
                vectors@.dom(),
            ),
            r@.expanded == g.expanded,
            r@.pops == g.pops,
            r@.current == g.current,
            r@.upto == g.upto,
            forall|s: int| g.order.contains(s) ==> #[trigger] r@.order.contains(s),
            slot < self.nodes@.len() ==> r@.order.contains(slot as int),
            final(results)@.len() >= old(results)@.len(),
            final(frontier)@ == old(frontier)@ || (slot < self.nodes@.len() && final(frontier)@.len()
                == old(frontier)@.len() + 1 && final(frontier)@.drop_last() == old(frontier)@
                && final(frontier)@.last().slot == slot),
            r@.seen == g.seen || (slot < self.nodes@.len() && r@.seen.len() == g.seen.len() + 1
                && r@.seen.drop_last() == g.seen && r@.seen.last().id
                == self.nodes@[slot as int].id),
    {
        if slot >= self.nodes.len() {
            return Ghost(g);
        }
        let node = &self.nodes[slot];
        let id = node.id;
        let ghost seen_ids = visited@;
        let ghost front = frontier@;
        let ghost best = results@;
        if !visited.insert(id) {
            return Ghost(g);
        }
        let ghost order = g.order.push(slot as int);
        proof {
            lemma_order_grows(*self, seen_ids, g.order, slot as int);
        }
        let v = match vectors.get(&id) {
            Some(v) => v,
            None => {
                frontier.push(
                    Candidate { slot, scored: Scored { id, score: Score::new(0) }, known: false },
                );
                let ghost next = WalkGhost { order, ..g };
                proof {
                    assert(frontier@[front.len() as int].slot == slot);
                    assert(frontier@.drop_last() =~= front);
                    lemma_frontier_grows(front, frontier@);
                    if best.len() < ef {
                        lemma_closure_after_visit(
                            *self,
                            front,
                            frontier@,
                            g,
                            next,
                            slot as int,
                            layer as int,
                            live_only,
                            vectors@.dom(),
                        );
                    }
                }
                return Ghost(next);
            },
        };
        let score = probe_similarity(host, self.config.metric, self.config.mode, probe, v);
        let scored = Scored { id, score };
        let room: bool = results.len() < ef || (results.len() > 0 && better(
            &scored,
            &results[results.len() - 1],
        ));
        if room {
            frontier.push(Candidate { slot, scored, known: true });
            proof {
                assert(frontier@[front.len() as int].slot == slot);
                assert(frontier@.drop_last() =~= front);
            }
        }
        proof {
            lemma_frontier_grows(front, frontier@);
        }
        if live_only && node.deleted {
            let ghost next = WalkGhost { order, ..g };
            proof {
                if best.len() < ef {
                    lemma_closure_after_visit(
                        *self,
                        front,
                        frontier@,
                        g,
                        next,
                        slot as int,
                        layer as int,
                        live_only,
                        vectors@.dom(),
                    );
                }
            }
            return Ghost(next);
        }
        let ghost seen = g.seen;
        proof {
            let more = seen.push(scored);
            assert forall|a: int, b: int| 0 <= a < b < more.len() implies (#[trigger] more[a]).id != (
            #[trigger] more[b]).id by {
                if b == seen.len() {
                    assert(more[a] == seen[a]);
                    assert(seen_ids.contains(seen[a].id));
                } else {
                    assert(more[a] == seen[a] && more[b] == seen[b]);
                }
            }
            assert(self.nodes@[slot as int].id == id);
            assert forall|i: int| 0 <= i < more.len() implies vectors@.dom().contains(
                (#[trigger] more[i]).id,
            ) && self.has_node(more[i].id) && (live_only ==> self.has_live(more[i].id)) by {
                if i < seen.len() {
                    assert(more[i] == seen[i]);
                }
            }
            assert forall|i: int| 0 <= i < more.len() implies visited@.contains(
                (#[trigger] more[i]).id,
            ) by {
                if i < seen.len() {
                    assert(more[i] == seen[i]);
                    assert(seen_ids.contains(seen[i].id));
                }
            }
        }
        offer(results, ef, scored, Ghost(seen));
        let ghost next = WalkGhost { seen: seen.push(scored), order, ..g };
        proof {
            assert(seen.push(scored).drop_last() =~= seen);
            if results@.len() < ef {
                assert(best.len() < ef);
                lemma_closure_after_visit(
                    *self,
                    front,
                    frontier@,
                    g,
                    WalkGhost { order, ..g },
                    slot as int,
                    layer as int,
                    live_only,
                    vectors@.dom(),
                );
                lemma_closure_seen_grows(
                    *self,
                    frontier@,
                    WalkGhost { order, ..g },
                    next,
                    slot as int,
                    layer as int,
                    live_only,
                    vectors@.dom(),
                );
            }
        }
        Ghost(next)
    }

    /// Take the next candidate off the frontier: one that could not be
    /// scored, else the best.
    pub(crate) fn pop_best(frontier: &mut Vec<Candidate>) -> (r: Candidate)
        requires
            old(frontier)@.len() > 0,
        ensures
            final(frontier)@.len() == old(frontier)@.len() - 1,
            forall|s: int|
                on_frontier(old(frontier)@, s) ==> s == r.slot || on_frontier(final(frontier)@, s),
            old(frontier)@.contains(r),
            forall|j: int|
                0 <= j < final(frontier)@.len() ==> old(frontier)@.contains(
                    #[trigger] final(frontier)@[j],
                ),
    {
        let mut best: usize = 0;
        let mut i: usize = 1;
        while i < frontier.len()
            invariant
                1 <= i <= frontier.len(),
                best < i,
            decreases frontier.len() - i,
        {
            let first: bool = if frontier[i].known != frontier[best].known {
                !frontier[i].known
            } else {
                better(&frontier[i].scored, &frontier[best].scored)
            };
            if first {
                best = i;
            }
            i += 1;
        }
        let ghost before = frontier@;
        let r = frontier.swap_remove(best);
        proof {
            let after = frontier@;
            assert(before[best as int] == r);
            assert forall|j: int| 0 <= j < after.len() implies before.contains(
                #[trigger] after[j],
            ) by {
                if j == best {
                    assert(before[before.len() - 1] == after[j]);
                } else {
                    assert(before[j] == after[j]);
                }
            }
            assert forall|s: int| on_frontier(before, s) implies s == r.slot || on_frontier(
                after,
                s,
            ) by {
                let j = choose|j: int| 0 <= j < before.len() && (#[trigger] before[j]).slot == s;
                if j == best {
                } else if j == before.len() - 1 {
                    assert(after[best as int] == before[j]);
                } else {
                    assert(after[j] == before[j]);
                }
            }
        }
        r
    }

    /// Search one layer: starting from `entries`, walk the neighbour lists of
    /// this layer towards the probe and keep the best `ef` nodes met. With
    /// `live_only`, tombstones are walked through and not returned.
    ///
    /// The hits are the best `ef` of the nodes that were scored. Where there
    /// are fewer than `ef` of them, they are all the nodes that can be
    /// returned and that the links of this layer lead to from `entries`.
    #[verifier::rlimit(30)]
    pub fn search_layer<H: Host>(
        &self,
        probe: &Probe<'_, H::Query>,
        entries: &Vec<usize>,
        ef: usize,
        layer: usize,
        live_only: bool,
        vectors: &HashMap<DocId, QuantizedVector>,
        host: &H,
    ) -> (hits: Vec<Scored>)
        requires
            self.wf(),
        ensures
            exists|scan: Seq<Scored>|
                #[trigger] self.walked(scan, vectors@.dom(), live_only) && is_best_k(
                    hits@,
                    scan,
                    ef as int,
                ),
            hits@.len() < ef ==> self.covers_reach(
                hits@,
                layer as int,
                entries@,
                vectors@.dom(),
                live_only,
            ),
            forall|i: int|
                0 <= i < hits@.len() ==> self.reached_id(
                    layer as int,
                    entries@,
                    (#[trigger] hits@[i]).id,
                ),
    {
        let mut visited: HashSet<DocId> = HashSet::new();
        let mut frontier: Vec<Candidate> = Vec::new();
        let mut results: Vec<Scored> = Vec::new();
        let ghost mut g = WalkGhost {
            seen: Seq::empty(),
            order: Seq::empty(),
            expanded: Set::empty(),
            pops: 0,
            current: -1,
            upto: 0,
        };
        let mut e: usize = 0;
        while e < entries.len()
            invariant
                e <= entries.len(),
                self.wf(),
                self.walk_inv(
                    visited@,
                    frontier@,
                    results@,
                    g,
                    ef as int,
                    layer as int,
                    live_only,
                    vectors@.dom(),
                ),
                self.walk_sound(frontier@, g.seen, layer as int, entries@),
                g.pops == 0,
                g.current == -1,
                g.expanded == Set::<int>::empty(),
                forall|j: int|
                    0 <= j < e && (#[trigger] entries@[j]) < self.nodes@.len() ==> g.order.contains(
                        entries@[j] as int,
                    ),
            decreases entries.len() - e,
        {
            let ghost front = frontier@;
            let next = self.visit(
                entries[e],
                probe,
                ef,
                layer,
                live_only,
                vectors,
                host,
                &mut visited,
                &mut frontier,
                &mut results,
                Ghost(g),
            );
            proof {
                if entries@[e as int] < self.nodes@.len() {
                    assert(self.reached_in(layer as int, entries@, entries@[e as int] as int, 0));
                }
                self.lemma_sound_after_visit(
                    front,
                    frontier@,
                    g.seen,
                    next@.seen,
                    entries@[e as int] as int,
                    layer as int,
                    entries@,
                );
                g = next@;
            }
            e += 1;
        }
        // Every node enters the frontier at most once, so this many steps
        // empty it.
        let nodes: usize = self.nodes.len();
        let mut fuel: usize = nodes;
        let mut done: bool = false;
        while fuel > 0 && frontier.len() > 0 && !done
            invariant
                self.wf(),
                nodes == self.nodes@.len(),
                self.walk_inv(
                    visited@,
                    frontier@,
                    results@,
                    g,
                    ef as int,
                    layer as int,
                    live_only,
                    vectors@.dom(),
                ),
                self.walk_sound(frontier@, g.seen, layer as int, entries@),
                g.current == -1,
                fuel + g.pops == nodes,
                done ==> results@.len() >= ef,
                forall|j: int|
                    0 <= j < entries@.len() && (#[trigger] entries@[j]) < self.nodes@.len()
                        ==> g.order.contains(entries@[j] as int),
            decreases fuel,
        {
            fuel -= 1;
            let ghost front = frontier@;
            let c = Self::pop_best(&mut frontier);
            proof {
                let at = choose|at: int| 0 <= at < front.len() && front[at] == c;
                assert(self.reaches(layer as int, entries@, front[at].slot as int));
                assert forall|j: int| 0 <= j < frontier@.len() implies self.reaches(
                    layer as int,
                    entries@,
                    (#[trigger] frontier@[j]).slot as int,
                ) by {
                    let was = choose|was: int| 0 <= was < front.len() && front[was] == frontier@[j];
                    assert(self.reaches(layer as int, entries@, front[was].slot as int));
                }
            }
            if c.known && results.len() >= ef && results.len() > 0 && better(
                &results[results.len() - 1],
                &c.scored,
            ) {
                done = true;
                proof {
                    g = WalkGhost { pops: g.pops + 1, ..g };
                }
            } else if c.slot < self.nodes.len() && layer < self.nodes[c.slot].neighbors.len() {
                proof {
                    let opened = WalkGhost {
                        pops: g.pops + 1,
                        expanded: g.expanded.insert(c.slot as int),
                        current: c.slot as int,
                        upto: 0,
                        ..g
                    };
                    if results@.len() < ef {
                        lemma_closure_opened(
                            *self,
                            front,
                            frontier@,
                            g,
                            opened,
                            c.slot as int,
                            layer as int,
                            live_only,
                            vectors@.dom(),
                        );
                    }
                    g = opened;
                }
                let count: usize = self.nodes[c.slot].neighbors[layer].len();
                let mut n: usize = 0;
                while n < count
                    invariant
                        n <= count,
                        self.wf(),
                        nodes == self.nodes@.len(),
                        c.slot < self.nodes.len(),
                        layer < self.nodes[c.slot as int].neighbors.len(),
                        count == self.list_at(c.slot as int, layer as int).len(),
                        self.walk_inv(
                            visited@,
                            frontier@,
                            results@,
                            g,
                            ef as int,
                            layer as int,
                            live_only,
                            vectors@.dom(),
                        ),
                        self.walk_sound(frontier@, g.seen, layer as int, entries@),
                        self.reaches(layer as int, entries@, c.slot as int),
                        g.current == c.slot,
                        g.upto == n,
                        fuel + g.pops == nodes,
                        done ==> results@.len() >= ef,
                        forall|j: int|
                            0 <= j < entries@.len() && (#[trigger] entries@[j]) < self.nodes@.len()
                                ==> g.order.contains(entries@[j] as int),
                    decreases count - n,
                {
                    let slot: usize = self.nodes[c.slot].neighbors[layer][n];
                    let ghost held = frontier@;
                    let ghost scored = g.seen;
                    let next = self.visit(
                        slot,
                        probe,
                        ef,
                        layer,
                        live_only,
                        vectors,
                        host,
                        &mut visited,
                        &mut frontier,
                        &mut results,
                        Ghost(g),
                    );
                    proof {
                        let stepped = WalkGhost { upto: n + 1, ..next@ };
                        assert(self.list_at(c.slot as int, layer as int)[n as int] == slot);
                        if slot < self.nodes@.len() {
                            assert(self.edge(layer as int, c.slot as int, slot as int));
                            self.lemma_reach_step(
                                layer as int,
                                entries@,
                                c.slot as int,
                                slot as int,
                            );
                        }
                        self.lemma_sound_after_visit(
                            held,
                            frontier@,
                            scored,
                            next@.seen,
                            slot as int,
                            layer as int,
                            entries@,
                        );
                        if results@.len() < ef {
                            lemma_closure_stepped(
                                *self,
                                frontier@,
                                next@,
                                stepped,
                                layer as int,
                                live_only,
                                vectors@.dom(),
                            );
                        }
                        g = stepped;
                    }
                    n += 1;
                }
                proof {
                    let closed = WalkGhost { current: -1, upto: 0, ..g };
                    if results@.len() < ef {
                        lemma_closure_closed(
                            *self,
                            frontier@,
                            g,
                            closed,
                            layer as int,
                            live_only,
                            vectors@.dom(),
                        );
                    }
                    g = closed;
                }
            } else {
                proof {
                    let passed = WalkGhost {
                        pops: g.pops + 1,
                        expanded: g.expanded.insert(c.slot as int),
                        ..g
                    };
                    if results@.len() < ef {
                        lemma_closure_passed(
                            *self,
                            front,
                            frontier@,
                            g,
                            passed,
                            c.slot as int,
                            layer as int,
                            live_only,
                            vectors@.dom(),
                        );
                    }
                    g = passed;
                }
            }
        }
        proof {
            assert forall|i: int| 0 <= i < results@.len() implies self.reached_id(
                layer as int,
                entries@,
                (#[trigger] results@[i]).id,
            ) by {
                assert(g.seen.contains(results@[i]));
                let a = choose|a: int| 0 <= a < g.seen.len() && g.seen[a] == results@[i];
                assert(self.reached_id(layer as int, entries@, g.seen[a].id));
            }
            if results@.len() < ef {
                lemma_order_bounded(g.order, nodes as int);
                assert(frontier@.len() == 0);
                lemma_walk_complete(
                    *self,
                    frontier@,
                    results@,
                    g,
                    ef as int,
                    layer as int,
                    entries@,
                    live_only,
                    vectors@.dom(),
                );
            }
        }
        results
    }
}

/// What is on a frontier is on it when something was pushed.
proof fn lemma_frontier_grows(before: Seq<Candidate>, after: Seq<Candidate>)
    requires
        after.len() >= before.len(),
        forall|j: int| 0 <= j < before.len() ==> after[j] == before[j],
    ensures
        forall|s: int| on_frontier(before, s) ==> on_frontier(after, s),
{
    assert forall|s: int| on_frontier(before, s) implies on_frontier(after, s) by {
        let j = choose|j: int| 0 <= j < before.len() && (#[trigger] before[j]).slot == s;
        assert(after[j].slot == s);
    }
}

/// Looking at a slot whose id was not looked at before keeps the order of
/// slots without repetition.
proof fn lemma_order_grows(graph: HnswIndex, visited: Set<DocId>, order: Seq<int>, slot: int)
    requires
        graph.wf(),
        0 <= slot < graph.nodes@.len(),
        !visited.contains(graph.nodes@[slot].id),
        order.no_duplicates(),
        forall|i: int|
            0 <= i < order.len() ==> 0 <= #[trigger] order[i] < graph.nodes@.len()
                && visited.contains(graph.nodes@[order[i]].id),
        forall|s: int|
            0 <= s < graph.nodes@.len() && visited.contains((#[trigger] graph.nodes@[s]).id)
                ==> order.contains(s),
    ensures
        order.push(slot).no_duplicates(),
        forall|i: int|
            0 <= i < order.push(slot).len() ==> 0 <= #[trigger] order.push(slot)[i]
                < graph.nodes@.len() && visited.insert(graph.nodes@[slot].id).contains(
                graph.nodes@[order.push(slot)[i]].id,
            ),
        forall|s: int|
            0 <= s < graph.nodes@.len() && visited.insert(graph.nodes@[slot].id).contains(
                (#[trigger] graph.nodes@[s]).id,
            ) ==> order.push(slot).contains(s),
        forall|s: int| order.contains(s) ==> #[trigger] order.push(slot).contains(s),
        order.push(slot).contains(slot),
{
    let more = order.push(slot);
    assert forall|i: int, j: int| 0 <= i < more.len() && 0 <= j < more.len() && i != j implies more[i]
        != more[j] by {
        if i < order.len() && j < order.len() {
            assert(more[i] == order[i] && more[j] == order[j]);
        } else if i < order.len() {
            assert(more[i] == order[i]);
            assert(visited.contains(graph.nodes@[order[i]].id));
        } else {
            assert(more[j] == order[j]);
            assert(visited.contains(graph.nodes@[order[j]].id));
        }
    }
    assert forall|i: int| 0 <= i < more.len() implies 0 <= #[trigger] more[i] < graph.nodes@.len()
        && visited.insert(graph.nodes@[slot].id).contains(graph.nodes@[more[i]].id) by {
        if i < order.len() {
            assert(more[i] == order[i]);
        }
    }
    assert(more[order.len() as int] == slot);
    assert forall|s: int| order.contains(s) implies #[trigger] more.contains(s) by {
        let i = choose|i: int| 0 <= i < order.len() && order[i] == s;
        assert(more[i] == s);
    }
    assert forall|s: int|
        0 <= s < graph.nodes@.len() && visited.insert(graph.nodes@[slot].id).contains(
            (#[trigger] graph.nodes@[s]).id,
        ) implies more.contains(s) by {
        if graph.nodes@[s].id == graph.nodes@[slot].id {
            assert(graph.slot_of@[graph.nodes@[s].id] == s);
            assert(graph.slot_of@[graph.nodes@[slot].id] == slot);
        } else {
            assert(order.contains(s));
        }
    }
}

/// The closure of a walk survives looking at one more slot, where that slot
/// was put on the frontier and could not be scored, or will be scored.
proof fn lemma_closure_after_visit(
    graph: HnswIndex,
    before: Seq<Candidate>,
    after: Seq<Candidate>,
    g: WalkGhost,
    next: WalkGhost,
    slot: int,
    layer: int,
    live_only: bool,
    vectors: Set<DocId>,
)
    requires
        graph.walk_closure(before, g, layer, live_only, vectors),
        next == (WalkGhost { order: g.order.push(slot), ..g }),
        forall|s: int| on_frontier(before, s) ==> on_frontier(after, s),
        on_frontier(after, slot),
    ensures
        forall|s: int| #[trigger]
            next.order.contains(s) ==> next.expanded.contains(s) || on_frontier(after, s),
        forall|a: int, b: int|
            next.expanded.contains(a) && a != next.current && #[trigger] graph.edge(layer, a, b)
                ==> next.order.contains(b),
        next.current >= 0 ==> {
            &&& next.current < graph.nodes@.len()
            &&& 0 <= layer < graph.nodes@[next.current].neighbors@.len()
            &&& forall|j: int|
                0 <= j < next.upto && j < graph.list_at(next.current, layer).len() && (
                #[trigger] graph.list_at(next.current, layer)[j]) < graph.nodes@.len()
                    ==> next.order.contains(graph.list_at(next.current, layer)[j] as int)
        },
        forall|s: int|
            next.order.contains(s) && s != slot && #[trigger] graph.scorable(s, vectors, live_only)
                ==> has_id(next.seen, graph.nodes@[s].id),
        !graph.scorable(slot, vectors, live_only) ==> graph.walk_closure(
            after,
            next,
            layer,
            live_only,
            vectors,
        ),
{
    let order = g.order;
    let more = next.order;
    assert forall|s: int| order.contains(s) implies #[trigger] more.contains(s) by {
        let i = choose|i: int| 0 <= i < order.len() && order[i] == s;
        assert(more[i] == s);
    }
    assert forall|s: int| #[trigger] more.contains(s) implies next.expanded.contains(s)
        || on_frontier(after, s) by {
        let i = choose|i: int| 0 <= i < more.len() && more[i] == s;
        if i < order.len() {
            assert(order[i] == s);
            assert(order.contains(s));
        }
    }
    assert forall|a: int, b: int|
        next.expanded.contains(a) && a != next.current && #[trigger] graph.edge(
            layer,
            a,
            b,
        ) implies more.contains(b) by {
        assert(order.contains(b));
    }
    if next.current >= 0 {
        assert forall|j: int|
            0 <= j < next.upto && j < graph.list_at(next.current, layer).len() && (
            #[trigger] graph.list_at(next.current, layer)[j])
                < graph.nodes@.len() implies more.contains(
            graph.list_at(next.current, layer)[j] as int,
        ) by {
            assert(order.contains(graph.list_at(g.current, layer)[j] as int));
        }
    }
    assert forall|s: int|
        more.contains(s) && s != slot && #[trigger] graph.scorable(
            s,
            vectors,
            live_only,
        ) implies has_id(next.seen, graph.nodes@[s].id) by {
        let i = choose|i: int| 0 <= i < more.len() && more[i] == s;
        assert(order[i] == s);
        assert(order.contains(s));
    }
}

/// The closure of a walk survives scoring the slot that was looked at last.
proof fn lemma_closure_seen_grows(
    graph: HnswIndex,
    frontier: Seq<Candidate>,
    g: WalkGhost,
    next: WalkGhost,
    slot: int,
    layer: int,
    live_only: bool,
    vectors: Set<DocId>,
)
    requires
        0 <= slot < graph.nodes@.len(),
        next.order == g.order,
        next.expanded == g.expanded,
        next.current == g.current,
        next.upto == g.upto,
        next.seen.len() == g.seen.len() + 1,
        forall|i: int| 0 <= i < g.seen.len() ==> next.seen[i] == g.seen[i],
        next.seen[g.seen.len() as int].id == graph.nodes@[slot].id,
        forall|s: int| #[trigger]
            g.order.contains(s) ==> g.expanded.contains(s) || on_frontier(frontier, s),
        forall|a: int, b: int|
            g.expanded.contains(a) && a != g.current && #[trigger] graph.edge(layer, a, b)
                ==> g.order.contains(b),
        g.current >= 0 ==> {
            &&& g.current < graph.nodes@.len()
            &&& 0 <= layer < graph.nodes@[g.current].neighbors@.len()
            &&& forall|j: int|
                0 <= j < g.upto && j < graph.list_at(g.current, layer).len() && (
                #[trigger] graph.list_at(g.current, layer)[j]) < graph.nodes@.len()
                    ==> g.order.contains(graph.list_at(g.current, layer)[j] as int)
        },
        forall|s: int|
            g.order.contains(s) && s != slot && #[trigger] graph.scorable(s, vectors, live_only)
                ==> has_id(g.seen, graph.nodes@[s].id),
    ensures
        graph.walk_closure(frontier, next, layer, live_only, vectors),
{
    assert forall|s: int|
        next.order.contains(s) && #[trigger] graph.scorable(s, vectors, live_only) implies has_id(
        next.seen,
        graph.nodes@[s].id,
    ) by {
        if s == slot {
            assert(next.seen[g.seen.len() as int].id == graph.nodes@[s].id);
        } else {
            let i = choose|i: int|
                0 <= i < g.seen.len() && (#[trigger] g.seen[i]).id == graph.nodes@[s].id;
            assert(next.seen[i].id == graph.nodes@[s].id);
        }
    }
}

/// The closure of a walk survives taking a slot off the frontier and
/// starting to look at its neighbours.
proof fn lemma_closure_opened(
    graph: HnswIndex,
    before: Seq<Candidate>,
    after: Seq<Candidate>,
    g: WalkGhost,
    next: WalkGhost,
    slot: int,
    layer: int,
    live_only: bool,
    vectors: Set<DocId>,
)
    requires
        graph.walk_closure(before, g, layer, live_only, vectors),
        g.current == -1,
        0 <= slot < graph.nodes@.len(),
        0 <= layer < graph.nodes@[slot].neighbors@.len(),
        next == (WalkGhost {
            pops: g.pops + 1,
            expanded: g.expanded.insert(slot),
            current: slot,
            upto: 0,
            ..g
        }),
        forall|s: int| on_frontier(before, s) ==> s == slot || on_frontier(after, s),
    ensures
        graph.walk_closure(after, next, layer, live_only, vectors),
{
    assert forall|s: int| #[trigger] next.order.contains(s) implies next.expanded.contains(s)
        || on_frontier(after, s) by {
        assert(g.order.contains(s));
    }
}

/// The closure of a walk survives having looked at one more neighbour.
proof fn lemma_closure_stepped(
    graph: HnswIndex,
    frontier: Seq<Candidate>,
    g: WalkGhost,
    next: WalkGhost,
    layer: int,
    live_only: bool,
    vectors: Set<DocId>,
)
    requires
        graph.walk_closure(frontier, g, layer, live_only, vectors),
        g.current >= 0,
        next == (WalkGhost { upto: g.upto + 1, ..g }),
        0 <= g.upto < graph.list_at(g.current, layer).len(),
        graph.list_at(g.current, layer)[g.upto] < graph.nodes@.len() ==> g.order.contains(
            graph.list_at(g.current, layer)[g.upto] as int,
        ),
    ensures
        graph.walk_closure(frontier, next, layer, live_only, vectors),
{
}

/// The closure of a walk survives having looked at all neighbours of a slot.
proof fn lemma_closure_closed(
    graph: HnswIndex,
    frontier: Seq<Candidate>,
    g: WalkGhost,
    next: WalkGhost,
    layer: int,
    live_only: bool,
    vectors: Set<DocId>,
)
    requires
        graph.walk_closure(frontier, g, layer, live_only, vectors),
        g.current >= 0,
        g.upto == graph.list_at(g.current, layer).len(),
        next == (WalkGhost { current: -1, upto: 0, ..g }),
    ensures
        graph.walk_closure(frontier, next, layer, live_only, vectors),
{
    assert forall|a: int, b: int|
        next.expanded.contains(a) && a != next.current && #[trigger] graph.edge(
            layer,
            a,
            b,
        ) implies next.order.contains(b) by {
        if a == g.current {
            let j = choose|j: int|
                0 <= j < graph.list_at(a, layer).len() && (#[trigger] graph.list_at(a, layer)[j])
                    == b;
            assert(g.order.contains(graph.list_at(g.current, layer)[j] as int));
        }
    }
}

/// The closure of a walk survives taking a slot off the frontier that has
/// no neighbours on this layer.
proof fn lemma_closure_passed(
    graph: HnswIndex,
    before: Seq<Candidate>,
    after: Seq<Candidate>,
    g: WalkGhost,
    next: WalkGhost,
    slot: int,
    layer: int,
    live_only: bool,
    vectors: Set<DocId>,
)
    requires
        graph.walk_closure(before, g, layer, live_only, vectors),
        g.current == -1,
        !(0 <= slot < graph.nodes@.len() && 0 <= layer < graph.nodes@[slot].neighbors@.len()),
        next == (WalkGhost { pops: g.pops + 1, expanded: g.expanded.insert(slot), ..g }),
        forall|s: int| on_frontier(before, s) ==> s == slot || on_frontier(after, s),
    ensures
        graph.walk_closure(after, next, layer, live_only, vectors),
{
    assert forall|s: int| #[trigger] next.order.contains(s) implies next.expanded.contains(s)
        || on_frontier(after, s) by {
        assert(g.order.contains(s));
    }
}

/// Slots without repetition are no more than there are slots.
proof fn lemma_order_bounded(order: Seq<int>, n: int)
    requires
        0 <= n,
        order.no_duplicates(),
        forall|i: int| 0 <= i < order.len() ==> 0 <= #[trigger] order[i] < n,
    ensures
        order.len() <= n,
{
    let range = vstd::set_lib::set_int_range(0, n);
    vstd::set_lib::lemma_int_range(0, n);
    order.unique_seq_to_set();
    assert(order.to_set().subset_of(range)) by {
        assert forall|x: int| order.to_set().contains(x) implies range.contains(x) by {
            let i = choose|i: int| 0 <= i < order.len() && order[i] == x;
            assert(0 <= order[i] < n);
        }
    }
    vstd::set_lib::lemma_len_subset(order.to_set(), range);
}

/// A walk that has emptied its frontier while its results had room has
/// found every node that can be returned and that the links lead to.
proof fn lemma_walk_complete(
    graph: HnswIndex,
    frontier: Seq<Candidate>,
    results: Seq<Scored>,
    g: WalkGhost,
    ef: int,
    layer: int,
    entries: Seq<usize>,
    live_only: bool,
    vectors: Set<DocId>,
)
    requires
        frontier.len() == 0,
        results.len() < ef,
        g.current == -1,
        graph.walked(g.seen, vectors, live_only),
        is_best_k(results, g.seen, ef),
        graph.walk_closure(frontier, g, layer, live_only, vectors),
        forall|j: int|
            0 <= j < entries.len() && (#[trigger] entries[j]) < graph.nodes@.len()
                ==> g.order.contains(entries[j] as int),
    ensures
        graph.covers_reach(results, layer, entries, vectors, live_only),
{
    assert forall|s: int|
        graph.reaches(layer, entries, s) && graph.scorable(s, vectors, live_only) implies has_id(
        results,
        #[trigger] graph.nodes@[s].id,
    ) by {
        let steps = choose|steps: nat| graph.reached_in(layer, entries, s, steps);
        lemma_reached_is_seen(graph, frontier, g, layer, entries, live_only, vectors, s, steps);
        assert(has_id(g.seen, graph.nodes@[s].id));
        let i = choose|i: int| 0 <= i < g.seen.len() && (#[trigger] g.seen[i]).id == graph.nodes@[s].id;
        lemma_all_taken(results, g.seen, i);
        let k = choose|k: int| 0 <= k < results.len() && results[k] == g.seen[i];
        assert(results[k].id == graph.nodes@[s].id);
    }
}

/// What the links lead to from the entries was looked at by a walk that
/// has emptied its frontier.
proof fn lemma_reached_is_seen(
    graph: HnswIndex,
    frontier: Seq<Candidate>,
    g: WalkGhost,
    layer: int,
    entries: Seq<usize>,
    live_only: bool,
    vectors: Set<DocId>,
    s: int,
    steps: nat,
)
    requires
        frontier.len() == 0,
        g.current == -1,
        graph.walk_closure(frontier, g, layer, live_only, vectors),
        forall|j: int|
            0 <= j < entries.len() && (#[trigger] entries[j]) < graph.nodes@.len()
                ==> g.order.contains(entries[j] as int),
        graph.reached_in(layer, entries, s, steps),
    ensures
        g.order.contains(s),
    decreases steps,
{
    if steps == 0 {
        let j = choose|j: int| 0 <= j < entries.len() && (#[trigger] entries[j]) == s;
        assert(g.order.contains(entries[j] as int));
    } else if graph.reached_in(layer, entries, s, (steps - 1) as nat) {
        lemma_reached_is_seen(
            graph,
            frontier,
            g,
            layer,
            entries,
            live_only,
            vectors,
            s,
            (steps - 1) as nat,
        );
    } else {
        let a = choose|a: int|
            graph.reached_in(layer, entries, a, (steps - 1) as nat) && #[trigger] graph.edge(
                layer,
                a,
                s,
            );
        lemma_reached_is_seen(
            graph,
            frontier,
            g,
            layer,
            entries,
            live_only,
            vectors,
            a,
            (steps - 1) as nat,
        );
        assert(g.order.contains(a));
        assert(g.expanded.contains(a) || on_frontier(frontier, a));
        assert(g.expanded.contains(a));
    }
}

/// What the links lead to from one of the entries, they lead to from the
/// entries.
pub proof fn lemma_reached_from_one(
    graph: HnswIndex,
    layer: int,
    entries: Seq<usize>,
    e: int,
    s: int,
    steps: nat,
)
    requires
        0 <= e < entries.len(),
        graph.reached_in(layer, seq![entries[e]], s, steps),
    ensures
        graph.reached_in(layer, entries, s, steps),
    decreases steps,
{
    let one = seq![entries[e]];
    if steps == 0 {
        let j = choose|j: int| 0 <= j < one.len() && (#[trigger] one[j]) == s;
        assert(entries[e] == s);
    } else if graph.reached_in(layer, one, s, (steps - 1) as nat) {
        lemma_reached_from_one(graph, layer, entries, e, s, (steps - 1) as nat);
    } else {
        let a = choose|a: int|
            graph.reached_in(layer, one, a, (steps - 1) as nat) && #[trigger] graph.edge(
                layer,
                a,
                s,
            );
        lemma_reached_from_one(graph, layer, entries, e, a, (steps - 1) as nat);
    }
}

/// Hits that hold what the links lead to from the entries hold what they
/// lead to from one of them.
pub proof fn lemma_covers_from_one(
    graph: HnswIndex,
    hits: Seq<Scored>,
    layer: int,
    entries: Seq<usize>,
    e: int,
    vectors: Set<DocId>,
    live_only: bool,
)
    requires
        0 <= e < entries.len(),
        graph.covers_reach(hits, layer, entries, vectors, live_only),
    ensures
        graph.covers_reach(hits, layer, seq![entries[e]], vectors, live_only),
{
    let one = seq![entries[e]];
    assert forall|s: int|
        graph.reaches(layer, one, s) && graph.scorable(s, vectors, live_only) implies has_id(
        hits,
        #[trigger] graph.nodes@[s].id,
    ) by {
        let steps = choose|steps: nat| graph.reached_in(layer, one, s, steps);
        lemma_reached_from_one(graph, layer, entries, e, s, steps);
        assert(graph.reaches(layer, entries, s));
    }
}

} // verus!
