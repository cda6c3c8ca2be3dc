//! The graph of an HNSW index.
//!
//! Nodes live in an arena and are named by their slot in it; neighbour lists
//! hold slots. A removed node keeps its slot and its links and is marked as
//! a tombstone: searches walk through it and never return it.

use std::collections::HashMap;
use std::collections::HashSet;
use vstd::prelude::*;
use crate::host::{probe_similarity, Host, Probe};
use crate::index::hnsw::config::HnswConfig;
use crate::index::hnsw::walk::{has_id, lemma_covers_from_one};
use crate::index::ranking::{distinct_ids, is_best_k, ranked, top_k, Scored};
use crate::quantization::QuantizedVector;
use crate::score::Score;
use crate::DocId;

verus! {

broadcast use vstd::std_specs::hash::group_hash_axioms;

/// No node lies on a higher layer than this, whatever layer is drawn for it.
pub const MAX_LAYER: usize = 31;

/// One node of the graph.
#[derive(Debug)]
pub struct HnswNode {
    /// The document the node stands for.
    pub id: DocId,
    /// The neighbours of the node on each layer it lies on, layer 0 first,
    /// as slots of the arena.
    pub neighbors: Vec<Vec<usize>>,
    /// Whether the node is a tombstone.
    pub deleted: bool,
}

/// A layered proximity graph.
#[derive(Debug)]
pub struct HnswIndex {
    pub config: HnswConfig,
    /// The arena of nodes.
    pub nodes: Vec<HnswNode>,
    /// The slot of each id that was ever inserted.
    pub slot_of: HashMap<DocId, usize>,
    /// The slot searches start from (`None`: the graph is empty).
    pub entry: Option<usize>,
}

/// A node on the frontier of a search: its slot and its similarity to the
/// probe.
#[derive(Debug, Clone, Copy)]
pub struct Candidate {
    pub slot: usize,
    pub scored: Scored,
    /// Whether the node could be scored. One that could not, because its
    /// vector is gone, is walked through before every other candidate.
    pub known: bool,
}

impl HnswIndex {
    /// Whether some node that is no tombstone stands for `id`.
    pub open spec fn has_live(&self, id: DocId) -> bool {
        exists|s: int|
            0 <= s < self.nodes@.len() && (#[trigger] self.nodes@[s]).id == id
                && !self.nodes@[s].deleted
    }

    /// Whether some node stands for `id`.
    pub open spec fn has_node(&self, id: DocId) -> bool {
        exists|s: int| 0 <= s < self.nodes@.len() && (#[trigger] self.nodes@[s]).id == id
    }

    /// Whether `scan` holds nodes of the graph that have a vector, none
    /// twice, and no tombstone where `live_only` asks so.
    pub open spec fn walked(&self, scan: Seq<Scored>, vectors: Set<DocId>, live_only: bool) -> bool {
        &&& distinct_ids(scan)
        &&& forall|i: int|
            0 <= i < scan.len() ==> vectors.contains((#[trigger] scan[i]).id) && self.has_node(
                scan[i].id,
            ) && (live_only ==> self.has_live(scan[i].id))
    }

    /// Every node is found under its id: no two nodes stand for one id.
    pub open spec fn wf(&self) -> bool {
        &&& forall|s: int|
            0 <= s < self.nodes@.len() ==> self.slot_of@.contains_key((#[trigger] self.nodes@[s]).id)
                && self.slot_of@[self.nodes@[s].id] == s
        &&& self.entry_ok()
    }

    /// Whether the entry point is a node of the graph, and there is one
    /// unless the graph is empty.
    pub open spec fn entry_ok(&self) -> bool {
        match self.entry {
            Some(e) => e < self.nodes@.len(),
            None => self.nodes@.len() == 0,
        }
    }

    /// Whether the nodes stand for the same ids and are tombstones or not as
    /// those of `other`; only their links may differ.
    pub open spec fn same_nodes(&self, other: &HnswIndex) -> bool {
        &&& self.config == other.config
        &&& self.slot_of == other.slot_of
        &&& self.entry == other.entry
        &&& self.nodes@.len() == other.nodes@.len()
        &&& forall|s: int|
            0 <= s < self.nodes@.len() ==> (#[trigger] self.nodes@[s]).id == other.nodes@[s].id
                && self.nodes@[s].deleted == other.nodes@[s].deleted
                && self.nodes@[s].neighbors@.len() == other.nodes@[s].neighbors@.len()
    }

    /// How many neighbours a node may have on a layer.
    pub open spec fn cap_of(&self, layer: int) -> int {
        if layer == 0 {
            self.config.m_max as int
        } else {
            self.config.m as int
        }
    }

    /// The neighbours that the node in slot `s` has on layer `l`.
    pub open spec fn list_at(&self, s: int, l: int) -> Seq<usize> {
        self.nodes@[s].neighbors@[l]@
    }

    /// Whether no node has more neighbours on a layer than it may have.
    pub open spec fn bounded(&self) -> bool {
        forall|s: int, l: int|
            0 <= s < self.nodes@.len() && 0 <= l < self.nodes@[s].neighbors@.len() ==> (
            #[trigger] self.list_at(s, l)).len() <= self.cap_of(l)
    }

    /// Whether the graph is as `other` but for the neighbours that the node
    /// in `slot` has on `layer`.
    pub open spec fn same_but_list(&self, other: &HnswIndex, slot: int, layer: int) -> bool {
        &&& self.same_nodes(other)
        &&& forall|s: int, l: int|
            0 <= s < self.nodes@.len() && 0 <= l < self.nodes@[s].neighbors@.len() && !(s == slot
                && l == layer) ==> #[trigger] self.list_at(s, l) == other.list_at(s, l)
    }

    /// An empty graph.
    pub fn new(config: HnswConfig) -> (r: Self)
        ensures
            r.wf(),
            r.bounded(),
            r.config == config,
            r.nodes@.len() == 0,
            r.entry is None,
    {
        HnswIndex { config, nodes: Vec::new(), slot_of: HashMap::new(), entry: None }
    }

    /// The size of the candidate list that searches use by default.
    pub fn get_ef_search(&self) -> (r: usize)
        ensures
            r == self.config.ef_search,
    {
        self.config.ef_search
    }

    /// In a well-formed graph the node of a live id is no tombstone.
    pub proof fn lemma_live_node(&self, s: int)
        requires
            self.wf(),
            0 <= s < self.nodes@.len(),
            self.has_live(self.nodes@[s].id),
        ensures
            !self.nodes@[s].deleted,
    {
        let id = self.nodes@[s].id;
        let t = choose|t: int|
            0 <= t < self.nodes@.len() && (#[trigger] self.nodes@[t]).id == id
                && !self.nodes@[t].deleted;
        assert(self.slot_of@[self.nodes@[t].id] == t);
        assert(self.slot_of@[self.nodes@[s].id] == s);
    }

    /// Whether the graph keeps under `id` the slot of the node of `id`.
    pub open spec fn placed(&self, id: DocId) -> bool {
        self.slot_of@.contains_key(id) && self.slot_of@[id] < self.nodes@.len()
            && self.nodes@[self.slot_of@[id] as int].id == id
    }

    /// The slots that the graph keeps under the ids of `hits`, in the order
    /// of the hits; a hit whose id has no slot of a node is passed over.
    pub open spec fn slots_in(&self, hits: Seq<Scored>) -> Seq<usize>
        decreases hits.len(),
    {
        if hits.len() == 0 {
            Seq::empty()
        } else if self.placed(hits.last().id) {
            self.slots_in(hits.drop_last()).push(self.slot_of@[hits.last().id])
        } else {
            self.slots_in(hits.drop_last())
        }
    }

    /// The slots of the nodes that stand for the ids of `hits`, in the
    /// order of the hits.
    pub(crate) fn slots_of(&self, hits: &Vec<Scored>) -> (r: Vec<usize>)
        ensures
            r@ == self.slots_in(hits@),
            r@.len() <= hits@.len(),
            forall|j: int| 0 <= j < r@.len() ==> (#[trigger] r@[j]) < self.nodes@.len(),
    {
        let mut out: Vec<usize> = Vec::new();
        let mut i: usize = 0;
        assert(hits@.take(0) =~= Seq::<Scored>::empty());
        while i < hits.len()
            invariant
                i <= hits.len(),
                out@ == self.slots_in(hits@.take(i as int)),
                out@.len() <= i,
                forall|j: int| 0 <= j < out@.len() ==> (#[trigger] out@[j]) < self.nodes@.len(),
            decreases hits.len() - i,
        {
            proof {
                let next = hits@.take(i + 1);
                assert(next.drop_last() =~= hits@.take(i as int));
                assert(next.last() == hits@[i as int]);
            }
            match self.slot_of.get(&hits[i].id) {
                Some(s) => {
                    if *s < self.nodes.len() && self.nodes[*s].id == hits[i].id {
                        out.push(*s);
                    }
                },
                None => {},
            }
            i += 1;
        }
        assert(hits@.take(hits.len() as int) =~= hits@);
        out
    }

    /// The layer the node in `slot` lies on (0 for a slot without node).
    fn layer_of(&self, slot: usize) -> (r: usize)
        ensures
            r == if slot < self.nodes@.len() && self.nodes@[slot as int].neighbors@.len() > 0 {
                self.nodes@[slot as int].neighbors@.len() - 1
            } else {
                0
            },
    {
        if slot < self.nodes.len() && self.nodes[slot].neighbors.len() > 0 {
            self.nodes[slot].neighbors.len() - 1
        } else {
            0
        }
    }

    /// Walk down from the entry point to the layer above `stop`, keeping
    /// the one best node of each layer as the start of the next.
    fn descend<H: Host>(
        &self,
        probe: &Probe<'_, H::Query>,
        entry: usize,
        stop: usize,
        vectors: &HashMap<DocId, QuantizedVector>,
        host: &H,
    ) -> (r: Vec<usize>)
        requires
            self.wf(),
            entry < self.nodes@.len(),
        ensures
            r@.len() >= 1,
            forall|j: int| 0 <= j < r@.len() ==> (#[trigger] r@[j]) < self.nodes@.len(),
            forall|j: int|
                0 <= j < r@.len() ==> self.came_down(
                    stop as int,
                    entry as int,
                    (#[trigger] r@[j]) as int,
                ),
    {
        let mut current: Vec<usize> = Vec::new();
        current.push(entry);
        let mut layer: usize = self.layer_of(entry);
        proof {
            assert(self.came_down_in(stop as int, entry as int, entry as int, 0));
        }
        while layer > stop
            invariant
                self.wf(),
                entry < self.nodes@.len(),
                current@.len() >= 1,
                forall|j: int|
                    0 <= j < current@.len() ==> (#[trigger] current@[j]) < self.nodes@.len(),
                forall|j: int|
                    0 <= j < current@.len() ==> self.came_down(
                        stop as int,
                        entry as int,
                        (#[trigger] current@[j]) as int,
                    ),
            decreases layer,
        {
            let best = self.search_layer(probe, &current, 1, layer, false, vectors, host);
            let slots = self.slots_of(&best);
            proof {
                self.lemma_slots_in(best@);
                assert forall|j: int| 0 <= j < slots@.len() implies self.came_down(
                    stop as int,
                    entry as int,
                    (#[trigger] slots@[j]) as int,
                ) by {
                    assert(self.slot_of_hit(best@, slots@[j]));
                    let i = choose|i: int|
                        0 <= i < best@.len() && self.placed((#[trigger] best@[i]).id)
                            && self.slot_of@[best@[i].id] == slots@[j];
                    assert(self.reached_id(layer as int, current@, best@[i].id));
                    let t = choose|t: int|
                        0 <= t < self.nodes@.len() && (#[trigger] self.nodes@[t]).id == best@[i].id
                            && self.reaches(layer as int, current@, t);
                    assert(self.slot_of@[self.nodes@[t].id] == t);
                    let steps = choose|steps: nat|
                        self.reached_in(layer as int, current@, t, steps);
                    self.lemma_came_down(
                        stop as int,
                        entry as int,
                        layer as int,
                        current@,
                        t,
                        steps,
                    );
                }
            }
            if slots.len() > 0 {
                current = slots;
            }
            layer -= 1;
        }
        current
    }

    /// Whether links of layers above `stop` lead from the node in `from` to
    /// the node in `s` in at most `steps` steps.
    pub open spec fn came_down_in(&self, stop: int, from: int, s: int, steps: nat) -> bool
        decreases steps,
    {
        if steps == 0 {
            s == from && 0 <= s < self.nodes@.len()
        } else {
            self.came_down_in(stop, from, s, (steps - 1) as nat) || exists|a: int, l: int|
                self.came_down_in(stop, from, a, (steps - 1) as nat) && l > stop
                    && #[trigger] self.edge(l, a, s)
        }
    }

    /// Whether links of layers above `stop` lead from the node in `from` to
    /// the node in `s`: a walk down from `from` to the layer `stop` can end
    /// in `s`.
    pub open spec fn came_down(&self, stop: int, from: int, s: int) -> bool {
        exists|steps: nat| self.came_down_in(stop, from, s, steps)
    }

    /// What the links of a layer above `stop` lead to from nodes that the
    /// walk down can pass, it can pass.
    proof fn lemma_came_down(
        &self,
        stop: int,
        from: int,
        layer: int,
        entries: Seq<usize>,
        s: int,
        steps: nat,
    )
        requires
            layer > stop,
            forall|j: int|
                0 <= j < entries.len() && (#[trigger] entries[j]) < self.nodes@.len()
                    ==> self.came_down(stop, from, entries[j] as int),
            self.reached_in(layer, entries, s, steps),
        ensures
            self.came_down(stop, from, s),
        decreases steps,
    {
        if steps == 0 {
            let j = choose|j: int| 0 <= j < entries.len() && (#[trigger] entries[j]) == s;
            assert(self.came_down(stop, from, entries[j] as int));
        } else if self.reached_in(layer, entries, s, (steps - 1) as nat) {
            self.lemma_came_down(stop, from, layer, entries, s, (steps - 1) as nat);
        } else {
            let a = choose|a: int|
                self.reached_in(layer, entries, a, (steps - 1) as nat) && #[trigger] self.edge(
                    layer,
                    a,
                    s,
                );
            self.lemma_came_down(stop, from, layer, entries, a, (steps - 1) as nat);
            let m = choose|m: nat| self.came_down_in(stop, from, a, m);
            assert(self.edge(layer, a, s));
            assert(self.came_down_in(stop, from, s, m + 1));
        }
    }

    /// Whether the graph keeps `slot` under the id of one of the hits.
    pub open spec fn slot_of_hit(&self, hits: Seq<Scored>, slot: usize) -> bool {
        exists|i: int|
            0 <= i < hits.len() && self.placed((#[trigger] hits[i]).id) && self.slot_of@[hits[i].id]
                == slot
    }

    /// Each of the slots under the ids of hits is the slot that the graph
    /// keeps under the id of one of the hits.
    proof fn lemma_slots_in(&self, hits: Seq<Scored>)
        ensures
            forall|j: int|
                0 <= j < self.slots_in(hits).len() ==> self.slot_of_hit(
                    hits,
                    #[trigger] self.slots_in(hits)[j],
                ),
        decreases hits.len(),
    {
        if hits.len() > 0 {
            let init = hits.drop_last();
            self.lemma_slots_in(init);
            let all = self.slots_in(hits);
            let rest = self.slots_in(init);
            assert forall|j: int| 0 <= j < all.len() implies self.slot_of_hit(
                hits,
                #[trigger] all[j],
            ) by {
                if j < rest.len() {
                    assert(all[j] == rest[j]);
                    assert(self.slot_of_hit(init, rest[j]));
                    let i = choose|i: int|
                        0 <= i < init.len() && self.placed((#[trigger] init[i]).id)
                            && self.slot_of@[init[i].id] == rest[j];
                    assert(hits[i] == init[i]);
                } else {
                    assert(hits[hits.len() - 1] == hits.last());
                }
            }
        }
    }

    /// The nodes most similar to the probe, best first, at most `k` of them,
    /// none of them a tombstone: a greedy walk down the upper layers, then a
    /// search of layer 0 with a candidate list of `ef` (at least `k`) nodes.
    /// The search returns `k` nodes, or else every live node with a vector
    /// that the links of layer 0 lead to from the node where the walk down
    /// ended.
    pub fn search<H: Host>(
        &self,
        probe: &Probe<'_, H::Query>,
        k: usize,
        ef: usize,
        vectors: &HashMap<DocId, QuantizedVector>,
        host: &H,
    ) -> (hits: Vec<Scored>)
        requires
            self.wf(),
        ensures
            hits@.len() <= k,
            ranked(hits@),
            distinct_ids(hits@),
            forall|i: int|
                0 <= i < hits@.len() ==> vectors@.contains_key((#[trigger] hits@[i]).id)
                    && self.has_live(hits@[i].id),
            hits@.len() == k || self.found_near(hits@, vectors@.dom()),
    {
        let entry = match self.entry {
            Some(e) => e,
            None => { return Vec::new(); },
        };
        let width: usize = if ef < k { k } else { ef };
        let start = self.descend(probe, entry, 0, vectors, host);
        let mut hits = self.search_layer(probe, &start, width, 0, true, vectors, host);
        proof {
            let scan = choose|scan: Seq<Scored>|
                #[trigger] self.walked(scan, vectors@.dom(), true) && is_best_k(
                    hits@,
                    scan,
                    width as int,
                );
            lemma_walk_hits(hits@, scan, width as int);
        }
        if hits.len() > k {
            hits.truncate(k);
        } else if hits.len() < k {
            proof {
                lemma_covers_from_one(*self, hits@, 0, start@, 0, vectors@.dom(), true);
                assert(self.covers_reach(hits@, 0, seq![start@[0]], vectors@.dom(), true));
            }
        }
        hits
    }

    /// Whether the hits hold every live node with a vector that the links
    /// of layer 0 lead to from a node where a walk down from the entry
    /// point can end, where the graph has a node.
    pub open spec fn found_near(&self, hits: Seq<Scored>, vectors: Set<DocId>) -> bool {
        self.nodes@.len() == 0 || exists|start: usize|
            start < self.nodes@.len() && self.entry is Some && self.came_down(
                0,
                self.entry->0 as int,
                start as int,
            ) && #[trigger] self.covers_reach(hits, 0, seq![start], vectors, true)
    }

    /// Whether the links of layer 0 lead from every node to every node.
    pub open spec fn joined(&self) -> bool {
        forall|a: usize, b: int|
            a < self.nodes@.len() && 0 <= b < self.nodes@.len() ==> #[trigger] self.reaches(
                0,
                seq![a],
                b,
            )
    }

    /// On a graph whose layer 0 leads from every node to every node, hits
    /// that hold what the links lead to from one node hold every live node
    /// that has a vector.
    pub proof fn lemma_joined_finds_all(&self, hits: Seq<Scored>, vectors: Set<DocId>)
        requires
            self.joined(),
            self.found_near(hits, vectors),
        ensures
            forall|id: DocId|
                self.has_live(id) && vectors.contains(id) ==> #[trigger] has_id(hits, id),
    {
        assert forall|id: DocId| self.has_live(id) && vectors.contains(id) implies #[trigger] has_id(
            hits,
            id,
        ) by {
            let s = choose|s: int|
                0 <= s < self.nodes@.len() && (#[trigger] self.nodes@[s]).id == id
                    && !self.nodes@[s].deleted;
            let start = choose|start: usize|
                start < self.nodes@.len() && #[trigger] self.covers_reach(
                    hits,
                    0,
                    seq![start],
                    vectors,
                    true,
                );
            assert(self.reaches(0, seq![start], s));
            assert(self.scorable(s, vectors, true));
            assert(has_id(hits, self.nodes@[s].id));
        }
    }

    /// Whether a node that is no tombstone stands for `id`.
    pub fn is_live(&self, id: DocId) -> (r: bool)
        requires
            self.wf(),
        ensures
            r == self.has_live(id),
    {
        match self.slot_of.get(&id) {
            Some(s) => {
                let slot: usize = *s;
                if slot < self.nodes.len() && self.nodes[slot].id == id {
                    !self.nodes[slot].deleted
                } else {
                    false
                }
            },
            None => false,
        }
    }

    /// Whether the live nodes of the graph stand for exactly the ids of
    /// `ids`: each of them is a live node, and there are as many live nodes
    /// as ids.
    pub fn covers(&self, ids: &Vec<DocId>) -> (r: bool)
        requires
            self.wf(),
            ids@.no_duplicates(),
        ensures
            r == ((forall|i: int| 0 <= i < ids@.len() ==> self.has_live(#[trigger] ids@[i]))
                && self.nodes@.len() - self.tombstones_among(self.nodes@.len() as int)
                == ids@.len()),
            r ==> forall|id: DocId| #[trigger] self.has_live(id) ==> ids@.contains(id),
    {
        let mut i: usize = 0;
        while i < ids.len()
            invariant
                i <= ids.len(),
                self.wf(),
                forall|j: int| 0 <= j < i ==> self.has_live(#[trigger] ids@[j]),
            decreases ids.len() - i,
        {
            if !self.is_live(ids[i]) {
                return false;
            }
            i += 1;
        }
        let stats = self.stats();
        let r: bool = stats.total_nodes - stats.tombstones == ids.len();
        proof {
            if r {
                self.lemma_covers_exactly(ids@);
            }
        }
        r
    }

    /// The ids of the live nodes among the first `n` nodes.
    pub open spec fn live_among(&self, n: int) -> Set<DocId> {
        Set::new(
            |id: DocId|
                exists|s: int|
                    0 <= s < n && s < self.nodes@.len() && (#[trigger] self.nodes@[s]).id == id
                        && !self.nodes@[s].deleted,
        )
    }

    /// The live nodes among the first `n` stand for as many ids as they
    /// are.
    proof fn lemma_live_among(&self, n: int)
        requires
            self.wf(),
            0 <= n <= self.nodes@.len(),
        ensures
            self.live_among(n).finite(),
            self.live_among(n).len() == n - self.tombstones_among(n),
        decreases n,
    {
        if n == 0 {
            assert(self.live_among(0) =~= Set::<DocId>::empty());
        } else {
            self.lemma_live_among(n - 1);
            let last = self.nodes@[n - 1];
            if last.deleted {
                assert(self.live_among(n) =~= self.live_among(n - 1)) by {
                    assert forall|id: DocId| self.live_among(n).contains(id) implies self.live_among(
                        n - 1,
                    ).contains(id) by {
                        let s = choose|s: int|
                            0 <= s < n && s < self.nodes@.len() && (#[trigger] self.nodes@[s]).id
                                == id && !self.nodes@[s].deleted;
                        assert(s < n - 1);
                    }
                }
            } else {
                assert(!self.live_among(n - 1).contains(last.id)) by {
                    if self.live_among(n - 1).contains(last.id) {
                        let s = choose|s: int|
                            0 <= s < n - 1 && s < self.nodes@.len() && (#[trigger] self.nodes@[s]).id
                                == last.id && !self.nodes@[s].deleted;
                        assert(self.slot_of@[self.nodes@[s].id] == s);
                        assert(self.slot_of@[self.nodes@[n - 1].id] == n - 1);
                    }
                }
                assert(self.live_among(n) =~= self.live_among(n - 1).insert(last.id)) by {
                    assert forall|id: DocId| self.live_among(n).contains(id) implies self.live_among(
                        n - 1,
                    ).insert(last.id).contains(id) by {
                        let s = choose|s: int|
                            0 <= s < n && s < self.nodes@.len() && (#[trigger] self.nodes@[s]).id
                                == id && !self.nodes@[s].deleted;
                        if s < n - 1 {
                            assert(self.live_among(n - 1).contains(id));
                        }
                    }
                    assert(self.nodes@[n - 1].id == last.id);
                }
            }
        }
    }

    /// Ids that are all live nodes, and as many as there are live nodes,
    /// are all the ids of live nodes.
    pub proof fn lemma_covers_exactly(&self, ids: Seq<DocId>)
        requires
            self.wf(),
            ids.no_duplicates(),
            forall|i: int| 0 <= i < ids.len() ==> self.has_live(#[trigger] ids[i]),
            self.nodes@.len() - self.tombstones_among(self.nodes@.len() as int) == ids.len(),
        ensures
            forall|id: DocId| #[trigger] self.has_live(id) ==> ids.contains(id),
    {
        let n = self.nodes@.len() as int;
        let all = self.live_among(n);
        self.lemma_live_among(n);
        ids.unique_seq_to_set();
        assert(ids.to_set().subset_of(all)) by {
            assert forall|id: DocId| ids.to_set().contains(id) implies all.contains(id) by {
                let i = choose|i: int| 0 <= i < ids.len() && ids[i] == id;
                assert(self.has_live(ids[i]));
            }
        }
        vstd::set_lib::lemma_subset_equality(ids.to_set(), all);
        assert forall|id: DocId| #[trigger] self.has_live(id) implies ids.contains(id) by {
            assert(all.contains(id));
            assert(ids.to_set().contains(id));
        }
    }

    /// Mark the node of `id` as a tombstone. Its links stay.
    pub fn remove(&mut self, id: DocId)
        requires
            old(self).wf(),
        ensures
            final(self).wf(),
            final(self).config == old(self).config,
            final(self).nodes@.len() == old(self).nodes@.len(),
            final(self).entry == old(self).entry,
            !final(self).has_live(id),
            forall|other: DocId|
                other != id ==> final(self).has_live(other) == old(self).has_live(other),
            old(self).bounded() ==> final(self).bounded(),
    {
        let slot = match self.slot_of.get(&id) {
            Some(s) => *s,
            None => { return; },
        };
        if slot < self.nodes.len() && self.nodes[slot].id == id {
            let lists = copy_lists(&self.nodes[slot].neighbors);
            self.nodes.set(slot, HnswNode { id, neighbors: lists, deleted: true });
            proof {
                lemma_live_elsewhere(*old(self), *self, slot as int);
                if old(self).bounded() {
                    assert forall|s: int, l: int|
                        0 <= s < self.nodes@.len() && 0 <= l < self.nodes@[s].neighbors@.len() implies (
                    #[trigger] self.list_at(s, l)).len() <= self.cap_of(l) by {
                        if s != slot {
                            assert(self.nodes@[s] == old(self).nodes@[s]);
                        }
                        assert(self.list_at(s, l) == old(self).list_at(s, l));
                        assert(old(self).list_at(s, l).len() <= old(self).cap_of(l));
                    }
                }
            }
        }
    }
}

/// Whether `now` is the list `was` with `target` linked in under the bound
/// `cap`: where the list had room, `target` stands at its end; where it
/// was full, it holds at most `cap` of its slots and `target`; a list that
/// cannot grow stays.
pub open spec fn relinked(was: Seq<usize>, now: Seq<usize>, target: usize, cap: int) -> bool {
    if was.len() >= usize::MAX {
        now == was
    } else if was.len() < cap {
        now == was.push(target)
    } else {
        now.len() <= cap && forall|j: int|
            0 <= j < now.len() ==> was.push(target).contains(#[trigger] now[j])
    }
}

impl HnswIndex {
    /// Choose at most `cap` neighbours among the candidates, which come best
    /// first with their similarity to the node they are chosen for: a
    /// candidate is taken where it is more similar to that node than to
    /// every neighbour chosen before it, so that the neighbours point in
    /// different directions. Returns their slots, in the order of the
    /// candidates. The first candidate that can become a neighbour always
    /// does, where `cap` allows one.
    fn select_neighbors<H: Host>(
        &self,
        candidates: &Vec<Scored>,
        cap: usize,
        vectors: &HashMap<DocId, QuantizedVector>,
        host: &H,
    ) -> (r: Vec<usize>)
        ensures
            r@.len() <= cap,
            r@.len() <= candidates@.len(),
            forall|i: int| 0 <= i < r@.len() ==> (#[trigger] r@[i]) < self.nodes@.len(),
            exists|picks: Seq<int>| self.picked(r@, candidates@, picks, vectors@.dom()),
            distinct_ids(candidates@) ==> r@.no_duplicates(),
            r@.len() == 0 ==> cap == 0 || forall|k: int|
                0 <= k < candidates@.len() ==> !self.eligible(
                    #[trigger] candidates@[k],
                    vectors@.dom(),
                ),
    {
        let mut chosen: Vec<DocId> = Vec::new();
        let mut slots: Vec<usize> = Vec::new();
        let mut i: usize = 0;
        let ghost mut picks: Seq<int> = Seq::empty();
        while i < candidates.len() && slots.len() < cap
            invariant
                i <= candidates.len(),
                slots@.len() <= cap,
                slots@.len() <= i,
                chosen@.len() == slots@.len(),
                forall|j: int| 0 <= j < slots@.len() ==> (#[trigger] slots@[j]) < self.nodes@.len(),
                self.picked(slots@, candidates@, picks, vectors@.dom()),
                distinct_ids(candidates@) ==> slots@.no_duplicates(),
                forall|j: int| 0 <= j < picks.len() ==> #[trigger] picks[j] < i,
                slots@.len() == 0 ==> forall|k: int|
                    0 <= k < i ==> !self.eligible(#[trigger] candidates@[k], vectors@.dom()),
            decreases candidates.len() - i,
        {
            let c = candidates[i];
            i += 1;
            let slot = match self.slot_of.get(&c.id) {
                Some(s) => *s,
                None => { continue; },
            };
            if slot >= self.nodes.len() || self.nodes[slot].id != c.id {
                continue;
            }
            let vc = match vectors.get(&c.id) {
                Some(v) => v,
                None => { continue; },
            };
            let mut apart: bool = true;
            let mut j: usize = 0;
            while j < chosen.len() && apart
                invariant
                    j <= chosen.len(),
                    j == 0 ==> apart,
                decreases chosen.len() - j,
            {
                match vectors.get(&chosen[j]) {
                    Some(vs) => {
                        let among = host.similarity(self.config.metric, self.config.mode, vc, vs);
                        if among.key >= c.score.key {
                            apart = false;
                        }
                    },
                    None => {},
                }
                j += 1;
            }
            if apart {
                let ghost before = slots@;
                let ghost picked = picks;
                chosen.push(c.id);
                slots.push(slot);
                proof {
                    picks = picked.push(i - 1);
                    assert forall|j: int| 0 <= j < picks.len() implies 0 <= #[trigger] picks[j]
                        < candidates@.len() && self.eligible(candidates@[picks[j]], vectors@.dom())
                        && slots@[j] == self.slot_of@[candidates@[picks[j]].id] by {
                        if j < picked.len() {
                            assert(picks[j] == picked[j]);
                            assert(slots@[j] == before[j]);
                        }
                    }
                    assert forall|a: int, b: int| 0 <= a < b < picks.len() implies (
                    #[trigger] picks[a]) < (#[trigger] picks[b]) by {
                        if b < picked.len() {
                            assert(picks[a] == picked[a] && picks[b] == picked[b]);
                        } else {
                            assert(picks[a] == picked[a]);
                        }
                    }
                    if picked.len() > 0 {
                        assert(picks[0] == picked[0]);
                    }
                    if distinct_ids(candidates@) {
                        assert forall|a: int, b: int|
                            0 <= a < slots@.len() && 0 <= b < slots@.len() && a != b implies slots@[a]
                            != slots@[b] by {
                            let low = if a < b { a } else { b };
                            assert(slots@[low] == before[low]);
                            assert(picks[low] == picked[low]);
                            if a < before.len() && b < before.len() {
                                assert(slots@[a] == before[a] && slots@[b] == before[b]);
                            } else {
                                assert(picked[low] < i - 1);
                                assert(candidates@[picked[low]].id != candidates@[i - 1].id);
                                assert(self.eligible(candidates@[picked[low]], vectors@.dom()));
                            }
                        }
                    }
                }
            }
        }
        slots
    }

    /// Whether a candidate can become a neighbour: the graph keeps a node
    /// under its id, and its vector is known.
    pub open spec fn eligible(&self, c: Scored, vectors: Set<DocId>) -> bool {
        self.placed(c.id) && vectors.contains(c.id)
    }

    /// Whether `slots` are the slots of the candidates at the places
    /// `picks`: candidates that can become neighbours, in the order of the
    /// candidates, the first of them that can become one first.
    pub open spec fn picked(
        &self,
        slots: Seq<usize>,
        candidates: Seq<Scored>,
        picks: Seq<int>,
        vectors: Set<DocId>,
    ) -> bool {
        &&& picks.len() == slots.len()
        &&& forall|j: int|
            0 <= j < picks.len() ==> 0 <= #[trigger] picks[j] < candidates.len() && self.eligible(
                candidates[picks[j]],
                vectors,
            ) && slots[j] == self.slot_of@[candidates[picks[j]].id]
        &&& forall|a: int, b: int|
            0 <= a < b < picks.len() ==> (#[trigger] picks[a]) < (#[trigger] picks[b])
        &&& picks.len() > 0 ==> forall|k: int|
            0 <= k < picks[0] ==> !self.eligible(#[trigger] candidates[k], vectors)
    }

    /// Put `list` in the place of the neighbours that the node in `slot` has
    /// on `layer`.
    fn set_neighbors(&mut self, slot: usize, layer: usize, list: Vec<usize>)
        requires
            slot < old(self).nodes@.len(),
            layer < old(self).nodes@[slot as int].neighbors@.len(),
        ensures
            final(self).same_but_list(old(self), slot as int, layer as int),
            final(self).list_at(slot as int, layer as int) == list@,
    {
        let id = self.nodes[slot].id;
        let deleted = self.nodes[slot].deleted;
        let mut lists = copy_lists(&self.nodes[slot].neighbors);
        lists.set(layer, list);
        self.nodes.set(slot, HnswNode { id, neighbors: lists, deleted });
        proof {
            assert forall|s: int, l: int|
                0 <= s < self.nodes@.len() && 0 <= l < self.nodes@[s].neighbors@.len() && !(s
                    == slot && l == layer) implies #[trigger] self.list_at(s, l) == old(self).list_at(s, l) by {
                if s != slot {
                    assert(self.nodes@[s] == old(self).nodes@[s]);
                }
            }
        }
    }

    /// Bring the neighbours that the node in `slot` has on `layer` down to
    /// `cap`, by the rule of `select_neighbors`: the node keeps neighbours
    /// that it had, and no others. A node without a vector keeps the first
    /// `cap` of them.
    fn prune<H: Host>(
        &mut self,
        slot: usize,
        layer: usize,
        cap: usize,
        vectors: &HashMap<DocId, QuantizedVector>,
        host: &H,
    )
        requires
            old(self).wf(),
            slot < old(self).nodes@.len(),
            layer < old(self).nodes@[slot as int].neighbors@.len(),
        ensures
            final(self).same_but_list(old(self), slot as int, layer as int),
            final(self).list_at(slot as int, layer as int).len() <= cap,
            forall|j: int|
                0 <= j < final(self).list_at(slot as int, layer as int).len() ==> old(
                    self,
                ).list_at(slot as int, layer as int).contains(
                    #[trigger] final(self).list_at(slot as int, layer as int)[j],
                ),
            !vectors@.contains_key(old(self).nodes@[slot as int].id) ==> final(self).list_at(
                slot as int,
                layer as int,
            ) == old(self).list_at(slot as int, layer as int).take(
                if cap < old(self).list_at(slot as int, layer as int).len() {
                    cap as int
                } else {
                    old(self).list_at(slot as int, layer as int).len() as int
                },
            ),
    {
        let ghost was = self.list_at(slot as int, layer as int);
        let base = match vectors.get(&self.nodes[slot].id) {
            Some(v) => v,
            None => {
                // Without its own vector the node cannot choose: it keeps
                // the neighbours it took first.
                let mut list = self.nodes[slot].neighbors[layer].clone();
                assert(list@ == was);
                list.truncate(cap);
                proof {
                    assert forall|j: int| 0 <= j < list@.len() implies was.contains(
                        #[trigger] list@[j],
                    ) by {
                        assert(was[j] == list@[j]);
                    }
                }
                self.set_neighbors(slot, layer, list);
                return;
            },
        };
        let mut scored: Vec<Scored> = Vec::new();
        let mut met: HashSet<DocId> = HashSet::new();
        let count: usize = self.nodes[slot].neighbors[layer].len();
        let mut n: usize = 0;
        while n < count
            invariant
                n <= count,
                slot < self.nodes@.len(),
                layer < self.nodes@[slot as int].neighbors@.len(),
                count == self.nodes@[slot as int].neighbors@[layer as int]@.len(),
                was == self.list_at(slot as int, layer as int),
                distinct_ids(scored@),
                forall|i: int| 0 <= i < scored@.len() ==> met@.contains((#[trigger] scored@[i]).id),
                forall|i: int|
                    0 <= i < scored@.len() ==> self.stands_in(was, (#[trigger] scored@[i]).id),
            decreases count - n,
        {
            let other: usize = self.nodes[slot].neighbors[layer][n];
            assert(was[n as int] == other);
            n += 1;
            if other >= self.nodes.len() {
                continue;
            }
            let id = self.nodes[other].id;
            if !met.insert(id) {
                continue;
            }
            match vectors.get(&id) {
                Some(v) => {
                    let score = host.similarity(self.config.metric, self.config.mode, base, v);
                    let ghost before = scored@;
                    scored.push(Scored { id, score });
                    proof {
                        let after = scored@;
                        assert forall|a: int, b: int| 0 <= a < b < after.len() implies (
                        #[trigger] after[a]).id != (#[trigger] after[b]).id by {
                            if b == before.len() {
                                assert(after[a] == before[a]);
                            } else {
                                assert(after[a] == before[a] && after[b] == before[b]);
                            }
                        }
                        assert forall|i: int| 0 <= i < after.len() implies met@.contains(
                            (#[trigger] after[i]).id,
                        ) by {
                            if i < before.len() {
                                assert(after[i] == before[i]);
                            }
                        }
                        assert forall|i: int| 0 <= i < after.len() implies self.stands_in(
                            was,
                            (#[trigger] after[i]).id,
                        ) by {
                            if i < before.len() {
                                assert(after[i] == before[i]);
                            } else {
                                assert(was[n - 1] == other);
                            }
                        }
                    }
                },
                None => {},
            }
        }
        let best_first = top_k(&scored, scored.len());
        let kept = self.select_neighbors(&best_first, cap, vectors, host);
        proof {
            let picks = choose|picks: Seq<int>|
                self.picked(kept@, best_first@, picks, vectors@.dom());
            assert forall|j: int| 0 <= j < kept@.len() implies was.contains(#[trigger] kept@[j]) by {
                let c = best_first@[picks[j]];
                assert(scored@.contains(c));
                let a = choose|a: int| 0 <= a < scored@.len() && scored@[a] == c;
                assert(self.stands_in(was, scored@[a].id));
                let k = choose|k: int|
                    0 <= k < was.len() && (#[trigger] was[k]) < self.nodes@.len()
                        && self.nodes@[was[k] as int].id == c.id;
                assert(self.slot_of@[self.nodes@[was[k] as int].id] == was[k]);
            }
        }
        self.set_neighbors(slot, layer, kept);
    }

    /// Whether one of the slots of `list` holds the node of `id`.
    pub open spec fn stands_in(&self, list: Seq<usize>, id: DocId) -> bool {
        exists|k: int|
            0 <= k < list.len() && (#[trigger] list[k]) < self.nodes@.len()
                && self.nodes@[list[k] as int].id == id
    }

    /// A bounded graph that got one more node, itself within bounds, is
    /// bounded.
    proof fn lemma_bounded_pushed(&self, other: &HnswIndex)
        requires
            other.bounded(),
            self.config == other.config,
            self.nodes@.len() == other.nodes@.len() + 1,
            forall|s: int| 0 <= s < other.nodes@.len() ==> self.nodes@[s] == other.nodes@[s],
            forall|l: int|
                0 <= l < self.nodes@[other.nodes@.len() as int].neighbors@.len() ==> (
                #[trigger] self.nodes@[other.nodes@.len() as int].neighbors@[l])@.len()
                    <= self.cap_of(l),
        ensures
            self.bounded(),
    {
        assert forall|s: int, l: int|
            0 <= s < self.nodes@.len() && 0 <= l < self.nodes@[s].neighbors@.len() implies (
        #[trigger] self.list_at(s, l)).len() <= self.cap_of(l) by {
            if s < other.nodes@.len() {
                assert(self.nodes@[s] == other.nodes@[s]);
                assert(self.list_at(s, l) == other.list_at(s, l));
                assert(other.list_at(s, l).len() <= other.cap_of(l));
            } else {
                assert(self.nodes@[other.nodes@.len() as int].neighbors@[l]@.len() <= self.cap_of(l));
            }
        }
    }

    /// A graph that is bounded but for one list is bounded where that list
    /// is short enough.
    proof fn lemma_bounded_but(&self, other: &HnswIndex, slot: int, layer: int)
        requires
            other.bounded(),
            self.same_but_list(other, slot, layer),
            0 <= slot < self.nodes@.len() && 0 <= layer < self.nodes@[slot].neighbors@.len()
                ==> self.list_at(slot, layer).len() <= self.cap_of(layer),
        ensures
            self.bounded(),
    {
        assert forall|s: int, l: int|
            0 <= s < self.nodes@.len() && 0 <= l < self.nodes@[s].neighbors@.len() implies (
        #[trigger] self.list_at(s, l)).len() <= self.cap_of(l) by {
            if !(s == slot && l == layer) {
                assert(self.list_at(s, l) == other.list_at(s, l));
                assert(other.list_at(s, l).len() <= other.cap_of(l));
            }
        }
    }

    /// Whether the graph is `before` with the node in `target` made a
    /// neighbour of the node in `slot` on `layer`. Where there is no such
    /// node or layer, nothing has changed. Else only that list has: where
    /// it had room, `target` stands at its end; where it was full, it holds
    /// at most `cap` of its neighbours and `target`.
    pub open spec fn linked_to(
        &self,
        before: &HnswIndex,
        slot: int,
        layer: int,
        target: usize,
        cap: int,
    ) -> bool {
        if slot >= before.nodes@.len() || layer >= before.nodes@[slot].neighbors@.len()
            || before.list_at(slot, layer).len() >= usize::MAX {
            *self == *before
        } else {
            &&& self.same_but_list(before, slot, layer)
            &&& relinked(
                before.list_at(slot, layer),
                self.list_at(slot, layer),
                target,
                cap,
            )
        }
    }

    /// Make the node in `target` a neighbour of the node in `slot` on
    /// `layer`, and prune the neighbours of that node where they are more
    /// than `cap`.
    fn link_back<H: Host>(
        &mut self,
        slot: usize,
        layer: usize,
        target: usize,
        cap: usize,
        vectors: &HashMap<DocId, QuantizedVector>,
        host: &H,
    )
        requires
            old(self).wf(),
            cap == old(self).cap_of(layer as int),
        ensures
            final(self).wf(),
            final(self).same_nodes(old(self)),
            old(self).bounded() ==> final(self).bounded(),
            final(self).linked_to(old(self), slot as int, layer as int, target, cap as int),
    {
        if slot >= self.nodes.len() || layer >= self.nodes[slot].neighbors.len() {
            return;
        }
        let mut list = self.nodes[slot].neighbors[layer].clone();
        if list.len() == usize::MAX {
            return;
        }
        let ghost was = list@;
        list.push(target);
        let crowded: bool = list.len() > cap;
        self.set_neighbors(slot, layer, list);
        let ghost linked = *self;
        proof {
            lemma_same_nodes_live(*old(self), linked);
        }
        if crowded {
            self.prune(slot, layer, cap, vectors, host);
            proof {
                lemma_same_nodes_live(linked, *self);
                assert forall|s: int, l: int|
                    0 <= s < self.nodes@.len() && 0 <= l < self.nodes@[s].neighbors@.len() && !(s
                        == slot && l == layer) implies #[trigger] self.list_at(s, l) == old(self).list_at(s, l) by {
                    assert(self.list_at(s, l) == linked.list_at(s, l));
                    assert(linked.list_at(s, l) == old(self).list_at(s, l));
                }
            }
        }
        proof {
            if old(self).bounded() {
                self.lemma_bounded_but(old(self), slot as int, layer as int);
            }
        }
    }

    /// The layer of the entry point (0 for a graph without nodes).
    pub open spec fn top_layer(&self) -> int {
        match self.entry {
            Some(e) => if e < self.nodes@.len() && self.nodes@[e as int].neighbors@.len() > 0 {
                self.nodes@[e as int].neighbors@.len() - 1
            } else {
                0
            },
            None => 0,
        }
    }

    /// Whether `lists` are neighbours as they are chosen for a new node on
    /// `level`: one list for each layer up to `level`; each holds slots of
    /// nodes of the graph, none twice, and no more than the layer allows;
    /// the lists above the layer of the entry point are empty; and the list
    /// of layer 0 holds a neighbour where the graph has a node, every node
    /// has a vector, and the configuration allows a neighbour and a
    /// candidate.
    pub open spec fn links_chosen(
        &self,
        lists: Seq<Vec<usize>>,
        level: int,
        vectors: Set<DocId>,
    ) -> bool {
        &&& lists.len() == level + 1
        &&& forall|l: int|
            0 <= l < lists.len() ==> {
                &&& (#[trigger] lists[l])@.len() <= self.cap_of(l)
                &&& lists[l]@.no_duplicates()
                &&& forall|j: int|
                    0 <= j < lists[l]@.len() ==> (#[trigger] lists[l]@[j]) < self.nodes@.len()
                &&& l > self.top_layer() ==> lists[l]@.len() == 0
            }
        &&& self.nodes@.len() > 0 && self.config.m_max > 0 && self.config.ef_construction > 0
            && (forall|s: int|
            0 <= s < self.nodes@.len() ==> vectors.contains((#[trigger] self.nodes@[s]).id))
            ==> lists[0]@.len() > 0
    }

    /// Choose the neighbours of a new node with the given vector on
    /// `level`: walk down from the entry point to that layer, and on that
    /// layer and every one below search for candidates and choose among
    /// them.
    #[verifier::rlimit(30)]
    fn choose_links<H: Host>(
        &self,
        vector: &QuantizedVector,
        entry: usize,
        level: usize,
        vectors: &HashMap<DocId, QuantizedVector>,
        host: &H,
    ) -> (lists: Vec<Vec<usize>>)
        requires
            self.wf(),
            self.entry == Some(entry),
            level <= MAX_LAYER,
        ensures
            self.links_chosen(lists@, level as int, vectors@.dom()),
    {
        let mut lists: Vec<Vec<usize>> = Vec::new();
        let mut l: usize = 0;
        while l <= level
            invariant
                l <= level + 1,
                level <= MAX_LAYER,
                lists@.len() == l,
                forall|j: int| 0 <= j < lists@.len() ==> (#[trigger] lists@[j])@.len() == 0,
            decreases level + 1 - l,
        {
            lists.push(Vec::new());
            l += 1;
        }
        let top: usize = self.layer_of(entry);
        let probe: Probe<'_, H::Query> = Probe::Stored(vector);
        let mut current = self.descend(&probe, entry, level, vectors, host);
        let mut layer: usize = if level < top { level } else { top };
        let mut more: bool = true;
        let ghost all_known = self.config.m_max > 0 && self.config.ef_construction > 0 && (forall|
            s: int,
        | 0 <= s < self.nodes@.len() ==> vectors@.dom().contains((#[trigger] self.nodes@[s]).id));
        while more
            invariant
                layer <= level,
                layer <= top,
                top == self.top_layer(),
                lists@.len() == level + 1,
                self.wf(),
                current@.len() >= 1,
                forall|j: int|
                    0 <= j < current@.len() ==> (#[trigger] current@[j]) < self.nodes@.len(),
                all_known == (self.config.m_max > 0 && self.config.ef_construction > 0 && (forall|
                    s: int,
                | 0 <= s < self.nodes@.len() ==> vectors@.dom().contains((#[trigger] self.nodes@[s]).id))),
                forall|l: int|
                    0 <= l < lists@.len() ==> {
                        &&& (#[trigger] lists@[l])@.len() <= self.cap_of(l)
                        &&& lists@[l]@.no_duplicates()
                        &&& forall|j: int|
                            0 <= j < lists@[l]@.len() ==> (#[trigger] lists@[l]@[j])
                                < self.nodes@.len()
                        &&& l > top ==> lists@[l]@.len() == 0
                    },
                !more && all_known ==> lists@[0]@.len() > 0,
            decreases layer + (if more { 1int } else { 0int }),
        {
            let cap: usize = if layer == 0 { self.config.m_max } else { self.config.m };
            let found = self.search_layer(
                &probe,
                &current,
                self.config.ef_construction,
                layer,
                false,
                vectors,
                host,
            );
            proof {
                let scan = choose|scan: Seq<Scored>|
                    #[trigger] self.walked(scan, vectors@.dom(), false) && is_best_k(
                        found@,
                        scan,
                        self.config.ef_construction as int,
                    );
                lemma_walk_hits(found@, scan, self.config.ef_construction as int);
                assert forall|k: int| 0 <= k < found@.len() implies self.eligible(
                    #[trigger] found@[k],
                    vectors@.dom(),
                ) by {
                    let j = choose|j: int| 0 <= j < scan.len() && scan[j] == found@[k];
                    assert(self.has_node(scan[j].id));
                    let t = choose|t: int|
                        0 <= t < self.nodes@.len() && (#[trigger] self.nodes@[t]).id == scan[j].id;
                    assert(self.slot_of@[self.nodes@[t].id] == t);
                }
                if all_known && layer == 0 && found@.len() == 0 {
                    let e = current@[0] as int;
                    assert(self.reached_in(0, current@, e, 0));
                    assert(self.reaches(0, current@, e));
                    assert(self.scorable(e, vectors@.dom(), false));
                    assert(has_id(found@, self.nodes@[e].id));
                }
            }
            let chosen = self.select_neighbors(&found, cap, vectors, host);
            proof {
                if all_known && layer == 0 {
                    assert(found@.len() > 0);
                    assert(self.eligible(found@[0], vectors@.dom()));
                }
            }
            let ghost before = lists@;
            lists.set(layer, chosen);
            proof {
                assert forall|l: int| 0 <= l < lists@.len() implies {
                    &&& (#[trigger] lists@[l])@.len() <= self.cap_of(l)
                    &&& lists@[l]@.no_duplicates()
                    &&& forall|j: int|
                        0 <= j < lists@[l]@.len() ==> (#[trigger] lists@[l]@[j]) < self.nodes@.len()
                    &&& l > top ==> lists@[l]@.len() == 0
                } by {
                    if l != layer {
                        assert(lists@[l] == before[l]);
                    }
                }
            }
            let slots = self.slots_of(&found);
            if slots.len() > 0 {
                current = slots;
            }
            if layer == 0 {
                more = false;
            } else {
                layer -= 1;
            }
        }
        lists
    }

    /// Whether the graph is `before` with the node in `slot` linked back
    /// from its neighbours: on every layer, each of its neighbours has it
    /// linked in as `relinked` says, and every other list is as it was.
    pub open spec fn linked_from(&self, before: &HnswIndex, slot: int) -> bool {
        &&& forall|l: int|
            0 <= l < before.nodes@[slot].neighbors@.len() ==> #[trigger] self.list_at(slot, l)
                == before.list_at(slot, l)
        &&& forall|s: int, l: int|
            0 <= s < slot && 0 <= l < before.nodes@[s].neighbors@.len() ==> if l
                < before.nodes@[slot].neighbors@.len() && before.list_at(slot, l).contains(
                s as usize,
            ) {
                relinked(
                    before.list_at(s, l),
                    #[trigger] self.list_at(s, l),
                    slot as usize,
                    self.cap_of(l),
                )
            } else {
                self.list_at(s, l) == before.list_at(s, l)
            }
    }

    /// Whether the links back to the node in `slot` are made on the layers
    /// below `cur` and from the first `n` neighbours on layer `cur`, and
    /// nothing else has changed.
    pub open spec fn linked_upto(&self, before: &HnswIndex, slot: int, cur: int, n: int) -> bool {
        &&& forall|l: int|
            0 <= l < before.nodes@[slot].neighbors@.len() ==> #[trigger] self.list_at(slot, l)
                == before.list_at(slot, l)
        &&& forall|s: int, l: int|
            0 <= s < slot && 0 <= l < before.nodes@[s].neighbors@.len() ==> if l
                < before.nodes@[slot].neighbors@.len() && ((l < cur && before.list_at(
                slot,
                l,
            ).contains(s as usize)) || (l == cur && before.list_at(slot, l).take(n).contains(
                s as usize,
            ))) {
                relinked(
                    before.list_at(s, l),
                    #[trigger] self.list_at(s, l),
                    slot as usize,
                    self.cap_of(l),
                )
            } else {
                self.list_at(s, l) == before.list_at(s, l)
            }
    }

    /// Link the node in `slot`, the last of the graph, back from each of
    /// its neighbours.
    #[verifier::rlimit(30)]
    fn link_all<H: Host>(
        &mut self,
        slot: usize,
        links: &Vec<Vec<usize>>,
        vectors: &HashMap<DocId, QuantizedVector>,
        host: &H,
    )
        requires
            old(self).wf(),
            slot + 1 == old(self).nodes@.len(),
            links@.len() == old(self).nodes@[slot as int].neighbors@.len(),
            forall|l: int|
                0 <= l < links@.len() ==> (#[trigger] links@[l])@ == old(self).list_at(
                    slot as int,
                    l,
                ) && links@[l]@.no_duplicates(),
            forall|l: int, j: int|
                0 <= l < links@.len() && 0 <= j < links@[l]@.len() ==> (#[trigger] links@[l]@[j])
                    < slot,
        ensures
            final(self).wf(),
            final(self).same_nodes(old(self)),
            old(self).bounded() ==> final(self).bounded(),
            final(self).linked_from(old(self), slot as int),
    {
        let ghost pushed = *self;
        let mut l: usize = 0;
        while l < links.len()
            invariant
                l <= links.len(),
                self.wf(),
                self.same_nodes(&pushed),
                pushed.wf(),
                slot + 1 == pushed.nodes@.len(),
                links@.len() == pushed.nodes@[slot as int].neighbors@.len(),
                forall|k: int|
                    0 <= k < links@.len() ==> (#[trigger] links@[k])@ == pushed.list_at(
                        slot as int,
                        k,
                    ) && links@[k]@.no_duplicates(),
                forall|k: int, j: int|
                    0 <= k < links@.len() && 0 <= j < links@[k]@.len() ==> (
                    #[trigger] links@[k]@[j]) < slot,
                pushed.bounded() ==> self.bounded(),
                self.linked_upto(&pushed, slot as int, l as int, 0),
            decreases links.len() - l,
        {
            let cap: usize = if l == 0 { self.config.m_max } else { self.config.m };
            let count: usize = links[l].len();
            let ghost list = links@[l as int]@;
            let mut n: usize = 0;
            while n < count
                invariant
                    l < links.len(),
                    n <= count,
                    count == list.len(),
                    list == links@[l as int]@,
                    list == pushed.list_at(slot as int, l as int),
                    list.no_duplicates(),
                    forall|j: int| 0 <= j < list.len() ==> (#[trigger] list[j]) < slot,
                    self.wf(),
                    self.same_nodes(&pushed),
                    pushed.wf(),
                    slot + 1 == pushed.nodes@.len(),
                    links@.len() == pushed.nodes@[slot as int].neighbors@.len(),
                    cap == self.cap_of(l as int),
                    pushed.bounded() ==> self.bounded(),
                    self.linked_upto(&pushed, slot as int, l as int, n as int),
                decreases count - n,
            {
                let neighbor: usize = links[l][n];
                let ghost was = *self;
                assert(list[n as int] == neighbor);
                self.link_back(neighbor, l, slot, cap, vectors, host);
                proof {
                    let s0 = neighbor as int;
                    let upto = list.take(n as int);
                    let next = list.take(n + 1);
                    assert(!upto.contains(neighbor)) by {
                        if upto.contains(neighbor) {
                            let j = choose|j: int| 0 <= j < upto.len() && upto[j] == neighbor;
                            assert(list[j] == list[n as int]);
                        }
                    }
                    assert forall|x: usize| next.contains(x) <==> upto.contains(x) || x
                        == neighbor by {
                        if next.contains(x) {
                            let j = choose|j: int| 0 <= j < next.len() && next[j] == x;
                            if j < n {
                                assert(upto[j] == x);
                            }
                        }
                        if upto.contains(x) {
                            let j = choose|j: int| 0 <= j < upto.len() && upto[j] == x;
                            assert(next[j] == x);
                        }
                        assert(next[n as int] == neighbor);
                    }
                    assert(self.linked_to(&was, s0, l as int, slot, cap as int));
                    assert forall|k: int|
                        0 <= k < pushed.nodes@[slot as int].neighbors@.len() implies #[trigger] self.list_at(
                        slot as int,
                        k,
                    ) == pushed.list_at(slot as int, k) by {
                        assert(was.list_at(slot as int, k) == pushed.list_at(slot as int, k));
                        assert(was.nodes@[slot as int].neighbors@.len()
                            == pushed.nodes@[slot as int].neighbors@.len());
                    }
                    assert forall|s: int, k: int|
                        0 <= s < slot && 0 <= k < pushed.nodes@[s].neighbors@.len() implies if k
                        < pushed.nodes@[slot as int].neighbors@.len() && ((k < l && pushed.list_at(
                        slot as int,
                        k,
                    ).contains(s as usize)) || (k == l && pushed.list_at(slot as int, k).take(
                        n + 1,
                    ).contains(s as usize))) {
                        relinked(
                            pushed.list_at(s, k),
                            #[trigger] self.list_at(s, k),
                            slot,
                            self.cap_of(k),
                        )
                    } else {
                        self.list_at(s, k) == pushed.list_at(s, k)
                    } by {
                        assert(was.nodes@[s].neighbors@.len() == pushed.nodes@[s].neighbors@.len());
                        if s == s0 && k == l {
                            assert(was.list_at(s, k) == pushed.list_at(s, k));
                        } else {
                            assert(self.list_at(s, k) == was.list_at(s, k));
                        }
                    }
                }
                n += 1;
            }
            proof {
                assert(list.take(count as int) =~= list);
            }
            l += 1;
        }
        proof {
            lemma_same_nodes_live(pushed, *self);
        }
    }

    /// Whether the graph is `before` with a new node of `id` on `level`.
    /// The node stands in the next slot with one list of neighbours for
    /// each layer up to `level`, chosen as `links_chosen` says. It is the
    /// entry point exactly where it is the first node or lies above the old
    /// entry point. Every older node keeps its id, its mark and its layers,
    /// and its lists are as `linked_from` says: the neighbours of the new
    /// node have it linked in, every other list is as it was.
    pub open spec fn took_node(
        &self,
        before: &HnswIndex,
        id: DocId,
        level: int,
        vectors: Set<DocId>,
    ) -> bool {
        let slot = before.nodes@.len() as int;
        &&& self.nodes@.len() == slot + 1
        &&& self.config == before.config
        &&& self.nodes@[slot].id == id
        &&& !self.nodes@[slot].deleted
        &&& before.links_chosen(self.nodes@[slot].neighbors@, level, vectors)
        &&& self.entry == if slot == 0 || level > before.top_layer() {
            Some(slot as usize)
        } else {
            before.entry
        }
        &&& forall|s: int|
            0 <= s < slot ==> (#[trigger] self.nodes@[s]).id == before.nodes@[s].id
                && self.nodes@[s].deleted == before.nodes@[s].deleted
                && self.nodes@[s].neighbors@.len() == before.nodes@[s].neighbors@.len()
        &&& forall|s: int, l: int|
            0 <= s < slot && 0 <= l < before.nodes@[s].neighbors@.len() ==> if l <= level
                && self.list_at(slot, l).contains(s as usize) {
                relinked(
                    before.list_at(s, l),
                    #[trigger] self.list_at(s, l),
                    slot as usize,
                    self.cap_of(l),
                )
            } else {
                self.list_at(s, l) == before.list_at(s, l)
            }
    }

    /// Whether the graph is `before` with the node of `id`, which it had,
    /// made live again: nothing else has changed.
    pub open spec fn revived(&self, before: &HnswIndex, id: DocId) -> bool {
        &&& self.config == before.config
        &&& self.entry == before.entry
        &&& self.slot_of == before.slot_of
        &&& self.nodes@.len() == before.nodes@.len()
        &&& forall|s: int|
            0 <= s < self.nodes@.len() ==> (#[trigger] self.nodes@[s]).id == before.nodes@[s].id
                && self.nodes@[s].neighbors@.len() == before.nodes@[s].neighbors@.len()
                && self.nodes@[s].deleted == (before.nodes@[s].deleted && before.nodes@[s].id
                != id)
        &&& forall|s: int, l: int|
            0 <= s < self.nodes@.len() && 0 <= l < self.nodes@[s].neighbors@.len()
                ==> #[trigger] self.list_at(s, l) == before.list_at(s, l)
    }

    /// What taking `id` in on `level` makes of the graph `before`: a node
    /// that the graph has is made live again; a graph that is full stays;
    /// else a new node is taken in on `level`, or on the highest layer
    /// there is where `level` lies above it.
    pub open spec fn grew_by(
        &self,
        before: &HnswIndex,
        id: DocId,
        level: usize,
        vectors: Set<DocId>,
    ) -> bool {
        if before.has_node(id) {
            self.revived(before, id)
        } else if before.nodes@.len() == usize::MAX {
            *self == *before
        } else {
            self.took_node(
                before,
                id,
                if level > MAX_LAYER {
                    MAX_LAYER as int
                } else {
                    level as int
                },
                vectors,
            )
        }
    }

    /// Take `id` with its vector into the graph: draw a layer for it, and
    /// take it in on that layer as `insert_at_level` does.
    pub fn insert<H: Host>(
        &mut self,
        id: DocId,
        vector: &QuantizedVector,
        vectors: &HashMap<DocId, QuantizedVector>,
        host: &H,
    )
        requires
            old(self).wf(),
        ensures
            final(self).wf(),
            final(self).config == old(self).config,
            final(self).nodes@.len() == if old(self).has_node(id) || old(self).nodes@.len()
                == usize::MAX {
                old(self).nodes@.len()
            } else {
                old(self).nodes@.len() + 1
            },
            forall|s: int|
                0 <= s < old(self).nodes@.len() ==> (#[trigger] final(self).nodes@[s]).id == old(
                    self,
                ).nodes@[s].id,
            final(self).nodes@.len() > old(self).nodes@.len() ==> final(self).nodes@[old(
                self,
            ).nodes@.len() as int].id == id,
            old(self).nodes@.len() < usize::MAX ==> final(self).has_live(id),
            forall|other: DocId|
                other != id ==> final(self).has_live(other) == old(self).has_live(other),
            old(self).bounded() ==> final(self).bounded(),
            exists|level: usize| #[trigger] final(self).grew_by(old(self), id, level, vectors@.dom()),
    {
        let drawn: usize = host.draw_layer(self.config.ml);
        self.insert_at_level(id, vector, drawn, vectors, host);
    }

    /// Take `id` with its vector into the graph on the layer `level` (on
    /// the highest layer there is, where `level` lies above it): walk
    /// down from the entry point to that layer, and on that layer and every
    /// one below search for candidates, choose neighbours among them, and
    /// link the new node and its neighbours both ways; a neighbour that gets
    /// more links than it may have chooses anew among them. A node on a
    /// higher layer than the entry point becomes the entry point. An id
    /// that the graph knows already only ceases to be a tombstone. Every
    /// node stays in its slot, and a new one takes the next.
    #[verifier::rlimit(30)]
    pub fn insert_at_level<H: Host>(
        &mut self,
        id: DocId,
        vector: &QuantizedVector,
        level: usize,
        vectors: &HashMap<DocId, QuantizedVector>,
        host: &H,
    )
        requires
            old(self).wf(),
        ensures
            final(self).wf(),
            final(self).config == old(self).config,
            final(self).nodes@.len() == if old(self).has_node(id) || old(self).nodes@.len()
                == usize::MAX {
                old(self).nodes@.len()
            } else {
                old(self).nodes@.len() + 1
            },
            forall|s: int|
                0 <= s < old(self).nodes@.len() ==> (#[trigger] final(self).nodes@[s]).id == old(
                    self,
                ).nodes@[s].id,
            final(self).nodes@.len() > old(self).nodes@.len() ==> final(self).nodes@[old(
                self,
            ).nodes@.len() as int].id == id,
            old(self).nodes@.len() < usize::MAX ==> final(self).has_live(id),
            forall|other: DocId|
                other != id ==> final(self).has_live(other) == old(self).has_live(other),
            old(self).bounded() ==> final(self).bounded(),
            final(self).grew_by(old(self), id, level, vectors@.dom()),
    {
        match self.slot_of.get(&id) {
            Some(s) => {
                let slot: usize = *s;
                if slot < self.nodes.len() && self.nodes[slot].id == id {
                    let lists = copy_lists(&self.nodes[slot].neighbors);
                    self.nodes.set(slot, HnswNode { id, neighbors: lists, deleted: false });
                    proof {
                        assert(self.nodes@[slot as int].id == id && !self.nodes@[slot as int].deleted);
                        lemma_live_elsewhere(*old(self), *self, slot as int);
                        assert forall|s: int, l: int|
                            0 <= s < self.nodes@.len() && 0 <= l
                                < self.nodes@[s].neighbors@.len() implies #[trigger] self.list_at(
                            s,
                            l,
                        ) == old(self).list_at(s, l) by {
                            if s != slot {
                                assert(self.nodes@[s] == old(self).nodes@[s]);
                            }
                        }
                        assert forall|s: int| 0 <= s < self.nodes@.len() implies (
                        #[trigger] self.nodes@[s]).id == old(self).nodes@[s].id
                            && self.nodes@[s].neighbors@.len() == old(
                            self,
                        ).nodes@[s].neighbors@.len() && self.nodes@[s].deleted == (old(
                            self,
                        ).nodes@[s].deleted && old(self).nodes@[s].id != id) by {
                            if s != slot {
                                assert(self.nodes@[s] == old(self).nodes@[s]);
                                if old(self).nodes@[s].id == id {
                                    assert(old(self).slot_of@[old(self).nodes@[s].id] == s);
                                }
                            }
                        }
                        if old(self).bounded() {
                            assert forall|s: int, l: int|
                                0 <= s < self.nodes@.len() && 0 <= l
                                    < self.nodes@[s].neighbors@.len() implies (
                            #[trigger] self.list_at(s, l)).len() <= self.cap_of(l) by {
                                assert(self.list_at(s, l) == old(self).list_at(s, l));
                                assert(old(self).list_at(s, l).len() <= old(self).cap_of(l));
                            }
                        }
                    }
                    return;
                }
            },
            None => {},
        }
        proof {
            if old(self).has_node(id) {
                let t = choose|t: int|
                    0 <= t < self.nodes@.len() && (#[trigger] self.nodes@[t]).id == id;
                assert(self.slot_of@[self.nodes@[t].id] == t);
            }
        }
        if self.nodes.len() == usize::MAX {
            return;
        }
        let level: usize = if level > MAX_LAYER { MAX_LAYER } else { level };
        let slot: usize = self.nodes.len();
        let entry = match self.entry {
            Some(e) => e,
            None => {
                let mut lists: Vec<Vec<usize>> = Vec::new();
                let mut l: usize = 0;
                while l <= level
                    invariant
                        l <= level + 1,
                        level <= MAX_LAYER,
                        lists@.len() == l,
                        forall|j: int| 0 <= j < lists@.len() ==> (#[trigger] lists@[j])@.len() == 0,
                    decreases level + 1 - l,
                {
                    lists.push(Vec::new());
                    l += 1;
                }
                self.nodes.push(HnswNode { id, neighbors: lists, deleted: false });
                self.slot_of.insert(id, slot);
                self.entry = Some(slot);
                proof {
                    lemma_pushed(*old(self), *self, id);
                    if old(self).bounded() {
                        self.lemma_bounded_pushed(old(self));
                    }
                }
                return;
            },
        };
        let top: usize = self.layer_of(entry);
        let lists = self.choose_links(vector, entry, level, vectors, host);
        let links = copy_lists(&lists);
        self.nodes.push(HnswNode { id, neighbors: lists, deleted: false });
        self.slot_of.insert(id, slot);
        proof {
            lemma_pushed(*old(self), *self, id);
            if old(self).bounded() {
                self.lemma_bounded_pushed(old(self));
            }
        }
        let ghost pushed = *self;
        self.link_all(slot, &links, vectors, host);
        let ghost linked = *self;
        if level > top {
            self.entry = Some(slot);
        }
        proof {
            lemma_same_nodes_live(pushed, *self);
            if old(self).bounded() {
                assert forall|s: int, l: int|
                    0 <= s < self.nodes@.len() && 0 <= l < self.nodes@[s].neighbors@.len() implies (
                #[trigger] self.list_at(s, l)).len() <= self.cap_of(l) by {
                    assert(linked.list_at(s, l).len() <= linked.cap_of(l));
                }
            }
            assert forall|s: int, l: int|
                0 <= s < slot && 0 <= l < old(self).nodes@[s].neighbors@.len() implies if l <= level
                && self.list_at(slot as int, l).contains(s as usize) {
                relinked(
                    old(self).list_at(s, l),
                    #[trigger] self.list_at(s, l),
                    slot,
                    self.cap_of(l),
                )
            } else {
                self.list_at(s, l) == old(self).list_at(s, l)
            } by {
                assert(pushed.nodes@[s] == old(self).nodes@[s]);
                assert(pushed.list_at(s, l) == old(self).list_at(s, l));
                assert(self.list_at(s, l) == linked.list_at(s, l));
                if l <= level {
                    assert(linked.list_at(slot as int, l) == pushed.list_at(slot as int, l));
                }
            }
            assert forall|l: int| 0 <= l <= level implies #[trigger] self.list_at(slot as int, l)
                == links@[l]@ by {
                assert(linked.list_at(slot as int, l) == pushed.list_at(slot as int, l));
            }
            assert(self.nodes@[slot as int].neighbors@.len() == level + 1);
            assert(old(self).links_chosen(self.nodes@[slot as int].neighbors@, level as int, vectors@.dom())) by {
                let mine = self.nodes@[slot as int].neighbors@;
                assert forall|l: int| 0 <= l < mine.len() implies (#[trigger] mine[l])@ == links@[l]@ by {
                    assert(self.list_at(slot as int, l) == links@[l]@);
                }
            }
        }
    }
}

/// Where one node was replaced by one of the same id, every other id is
/// live as before.
proof fn lemma_live_elsewhere(before: HnswIndex, after: HnswIndex, slot: int)
    requires
        0 <= slot < before.nodes@.len(),
        after.nodes@.len() == before.nodes@.len(),
        after.nodes@[slot].id == before.nodes@[slot].id,
        forall|s: int| 0 <= s < before.nodes@.len() && s != slot ==> after.nodes@[s] == before.nodes@[s],
    ensures
        forall|other: DocId|
            other != before.nodes@[slot].id ==> after.has_live(other) == before.has_live(other),
{
    assert forall|other: DocId| other != before.nodes@[slot].id implies after.has_live(other)
        == before.has_live(other) by {
        if before.has_live(other) {
            let s = choose|s: int|
                0 <= s < before.nodes@.len() && (#[trigger] before.nodes@[s]).id == other
                    && !before.nodes@[s].deleted;
            assert(after.nodes@[s].id == other && !after.nodes@[s].deleted);
        }
        if after.has_live(other) {
            let s = choose|s: int|
                0 <= s < after.nodes@.len() && (#[trigger] after.nodes@[s]).id == other
                    && !after.nodes@[s].deleted;
            assert(before.nodes@[s].id == other && !before.nodes@[s].deleted);
        }
    }
}

/// Where a live node of a new id was pushed and indexed, the graph is well
/// formed, the new id is live, and every other id is live as before.
proof fn lemma_pushed(before: HnswIndex, after: HnswIndex, id: DocId)
    requires
        before.wf(),
        !before.has_node(id),
        after.nodes@.len() == before.nodes@.len() + 1,
        forall|s: int| 0 <= s < before.nodes@.len() ==> after.nodes@[s] == before.nodes@[s],
        after.nodes@[before.nodes@.len() as int].id == id,
        !after.nodes@[before.nodes@.len() as int].deleted,
        after.slot_of@ == before.slot_of@.insert(id, before.nodes@.len() as usize),
        before.nodes@.len() < usize::MAX,
        after.entry_ok(),
    ensures
        after.wf(),
        after.has_live(id),
        forall|other: DocId| other != id ==> after.has_live(other) == before.has_live(other),
{
    let n = before.nodes@.len() as int;
    assert forall|s: int| 0 <= s < after.nodes@.len() implies after.slot_of@.contains_key(
        (#[trigger] after.nodes@[s]).id,
    ) && after.slot_of@[after.nodes@[s].id] == s by {
        if s < n {
            assert(before.nodes@[s].id != id);
        }
    }
    assert(after.nodes@[n].id == id);
    assert forall|other: DocId| other != id implies after.has_live(other) == before.has_live(
        other,
    ) by {
        if before.has_live(other) {
            let s = choose|s: int|
                0 <= s < before.nodes@.len() && (#[trigger] before.nodes@[s]).id == other
                    && !before.nodes@[s].deleted;
            assert(after.nodes@[s].id == other && !after.nodes@[s].deleted);
        }
        if after.has_live(other) {
            let s = choose|s: int|
                0 <= s < after.nodes@.len() && (#[trigger] after.nodes@[s]).id == other
                    && !after.nodes@[s].deleted;
            assert(before.nodes@[s].id == other && !before.nodes@[s].deleted);
        }
    }
}

/// Graphs whose nodes differ in their links only are well formed together
/// and have the same live ids.
proof fn lemma_same_nodes_live(before: HnswIndex, after: HnswIndex)
    requires
        after.nodes@.len() == before.nodes@.len(),
        after.slot_of == before.slot_of,
        forall|s: int|
            0 <= s < after.nodes@.len() ==> (#[trigger] after.nodes@[s]).id == before.nodes@[s].id
                && after.nodes@[s].deleted == before.nodes@[s].deleted,
    ensures
        before.wf() && after.entry_ok() ==> after.wf(),
        forall|id: DocId| after.has_live(id) == before.has_live(id),
{
    assert forall|id: DocId| after.has_live(id) == before.has_live(id) by {
        if before.has_live(id) {
            let s = choose|s: int|
                0 <= s < before.nodes@.len() && (#[trigger] before.nodes@[s]).id == id
                    && !before.nodes@[s].deleted;
            assert(after.nodes@[s].id == id && !after.nodes@[s].deleted);
        }
        if after.has_live(id) {
            let s = choose|s: int|
                0 <= s < after.nodes@.len() && (#[trigger] after.nodes@[s]).id == id
                    && !after.nodes@[s].deleted;
            assert(before.nodes@[s].id == id && !before.nodes@[s].deleted);
        }
    }
    if before.wf() {
        assert forall|s: int| 0 <= s < after.nodes@.len() implies after.slot_of@.contains_key(
            (#[trigger] after.nodes@[s]).id,
        ) && after.slot_of@[after.nodes@[s].id] == s by {
            assert(before.nodes@[s].id == after.nodes@[s].id);
        }
    }
}

/// The hits of a walk are ranked, have no id twice, and are taken from the
/// walk.
proof fn lemma_walk_hits(hits: Seq<Scored>, scan: Seq<Scored>, k: int)
    requires
        distinct_ids(scan),
        is_best_k(hits, scan, k),
    ensures
        distinct_ids(hits),
        forall|i: int| 0 <= i < hits.len() ==> scan.contains(#[trigger] hits[i]),
{
    assert forall|a: int, b: int| 0 <= a < b < hits.len() implies (#[trigger] hits[a]).id != (
    #[trigger] hits[b]).id by {
        assert(scan.contains(hits[a]));
        assert(scan.contains(hits[b]));
        let ja = choose|j: int| 0 <= j < scan.len() && scan[j] == hits[a];
        let jb = choose|j: int| 0 <= j < scan.len() && scan[j] == hits[b];
        assert(crate::index::ranking::ranks_before(hits[a], hits[b]));
        if ja < jb {
            assert(scan[ja].id != scan[jb].id);
        } else if jb < ja {
            assert(scan[jb].id != scan[ja].id);
        }
    }
}

/// A copy of the neighbour lists of a node.
pub fn copy_lists(lists: &Vec<Vec<usize>>) -> (r: Vec<Vec<usize>>)
    ensures
        r@.len() == lists@.len(),
        forall|l: int| 0 <= l < lists@.len() ==> (#[trigger] r@[l])@ == lists@[l]@,
{
    let mut out: Vec<Vec<usize>> = Vec::new();
    let mut l: usize = 0;
    while l < lists.len()
        invariant
            l <= lists.len(),
            out@.len() == l,
            forall|j: int| 0 <= j < l ==> (#[trigger] out@[j])@ == lists@[j]@,
        decreases lists.len() - l,
    {
        let list = lists[l].clone();
        assert(list@ =~= lists@[l as int]@);
        out.push(list);
        l += 1;
    }
    out
}

} // verus!
