//! The snapshot of a graph: its entry point and its nodes with their links
//! and their tombstones, so that a graph that is loaded again searches as
//! the one that was saved.
//!
//! The snapshot holds whether there is an entry point and which, the number
//! of nodes, and for each node its id, whether it is a tombstone, the number
//! of its layers and, for each layer, the slots of its neighbours behind
//! their number. All numbers take eight bytes, little-endian; an id takes
//! sixteen.

use std::collections::HashMap;
use vstd::prelude::*;
use crate::index::hnsw::config::HnswConfig;
use crate::index::hnsw::graph::{HnswIndex, HnswNode};
use crate::storage::wire::{
    enc_u128, enc_u64, enc_u8, lemma_parse_u128, lemma_parse_u64, lemma_parse_u8, parse_u128,
    parse_u64, parse_u8, put_u128, put_u64, put_u8, take_u128, take_u64, take_u8,
};
use crate::DocId;

verus! {

broadcast use vstd::std_specs::hash::group_hash_axioms;

/// What a node holds.
pub struct NodeView {
    pub id: DocId,
    pub neighbors: Seq<Seq<usize>>,
    pub deleted: bool,
}

/// What a graph holds, but for its configuration.
pub struct GraphView {
    pub entry: Option<usize>,
    pub nodes: Seq<NodeView>,
}

impl View for HnswNode {
    type V = NodeView;

    open spec fn view(&self) -> NodeView {
        NodeView {
            id: self.id,
            neighbors: Seq::new(self.neighbors@.len(), |l: int| self.neighbors@[l]@),
            deleted: self.deleted,
        }
    }
}

impl View for HnswIndex {
    type V = GraphView;

    open spec fn view(&self) -> GraphView {
        GraphView { entry: self.entry, nodes: Seq::new(self.nodes@.len(), |s: int| self.nodes@[s]@) }
    }
}

pub open spec fn enc_slots(slots: Seq<usize>) -> Seq<u8>
    decreases slots.len(),
{
    if slots.len() == 0 {
        Seq::<u8>::empty()
    } else {
        enc_slots(slots.drop_last()) + enc_u64(slots.last() as u64)
    }
}

pub open spec fn enc_list(slots: Seq<usize>) -> Seq<u8> {
    enc_u64(slots.len() as u64) + enc_slots(slots)
}

pub open spec fn enc_lists(lists: Seq<Seq<usize>>) -> Seq<u8>
    decreases lists.len(),
{
    if lists.len() == 0 {
        Seq::<u8>::empty()
    } else {
        enc_lists(lists.drop_last()) + enc_list(lists.last())
    }
}

pub open spec fn enc_flag(b: bool) -> Seq<u8> {
    enc_u8(if b { 1u8 } else { 0u8 })
}

pub open spec fn enc_node(n: NodeView) -> Seq<u8> {
    enc_u128(n.id) + enc_flag(n.deleted) + enc_u64(n.neighbors.len() as u64) + enc_lists(n.neighbors)
}

pub open spec fn enc_nodes(nodes: Seq<NodeView>) -> Seq<u8>
    decreases nodes.len(),
{
    if nodes.len() == 0 {
        Seq::<u8>::empty()
    } else {
        enc_nodes(nodes.drop_last()) + enc_node(nodes.last())
    }
}

/// The snapshot of a graph.
pub open spec fn enc_graph(g: GraphView) -> Seq<u8> {
    enc_flag(g.entry is Some) + enc_u64(
        match g.entry {
            Some(e) => e as u64,
            None => 0,
        },
    ) + enc_u64(g.nodes.len() as u64) + enc_nodes(g.nodes)
}

pub open spec fn parse_slots(b: Seq<u8>, pos: int, n: nat) -> Option<(Seq<usize>, int)>
    decreases n,
{
    if n == 0 {
        Some((Seq::<usize>::empty(), pos))
    } else {
        match parse_slots(b, pos, (n - 1) as nat) {
            Some((slots, p)) => match parse_u64(b, p) {
                Some((x, q)) => if x <= usize::MAX {
                    Some((slots.push(x as usize), q))
                } else {
                    None
                },
                None => None,
            },
            None => None,
        }
    }
}

pub open spec fn parse_list(b: Seq<u8>, pos: int) -> Option<(Seq<usize>, int)> {
    match parse_u64(b, pos) {
        Some((n, p)) => parse_slots(b, p, n as nat),
        None => None,
    }
}

pub open spec fn parse_lists(b: Seq<u8>, pos: int, n: nat) -> Option<(Seq<Seq<usize>>, int)>
    decreases n,
{
    if n == 0 {
        Some((Seq::<Seq<usize>>::empty(), pos))
    } else {
        match parse_lists(b, pos, (n - 1) as nat) {
            Some((lists, p)) => match parse_list(b, p) {
                Some((x, q)) => Some((lists.push(x), q)),
                None => None,
            },
            None => None,
        }
    }
}

pub open spec fn parse_flag(b: Seq<u8>, pos: int) -> Option<(bool, int)> {
    match parse_u8(b, pos) {
        Some((x, p)) => if x == 0 {
            Some((false, p))
        } else if x == 1 {
            Some((true, p))
        } else {
            None
        },
        None => None,
    }
}

pub open spec fn parse_node(b: Seq<u8>, pos: int) -> Option<(NodeView, int)> {
    match parse_u128(b, pos) {
        Some((id, p)) => match parse_flag(b, p) {
            Some((deleted, q)) => match parse_u64(b, q) {
                Some((layers, r)) => match parse_lists(b, r, layers as nat) {
                    Some((neighbors, t)) => Some((NodeView { id, neighbors, deleted }, t)),
                    None => None,
                },
                None => None,
            },
            None => None,
        },
        None => None,
    }
}

pub open spec fn parse_nodes(b: Seq<u8>, pos: int, n: nat) -> Option<(Seq<NodeView>, int)>
    decreases n,
{
    if n == 0 {
        Some((Seq::<NodeView>::empty(), pos))
    } else {
        match parse_nodes(b, pos, (n - 1) as nat) {
            Some((nodes, p)) => match parse_node(b, p) {
                Some((x, q)) => Some((nodes.push(x), q)),
                None => None,
            },
            None => None,
        }
    }
}

/// Whether no two nodes stand for one id.
pub open spec fn node_ids_distinct(nodes: Seq<NodeView>) -> bool {
    forall|i: int, j: int|
        0 <= i < j < nodes.len() ==> (#[trigger] nodes[i]).id != (#[trigger] nodes[j]).id
}

/// The graph that `b` is the snapshot of: `b` holds an entry point that is
/// there exactly where the flag says so and is one of the nodes, nodes of
/// which no two stand for one id, and nothing behind them. Only a graph
/// without nodes has no entry point.
pub open spec fn graph_decoded(b: Seq<u8>) -> Option<GraphView> {
    match parse_flag(b, 0) {
        Some((has_entry, p)) => match parse_u64(b, p) {
            Some((entry, q)) => match parse_u64(b, q) {
                Some((count, r)) => match parse_nodes(b, r, count as nat) {
                    Some((nodes, end)) => if end == b.len() && entry <= usize::MAX && (if has_entry {
                        entry < nodes.len()
                    } else {
                        entry == 0 && nodes.len() == 0
                    }) && node_ids_distinct(nodes) {
                        Some(
                            GraphView {
                                entry: if has_entry {
                                    Some(entry as usize)
                                } else {
                                    None
                                },
                                nodes,
                            },
                        )
                    } else {
                        None
                    },
                    None => None,
                },
                None => None,
            },
            None => None,
        },
        None => None,
    }
}

proof fn lemma_parse_flag(p: Seq<u8>, x: bool, s: Seq<u8>)
    ensures
        enc_flag(x).len() == 1,
        parse_flag(p + enc_flag(x) + s, p.len() as int) == Some((x, p.len() as int + 1)),
{
    lemma_parse_u8(p, if x { 1u8 } else { 0u8 }, s);
}

proof fn lemma_parse_slots(p: Seq<u8>, xs: Seq<usize>, s: Seq<u8>)
    ensures
        parse_slots(p + enc_slots(xs) + s, p.len() as int, xs.len()) == Some(
            (xs, p.len() as int + enc_slots(xs).len()),
        ),
    decreases xs.len(),
{
    let b = p + enc_slots(xs) + s;
    if xs.len() == 0 {
        assert(xs =~= Seq::<usize>::empty());
    } else {
        let init = xs.drop_last();
        let last = xs.last();
        lemma_parse_slots(p, init, enc_u64(last as u64) + s);
        assert(b =~= p + enc_slots(init) + (enc_u64(last as u64) + s));
        lemma_parse_u64(p + enc_slots(init), last as u64, s);
        assert(b =~= (p + enc_slots(init)) + enc_u64(last as u64) + s);
        assert(init.push(last) =~= xs);
    }
}

proof fn lemma_parse_list(p: Seq<u8>, xs: Seq<usize>, s: Seq<u8>)
    requires
        xs.len() <= u64::MAX,
    ensures
        parse_list(p + enc_list(xs) + s, p.len() as int) == Some(
            (xs, p.len() as int + enc_list(xs).len()),
        ),
{
    let b = p + enc_list(xs) + s;
    let n = xs.len() as u64;
    lemma_parse_u64(p, n, enc_slots(xs) + s);
    assert(b =~= p + enc_u64(n) + (enc_slots(xs) + s));
    lemma_parse_slots(p + enc_u64(n), xs, s);
    assert(b =~= (p + enc_u64(n)) + enc_slots(xs) + s);
}

/// Whether every list is short enough for its length to be written.
pub open spec fn lists_encodable(lists: Seq<Seq<usize>>) -> bool {
    forall|l: int| 0 <= l < lists.len() ==> (#[trigger] lists[l]).len() <= u64::MAX
}

proof fn lemma_parse_lists(p: Seq<u8>, xs: Seq<Seq<usize>>, s: Seq<u8>)
    requires
        lists_encodable(xs),
    ensures
        parse_lists(p + enc_lists(xs) + s, p.len() as int, xs.len()) == Some(
            (xs, p.len() as int + enc_lists(xs).len()),
        ),
    decreases xs.len(),
{
    let b = p + enc_lists(xs) + s;
    if xs.len() == 0 {
        assert(xs =~= Seq::<Seq<usize>>::empty());
    } else {
        let init = xs.drop_last();
        let last = xs.last();
        assert(lists_encodable(init)) by {
            assert forall|l: int| 0 <= l < init.len() implies (#[trigger] init[l]).len()
                <= u64::MAX by {
                assert(init[l] == xs[l]);
            }
        }
        assert(last == xs[xs.len() - 1]);
        lemma_parse_lists(p, init, enc_list(last) + s);
        assert(b =~= p + enc_lists(init) + (enc_list(last) + s));
        lemma_parse_list(p + enc_lists(init), last, s);
        assert(b =~= (p + enc_lists(init)) + enc_list(last) + s);
        assert(init.push(last) =~= xs);
    }
}

/// Whether the numbers of layers and of neighbours of a node can be
/// written.
pub open spec fn node_encodable(n: NodeView) -> bool {
    n.neighbors.len() <= u64::MAX && lists_encodable(n.neighbors)
}

pub open spec fn nodes_encodable(nodes: Seq<NodeView>) -> bool {
    forall|i: int| 0 <= i < nodes.len() ==> node_encodable(#[trigger] nodes[i])
}

proof fn lemma_parse_node(p: Seq<u8>, x: NodeView, s: Seq<u8>)
    requires
        node_encodable(x),
    ensures
        parse_node(p + enc_node(x) + s, p.len() as int) == Some(
            (x, p.len() as int + enc_node(x).len()),
        ),
{
    let b = p + enc_node(x) + s;
    let e1 = enc_u128(x.id);
    let e2 = enc_flag(x.deleted);
    let e3 = enc_u64(x.neighbors.len() as u64);
    let e4 = enc_lists(x.neighbors);
    lemma_parse_u128(p, x.id, e2 + e3 + e4 + s);
    assert(b =~= p + e1 + (e2 + e3 + e4 + s));
    lemma_parse_flag(p + e1, x.deleted, e3 + e4 + s);
    assert(b =~= (p + e1) + e2 + (e3 + e4 + s));
    lemma_parse_u64(p + e1 + e2, x.neighbors.len() as u64, e4 + s);
    assert(b =~= (p + e1 + e2) + e3 + (e4 + s));
    lemma_parse_lists(p + e1 + e2 + e3, x.neighbors, s);
    assert(b =~= (p + e1 + e2 + e3) + e4 + s);
}

proof fn lemma_parse_nodes(p: Seq<u8>, xs: Seq<NodeView>, s: Seq<u8>)
    requires
        nodes_encodable(xs),
    ensures
        parse_nodes(p + enc_nodes(xs) + s, p.len() as int, xs.len()) == Some(
            (xs, p.len() as int + enc_nodes(xs).len()),
        ),
    decreases xs.len(),
{
    let b = p + enc_nodes(xs) + s;
    if xs.len() == 0 {
        assert(xs =~= Seq::<NodeView>::empty());
    } else {
        let init = xs.drop_last();
        let last = xs.last();
        assert(nodes_encodable(init)) by {
            assert forall|i: int| 0 <= i < init.len() implies node_encodable(#[trigger] init[i]) by {
                assert(init[i] == xs[i]);
            }
        }
        assert(last == xs[xs.len() - 1]);
        lemma_parse_nodes(p, init, enc_node(last) + s);
        assert(b =~= p + enc_nodes(init) + (enc_node(last) + s));
        lemma_parse_node(p + enc_nodes(init), last, s);
        assert(b =~= (p + enc_nodes(init)) + enc_node(last) + s);
        assert(init.push(last) =~= xs);
    }
}

/// The snapshot of a graph decodes to that graph.
pub proof fn lemma_graph_round_trip(g: GraphView)
    requires
        g.nodes.len() <= u64::MAX,
        nodes_encodable(g.nodes),
        node_ids_distinct(g.nodes),
        match g.entry {
            Some(e) => e < g.nodes.len(),
            None => g.nodes.len() == 0,
        },
    ensures
        graph_decoded(enc_graph(g)) == Some(g),
{
    let b = enc_graph(g);
    let none = Seq::<u8>::empty();
    let entry: u64 = match g.entry {
        Some(e) => e as u64,
        None => 0,
    };
    let e1 = enc_flag(g.entry is Some);
    let e2 = enc_u64(entry);
    let e3 = enc_u64(g.nodes.len() as u64);
    let e4 = enc_nodes(g.nodes);
    lemma_parse_flag(none, g.entry is Some, e2 + e3 + e4);
    assert(b =~= none + e1 + (e2 + e3 + e4));
    lemma_parse_u64(e1, entry, e3 + e4);
    assert(b =~= e1 + e2 + (e3 + e4));
    lemma_parse_u64(e1 + e2, g.nodes.len() as u64, e4);
    assert(b =~= (e1 + e2) + e3 + e4);
    lemma_parse_nodes(e1 + e2 + e3, g.nodes, none);
    assert(b =~= (e1 + e2 + e3) + e4 + none);
}

proof fn lemma_parse_slots_stuck(b: Seq<u8>, pos: int, k: nat, n: nat)
    requires
        k <= n,
        parse_slots(b, pos, k) is None,
    ensures
        parse_slots(b, pos, n) is None,
    decreases n,
{
    if k < n {
        lemma_parse_slots_stuck(b, pos, k, (n - 1) as nat);
    }
}

proof fn lemma_parse_lists_stuck(b: Seq<u8>, pos: int, k: nat, n: nat)
    requires
        k <= n,
        parse_lists(b, pos, k) is None,
    ensures
        parse_lists(b, pos, n) is None,
    decreases n,
{
    if k < n {
        lemma_parse_lists_stuck(b, pos, k, (n - 1) as nat);
    }
}

proof fn lemma_parse_nodes_stuck(b: Seq<u8>, pos: int, k: nat, n: nat)
    requires
        k <= n,
        parse_nodes(b, pos, k) is None,
    ensures
        parse_nodes(b, pos, n) is None,
    decreases n,
{
    if k < n {
        lemma_parse_nodes_stuck(b, pos, k, (n - 1) as nat);
    }
}

fn put_flag(buf: &mut Vec<u8>, x: bool)
    ensures
        final(buf)@ == old(buf)@ + enc_flag(x),
{
    put_u8(buf, if x { 1u8 } else { 0u8 });
}

fn put_list(buf: &mut Vec<u8>, list: &Vec<usize>)
    ensures
        final(buf)@ == old(buf)@ + enc_list(list@),
{
    let ghost base = buf@;
    put_u64(buf, list.len() as u64);
    let ghost head = buf@;
    let mut i: usize = 0;
    assert(list@.take(0) =~= Seq::<usize>::empty());
    assert(buf@ =~= head + enc_slots(list@.take(0)));
    while i < list.len()
        invariant
            i <= list.len(),
            buf@ == head + enc_slots(list@.take(i as int)),
        decreases list.len() - i,
    {
        put_u64(buf, list[i] as u64);
        proof {
            let next = list@.take(i + 1);
            assert(next.drop_last() =~= list@.take(i as int));
            assert(next.last() == list@[i as int]);
            assert(buf@ =~= head + enc_slots(next));
        }
        i += 1;
    }
    assert(list@.take(list.len() as int) =~= list@);
    assert(buf@ =~= base + enc_list(list@));
}

fn put_node(buf: &mut Vec<u8>, node: &HnswNode)
    ensures
        final(buf)@ == old(buf)@ + enc_node(node@),
        node_encodable(node@),
{
    let ghost base = buf@;
    let ghost lists = node@.neighbors;
    put_u128(buf, node.id);
    put_flag(buf, node.deleted);
    put_u64(buf, node.neighbors.len() as u64);
    let ghost head = buf@;
    let mut l: usize = 0;
    assert(lists.take(0) =~= Seq::<Seq<usize>>::empty());
    assert(buf@ =~= head + enc_lists(lists.take(0)));
    while l < node.neighbors.len()
        invariant
            l <= node.neighbors.len(),
            lists == node@.neighbors,
            buf@ == head + enc_lists(lists.take(l as int)),
            forall|j: int| 0 <= j < l ==> (#[trigger] lists[j]).len() <= u64::MAX,
        decreases node.neighbors.len() - l,
    {
        let count: usize = node.neighbors[l].len();
        put_list(buf, &node.neighbors[l]);
        proof {
            let next = lists.take(l + 1);
            assert(next.drop_last() =~= lists.take(l as int));
            assert(next.last() == node.neighbors@[l as int]@);
            assert(buf@ =~= head + enc_lists(next));
            assert(node.neighbors@[l as int]@.len() <= usize::MAX);
        }
        l += 1;
    }
    assert(lists.take(node.neighbors.len() as int) =~= lists);
    assert(buf@ =~= base + enc_node(node@));
}

fn take_flag(b: &[u8], pos: usize) -> (r: Option<(bool, usize)>)
    ensures
        match r {
            Some((x, next)) => parse_flag(b@, pos as int) == Some((x, next as int)),
            None => parse_flag(b@, pos as int) is None,
        },
{
    match take_u8(b, pos) {
        Some((x, next)) => if x == 0 {
            Some((false, next))
        } else if x == 1 {
            Some((true, next))
        } else {
            None
        },
        None => None,
    }
}

fn take_list(b: &[u8], pos: usize) -> (r: Option<(Vec<usize>, usize)>)
    ensures
        match r {
            Some((x, next)) => parse_list(b@, pos as int) == Some((x@, next as int)),
            None => parse_list(b@, pos as int) is None,
        },
{
    let (n, start) = match take_u64(b, pos) {
        Some(t) => t,
        None => { return None; },
    };
    let mut out: Vec<usize> = Vec::new();
    let mut p: usize = start;
    let mut i: u64 = 0;
    while i < n
        invariant
            i <= n,
            parse_u64(b@, pos as int) == Some((n, start as int)),
            parse_slots(b@, start as int, i as nat) == Some((out@, p as int)),
        decreases n - i,
    {
        match take_u64(b, p) {
            Some((x, q)) => {
                if x > usize::MAX as u64 {
                    proof {
                        assert(parse_slots(b@, start as int, (i + 1) as nat) is None);
                        lemma_parse_slots_stuck(b@, start as int, (i + 1) as nat, n as nat);
                    }
                    return None;
                }
                out.push(x as usize);
                p = q;
            },
            None => {
                proof {
                    assert(parse_slots(b@, start as int, (i + 1) as nat) is None);
                    lemma_parse_slots_stuck(b@, start as int, (i + 1) as nat, n as nat);
                }
                return None;
            },
        }
        i += 1;
    }
    Some((out, p))
}

fn take_node(b: &[u8], pos: usize) -> (r: Option<(HnswNode, usize)>)
    ensures
        match r {
            Some((x, next)) => parse_node(b@, pos as int) == Some((x@, next as int)),
            None => parse_node(b@, pos as int) is None,
        },
{
    let (id, p) = match take_u128(b, pos) {
        Some(t) => t,
        None => { return None; },
    };
    let (deleted, q) = match take_flag(b, p) {
        Some(t) => t,
        None => { return None; },
    };
    let (layers, start) = match take_u64(b, q) {
        Some(t) => t,
        None => { return None; },
    };
    let mut lists: Vec<Vec<usize>> = Vec::new();
    let ghost mut views: Seq<Seq<usize>> = Seq::empty();
    let mut at: usize = start;
    let mut l: u64 = 0;
    while l < layers
        invariant
            l <= layers,
            parse_u128(b@, pos as int) == Some((id, p as int)),
            parse_flag(b@, p as int) == Some((deleted, q as int)),
            parse_u64(b@, q as int) == Some((layers, start as int)),
            parse_lists(b@, start as int, l as nat) == Some((views, at as int)),
            views.len() == lists@.len(),
            forall|j: int| 0 <= j < lists@.len() ==> views[j] == (#[trigger] lists@[j])@,
        decreases layers - l,
    {
        match take_list(b, at) {
            Some((list, next)) => {
                proof {
                    views = views.push(list@);
                }
                lists.push(list);
                at = next;
            },
            None => {
                proof {
                    assert(parse_lists(b@, start as int, (l + 1) as nat) is None);
                    lemma_parse_lists_stuck(b@, start as int, (l + 1) as nat, layers as nat);
                }
                return None;
            },
        }
        l += 1;
    }
    let node = HnswNode { id, neighbors: lists, deleted };
    assert(node@.neighbors =~= views);
    Some((node, at))
}

impl HnswIndex {
    /// The snapshot of the graph.
    pub fn encode(&self) -> (r: Vec<u8>)
        requires
            self.wf(),
        ensures
            graph_decoded(r@) == Some(self@),
    {
        let ghost g = self@;
        let mut buf: Vec<u8> = Vec::new();
        put_flag(&mut buf, self.entry.is_some());
        put_u64(
            &mut buf,
            match self.entry {
                Some(e) => e as u64,
                None => 0,
            },
        );
        put_u64(&mut buf, self.nodes.len() as u64);
        let ghost head = buf@;
        let mut s: usize = 0;
        assert(g.nodes.take(0) =~= Seq::<NodeView>::empty());
        assert(buf@ =~= head + enc_nodes(g.nodes.take(0)));
        while s < self.nodes.len()
            invariant
                s <= self.nodes.len(),
                g == self@,
                buf@ == head + enc_nodes(g.nodes.take(s as int)),
                forall|j: int| 0 <= j < s ==> node_encodable(#[trigger] g.nodes[j]),
            decreases self.nodes.len() - s,
        {
            put_node(&mut buf, &self.nodes[s]);
            proof {
                let next = g.nodes.take(s + 1);
                assert(next.drop_last() =~= g.nodes.take(s as int));
                assert(next.last() == self.nodes@[s as int]@);
                assert(buf@ =~= head + enc_nodes(next));
            }
            s += 1;
        }
        proof {
            assert(g.nodes.take(self.nodes.len() as int) =~= g.nodes);
            assert(buf@ =~= enc_graph(g));
            assert(node_ids_distinct(g.nodes)) by {
                assert forall|i: int, j: int| 0 <= i < j < g.nodes.len() implies (
                #[trigger] g.nodes[i]).id != (#[trigger] g.nodes[j]).id by {
                    assert(self.slot_of@[self.nodes@[i].id] == i);
                    assert(self.slot_of@[self.nodes@[j].id] == j);
                }
            }
            lemma_graph_round_trip(g);
        }
        buf
    }

    /// The graph that a snapshot holds, under the given configuration, or
    /// nothing where the bytes are not the snapshot of a graph.
    pub fn decode(config: HnswConfig, b: &[u8]) -> (r: Option<HnswIndex>)
        ensures
            match r {
                Some(g) => g.wf() && g.config == config && graph_decoded(b@) == Some(g@),
                None => graph_decoded(b@) is None,
            },
    {
        let (has_entry, p) = match take_flag(b, 0) {
            Some(t) => t,
            None => { return None; },
        };
        let (entry, q) = match take_u64(b, p) {
            Some(t) => t,
            None => { return None; },
        };
        let (count, start) = match take_u64(b, q) {
            Some(t) => t,
            None => { return None; },
        };
        let mut nodes: Vec<HnswNode> = Vec::new();
        let mut slot_of: HashMap<DocId, usize> = HashMap::new();
        let ghost mut views: Seq<NodeView> = Seq::empty();
        let mut at: usize = start;
        let mut i: u64 = 0;
        let mut distinct: bool = true;
        while i < count
            invariant
                i <= count,
                parse_flag(b@, 0) == Some((has_entry, p as int)),
                parse_u64(b@, p as int) == Some((entry, q as int)),
                parse_u64(b@, q as int) == Some((count, start as int)),
                parse_nodes(b@, start as int, i as nat) == Some((views, at as int)),
                views.len() == nodes@.len(),
                nodes@.len() == i,
                forall|j: int| 0 <= j < nodes@.len() ==> views[j] == (#[trigger] nodes@[j])@,
                distinct ==> node_ids_distinct(views),
                !distinct ==> !node_ids_distinct(views),
                distinct ==> forall|j: int|
                    0 <= j < nodes@.len() ==> slot_of@.contains_key((#[trigger] nodes@[j]).id)
                        && slot_of@[nodes@[j].id] == j,
                distinct ==> forall|id: DocId|
                    slot_of@.contains_key(id) ==> exists|j: int|
                        0 <= j < nodes@.len() && (#[trigger] nodes@[j]).id == id,
            decreases count - i,
        {
            match take_node(b, at) {
                Some((node, next)) => {
                    let ghost before = views;
                    let ghost known = slot_of@;
                    let slot: usize = nodes.len();
                    let id = node.id;
                    let seen = slot_of.insert(id, slot);
                    proof {
                        views = views.push(node@);
                        let j = nodes@.len() as int;
                        assert(views[j].id == id);
                        if !distinct {
                            let (a, c) = choose|a: int, c: int|
                                0 <= a < c < before.len() && (#[trigger] before[a]).id == (
                                #[trigger] before[c]).id;
                            assert(views[a] == before[a] && views[c] == before[c]);
                        } else if seen is Some {
                            let k = choose|k: int|
                                0 <= k < nodes@.len() && (#[trigger] nodes@[k]).id == id;
                            assert(views[k] == before[k]);
                            assert(views[k].id == views[j].id);
                        } else {
                            assert forall|a: int, c: int| 0 <= a < c < views.len() implies (
                            #[trigger] views[a]).id != (#[trigger] views[c]).id by {
                                if c == j {
                                    assert(views[a] == before[a]);
                                    assert(known.contains_key(nodes@[a].id));
                                } else {
                                    assert(views[a] == before[a] && views[c] == before[c]);
                                }
                            }
                        }
                    }
                    if seen.is_some() {
                        distinct = false;
                    }
                    let ghost earlier = nodes@;
                    nodes.push(node);
                    at = next;
                    proof {
                        if distinct {
                            assert forall|x: DocId| slot_of@.contains_key(x) implies exists|j: int|
                                0 <= j < nodes@.len() && (#[trigger] nodes@[j]).id == x by {
                                if x == id {
                                    assert(nodes@[slot as int].id == x);
                                } else {
                                    let j = choose|j: int|
                                        0 <= j < earlier.len() && (#[trigger] earlier[j]).id == x;
                                    assert(nodes@[j] == earlier[j]);
                                }
                            }
                            assert forall|j: int| 0 <= j < nodes@.len() implies slot_of@.contains_key(
                                (#[trigger] nodes@[j]).id,
                            ) && slot_of@[nodes@[j].id] == j by {
                                if j < earlier.len() {
                                    assert(nodes@[j] == earlier[j]);
                                    assert(views[j].id != views[slot as int].id);
                                }
                            }
                        }
                        assert forall|j: int| 0 <= j < nodes@.len() implies views[j] == (
                        #[trigger] nodes@[j])@ by {
                            if j < earlier.len() {
                                assert(nodes@[j] == earlier[j]);
                            }
                        }
                    }
                },
                None => {
                    proof {
                        assert(parse_nodes(b@, start as int, (i + 1) as nat) is None);
                        lemma_parse_nodes_stuck(b@, start as int, (i + 1) as nat, count as nat);
                    }
                    return None;
                },
            }
            i += 1;
        }
        let placed: bool = if has_entry {
            entry < nodes.len() as u64
        } else {
            entry == 0 && nodes.len() == 0
        };
        if at != b.len() || entry > usize::MAX as u64 || !placed || !distinct {
            return None;
        }
        let g = HnswIndex {
            config,
            nodes,
            slot_of,
            entry: if has_entry {
                Some(entry as usize)
            } else {
                None
            },
        };
        assert(g@.nodes =~= views);
        Some(g)
    }
}

} // verus!
