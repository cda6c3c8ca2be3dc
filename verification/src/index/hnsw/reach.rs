//! Whether the links of the lowest layer join the nodes of a graph.

use vstd::prelude::*;
use crate::index::hnsw::graph::HnswIndex;

verus! {

impl HnswIndex {
    /// Whether the links of layer 0 lead from the node in `start` to every
    /// node of the graph. An answer of yes is sure.
    pub fn reaches_all(&self, start: usize) -> (r: bool)
        requires
            start < self.nodes@.len(),
        ensures
            r ==> forall|b: int|
                0 <= b < self.nodes@.len() ==> #[trigger] self.reaches(0, seq![start], b),
    {
        let n: usize = self.nodes.len();
        let mut visited: Vec<bool> = Vec::new();
        let mut v: usize = 0;
        while v < n
            invariant
                v <= n,
                visited@.len() == v,
                forall|s: int| 0 <= s < v ==> !(#[trigger] visited@[s]),
            decreases n - v,
        {
            visited.push(false);
            v += 1;
        }
        let mut stack: Vec<usize> = Vec::new();
        visited.set(start, true);
        stack.push(start);
        let mut left: usize = n - 1;
        proof {
            assert(seq![start][0] == start);
            assert(self.reached_in(0, seq![start], start as int, 0));
        }
        while stack.len() > 0
            invariant
                n == self.nodes@.len(),
                start < n,
                visited@.len() == n,
                forall|s: int|
                    0 <= s < n && (#[trigger] visited@[s]) ==> self.reaches(0, seq![start], s),
                forall|j: int| 0 <= j < stack@.len() ==> (#[trigger] stack@[j]) < n,
                forall|j: int| 0 <= j < stack@.len() ==> visited@[(#[trigger] stack@[j]) as int],
            decreases left, stack@.len(),
        {
            let ghost left_then = left;
            let a: usize = stack[stack.len() - 1];
            stack.truncate(stack.len() - 1);
            let ghost height = stack@.len();
            if self.nodes[a].neighbors.len() > 0 {
                let count: usize = self.nodes[a].neighbors[0].len();
                let mut i: usize = 0;
                while i < count
                    invariant
                        i <= count,
                        n == self.nodes@.len(),
                        start < n,
                        a < n,
                        visited@[a as int],
                        self.nodes@[a as int].neighbors@.len() > 0,
                        count == self.list_at(a as int, 0).len(),
                        visited@.len() == n,
                        forall|s: int|
                            0 <= s < n && (#[trigger] visited@[s]) ==> self.reaches(
                                0,
                                seq![start],
                                s,
                            ),
                        forall|j: int| 0 <= j < stack@.len() ==> (#[trigger] stack@[j]) < n,
                        forall|j: int|
                            0 <= j < stack@.len() ==> visited@[(#[trigger] stack@[j]) as int],
                        left <= left_then,
                        left == left_then ==> stack@.len() == height,
                    decreases count - i,
                {
                    let b: usize = self.nodes[a].neighbors[0][i];
                    if b < n && !visited[b] && left > 0 {
                        proof {
                            assert(self.reaches(0, seq![start], a as int));
                            let steps = choose|steps: nat|
                                self.reached_in(0, seq![start], a as int, steps);
                            assert(self.list_at(a as int, 0)[i as int] == b);
                            assert(self.edge(0, a as int, b as int));
                            assert(self.reached_in(0, seq![start], b as int, steps + 1));
                        }
                        let ghost marks = visited@;
                        let ghost held = stack@;
                        visited.set(b, true);
                        stack.push(b);
                        left -= 1;
                        proof {
                            assert forall|j: int| 0 <= j < stack@.len() implies (
                            #[trigger] stack@[j]) < n && visited@[stack@[j] as int] by {
                                if j < held.len() {
                                    assert(stack@[j] == held[j]);
                                    assert(marks[held[j] as int]);
                                }
                            }
                        }
                    }
                    i += 1;
                }
            }
        }
        let mut s: usize = 0;
        while s < n
            invariant
                s <= n,
                n == self.nodes@.len(),
                visited@.len() == n,
                forall|t: int|
                    0 <= t < n && (#[trigger] visited@[t]) ==> self.reaches(0, seq![start], t),
                forall|t: int| 0 <= t < s ==> #[trigger] visited@[t],
            decreases n - s,
        {
            if !visited[s] {
                return false;
            }
            s += 1;
        }
        proof {
            assert forall|b: int| 0 <= b < self.nodes@.len() implies #[trigger] self.reaches(
                0,
                seq![start],
                b,
            ) by {
                assert(visited@[b]);
            }
        }
        true
    }

    /// Whether the links of layer 0 lead from every node to every node. An
    /// answer of yes is sure.
    pub fn is_joined(&self) -> (r: bool)
        ensures
            r ==> self.joined(),
    {
        let mut a: usize = 0;
        while a < self.nodes.len()
            invariant
                a <= self.nodes@.len(),
                forall|x: usize, b: int|
                    x < a && 0 <= b < self.nodes@.len() ==> #[trigger] self.reaches(0, seq![x], b),
            decreases self.nodes@.len() - a,
        {
            if !self.reaches_all(a) {
                return false;
            }
            a += 1;
        }
        true
    }
}

} // verus!
