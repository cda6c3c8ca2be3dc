//! Figures of a graph: its nodes, tombstones, layers and links.

use vstd::prelude::*;
use crate::index::hnsw::config::HnswStats;
use crate::index::hnsw::graph::HnswIndex;

verus! {

/// A count as far as the machine can hold it.
pub open spec fn capped(n: int) -> usize {
    if n > usize::MAX {
        usize::MAX
    } else if n < 0 {
        0
    } else {
        n as usize
    }
}

impl HnswIndex {
    /// How many of the first `n` nodes are tombstones.
    pub open spec fn tombstones_among(&self, n: int) -> nat
        decreases n,
    {
        if n <= 0 {
            0
        } else {
            self.tombstones_among(n - 1) + if self.nodes@[n - 1].deleted {
                1nat
            } else {
                0nat
            }
        }
    }

    /// The number of layers of the highest of the first `n` nodes.
    pub open spec fn height_among(&self, n: int) -> nat
        decreases n,
    {
        if n <= 0 {
            0
        } else if self.nodes@[n - 1].neighbors@.len() > self.height_among(n - 1) {
            self.nodes@[n - 1].neighbors@.len()
        } else {
            self.height_among(n - 1)
        }
    }

    /// How many of the first `n` nodes lie on layer `l`.
    pub open spec fn on_layer(&self, l: int, n: int) -> nat
        decreases n,
    {
        if n <= 0 {
            0
        } else {
            self.on_layer(l, n - 1) + if self.nodes@[n - 1].neighbors@.len() > l {
                1nat
            } else {
                0nat
            }
        }
    }

    /// How many neighbours the node in slot `s` has on its first `l` layers.
    pub open spec fn links_of(&self, s: int, l: int) -> nat
        decreases l,
    {
        if l <= 0 {
            0
        } else {
            self.links_of(s, l - 1) + self.list_at(s, l - 1).len()
        }
    }

    /// How many neighbours the first `n` nodes have on all their layers.
    pub open spec fn links_among(&self, n: int) -> nat
        decreases n,
    {
        if n <= 0 {
            0
        } else {
            self.links_among(n - 1) + self.links_of(
                n - 1,
                self.nodes@[n - 1].neighbors@.len() as int,
            )
        }
    }

    /// None of the first `n` nodes lies on a layer above their height.
    proof fn lemma_none_above(&self, l: int, n: int)
        requires
            l >= self.height_among(n),
        ensures
            self.on_layer(l, n) == 0,
        decreases n,
    {
        if n > 0 {
            self.lemma_none_above(l, n - 1);
        }
    }

    /// Figures of the graph: its nodes, the tombstones among them, the
    /// highest layer, the nodes on each layer, the links of all nodes, and
    /// the memory they take at 64 bytes a node and 8 bytes a link. A
    /// figure that the machine cannot hold is its largest number.
    pub fn stats(&self) -> (r: HnswStats)
        ensures
            r.total_nodes == self.nodes@.len(),
            r.tombstones == self.tombstones_among(self.nodes@.len() as int),
            r.tombstones <= r.total_nodes,
            r.max_layer == if self.nodes@.len() == 0 {
                None
            } else if self.height_among(self.nodes@.len() as int) == 0 {
                Some(0usize)
            } else {
                Some((self.height_among(self.nodes@.len() as int) - 1) as usize)
            },
            r.layer_sizes@.len() == self.height_among(self.nodes@.len() as int),
            forall|l: int|
                0 <= l < r.layer_sizes@.len() ==> #[trigger] r.layer_sizes@[l] == capped(
                    self.on_layer(l, self.nodes@.len() as int) as int,
                ),
            r.total_connections == capped(self.links_among(self.nodes@.len() as int) as int),
            r.memory_usage_bytes == capped(r.total_nodes * 64 + r.total_connections * 8),
    {
        let mut tombstones: usize = 0;
        let mut connections: usize = 0;
        let mut layer_sizes: Vec<usize> = Vec::new();
        let mut s: usize = 0;
        while s < self.nodes.len()
            invariant
                s <= self.nodes.len(),
                tombstones == self.tombstones_among(s as int),
                tombstones <= s,
                layer_sizes@.len() == self.height_among(s as int),
                forall|j: int|
                    0 <= j < layer_sizes@.len() ==> #[trigger] layer_sizes@[j] == capped(
                        self.on_layer(j, s as int) as int,
                    ),
                connections == capped(self.links_among(s as int) as int),
            decreases self.nodes.len() - s,
        {
            let node = &self.nodes[s];
            if node.deleted {
                tombstones += 1;
            }
            let layers: usize = node.neighbors.len();
            let mut l: usize = 0;
            while l < layers
                invariant
                    l <= layers,
                    s < self.nodes.len(),
                    *node == self.nodes@[s as int],
                    layers == node.neighbors@.len(),
                    layer_sizes@.len() == if self.height_among(s as int) > l {
                        self.height_among(s as int)
                    } else {
                        l as nat
                    },
                    forall|j: int|
                        0 <= j < layer_sizes@.len() ==> #[trigger] layer_sizes@[j] == capped(
                            self.on_layer(j, s as int) + if j < l {
                                1int
                            } else {
                                0int
                            },
                        ),
                    connections == capped(
                        (self.links_among(s as int) + self.links_of(s as int, l as int)) as int,
                    ),
                decreases layers - l,
            {
                if l >= layer_sizes.len() {
                    proof {
                        self.lemma_none_above(l as int, s as int);
                    }
                    layer_sizes.push(0);
                }
                let was: usize = layer_sizes[l];
                layer_sizes.set(l, was.saturating_add(1));
                connections = connections.saturating_add(node.neighbors[l].len());
                l += 1;
            }
            s += 1;
        }
        let node_bytes: usize = match self.nodes.len().checked_mul(64) {
            Some(b) => b,
            None => usize::MAX,
        };
        let link_bytes: usize = match connections.checked_mul(8) {
            Some(b) => b,
            None => usize::MAX,
        };
        let memory_usage_bytes: usize = node_bytes.saturating_add(link_bytes);
        let height: usize = layer_sizes.len();
        HnswStats {
            total_nodes: self.nodes.len(),
            max_layer: if self.nodes.len() == 0 {
                None
            } else if height == 0 {
                Some(0)
            } else {
                Some(height - 1)
            },
            layer_sizes,
            tombstones,
            total_connections: connections,
            memory_usage_bytes,
        }
    }
}

} // verus!
