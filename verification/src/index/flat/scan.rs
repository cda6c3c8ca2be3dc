//! The flat index keeps no structure of its own: a search looks at every
//! live vector.

use std::collections::HashMap;
use vstd::prelude::*;
use crate::host::{probe_similarity, Host, Probe};
use crate::index::flat::config::FlatConfig;
use crate::index::ranking::{distinct_ids, is_best_k, top_k, Scored};
use crate::quantization::QuantizedVector;
use crate::DocId;

verus! {

#[derive(Debug, Clone, Copy, PartialEq, Eq, Structural)]
pub struct FlatIndex {
    pub config: FlatConfig,
}

impl FlatIndex {
    pub fn new(config: FlatConfig) -> (r: Self)
        ensures
            r.config == config,
    {
        FlatIndex { config }
    }
}


broadcast use vstd::std_specs::hash::group_hash_axioms;

/// Whether `scan` holds, each once, exactly those of `ids` that have a
/// vector.
pub open spec fn scans(scan: Seq<Scored>, ids: Seq<DocId>, vectors: Set<DocId>) -> bool {
    &&& distinct_ids(scan)
    &&& forall|i: int|
        0 <= i < scan.len() ==> ids.contains((#[trigger] scan[i]).id) && vectors.contains(scan[i].id)
    &&& forall|j: int|
        0 <= j < ids.len() && vectors.contains(#[trigger] ids[j]) ==> exists|i: int|
            0 <= i < scan.len() && (#[trigger] scan[i]).id == ids[j]
}

/// Score every id of `ids` that has a vector against the probe.
pub fn scan_all<H: Host>(
    config: &FlatConfig,
    probe: &Probe<'_, H::Query>,
    ids: &Vec<DocId>,
    vectors: &HashMap<DocId, QuantizedVector>,
    host: &H,
) -> (scan: Vec<Scored>)
    requires
        ids@.no_duplicates(),
    ensures
        scans(scan@, ids@, vectors@.dom()),
        (forall|j: int| 0 <= j < ids@.len() ==> vectors@.contains_key(#[trigger] ids@[j]))
            ==> scan@.len() == ids@.len(),
{
    let mut scan: Vec<Scored> = Vec::new();
    let mut i: usize = 0;
    while i < ids.len()
        invariant
            i <= ids.len(),
            ids@.no_duplicates(),
            scans(scan@, ids@.take(i as int), vectors@.dom()),
            scan@.len() <= i,
            (forall|j: int| 0 <= j < i ==> vectors@.contains_key(#[trigger] ids@[j])) ==> scan@.len()
                == i,
        decreases ids.len() - i,
    {
        let id = ids[i];
        let ghost before = scan@;
        let ghost seen = ids@.take(i as int);
        let ghost next = ids@.take(i + 1);
        proof {
            assert(next =~= seen.push(id));
            assert forall|j: int| 0 <= j < seen.len() implies seen[j] != id by {
                assert(ids@[j] != ids@[i as int]);
            }
        }
        match vectors.get(&id) {
            Some(v) => {
                let score = probe_similarity(host, config.metric, config.mode, probe, v);
                scan.push(Scored { id, score });
                proof {
                    let after = scan@;
                    assert forall|a: int, b: int| 0 <= a < b < after.len() implies (
                    #[trigger] after[a]).id != (#[trigger] after[b]).id by {
                        if b == before.len() {
                            assert(after[a] == before[a]);
                            assert(seen.contains(before[a].id));
                        } else {
                            assert(after[a] == before[a] && after[b] == before[b]);
                        }
                    }
                    assert forall|a: int| 0 <= a < after.len() implies next.contains(
                        (#[trigger] after[a]).id,
                    ) && vectors@.dom().contains(after[a].id) by {
                        if a < before.len() {
                            assert(after[a] == before[a]);
                            let k = choose|k: int| 0 <= k < seen.len() && seen[k] == before[a].id;
                            assert(next[k] == before[a].id);
                        } else {
                            assert(next[i as int] == id);
                        }
                    }
                    assert forall|j: int|
                        0 <= j < next.len() && vectors@.dom().contains(
                            #[trigger] next[j],
                        ) implies exists|a: int|
                        0 <= a < after.len() && (#[trigger] after[a]).id == next[j] by {
                        if j < i {
                            assert(seen[j] == next[j]);
                            let a = choose|a: int|
                                0 <= a < before.len() && (#[trigger] before[a]).id == seen[j];
                            assert(after[a].id == next[j]);
                        } else {
                            assert(after[before.len() as int].id == next[j]);
                        }
                    }
                }
            },
            None => {
                proof {
                    assert forall|a: int| 0 <= a < before.len() implies next.contains(
                        (#[trigger] before[a]).id,
                    ) by {
                        let k = choose|k: int| 0 <= k < seen.len() && seen[k] == before[a].id;
                        assert(next[k] == before[a].id);
                    }
                    assert forall|j: int|
                        0 <= j < next.len() && vectors@.dom().contains(
                            #[trigger] next[j],
                        ) implies exists|a: int|
                        0 <= a < before.len() && (#[trigger] before[a]).id == next[j] by {
                        assert(j < i);
                        assert(seen[j] == next[j]);
                    }
                }
            },
        }
        i += 1;
    }
    assert(ids@.take(ids.len() as int) =~= ids@);
    scan
}

impl FlatIndex {
    /// The best `k` of the ids that have a vector: every one of them is
    /// scored against the probe, and the best `k` of that scan are returned,
    /// best first, ties by ascending id.
    pub fn search<H: Host>(
        &self,
        probe: &Probe<'_, H::Query>,
        k: usize,
        ids: &Vec<DocId>,
        vectors: &HashMap<DocId, QuantizedVector>,
        host: &H,
    ) -> (hits: Vec<Scored>)
        requires
            ids@.no_duplicates(),
        ensures
            exists|scan: Seq<Scored>|
                #[trigger] scans(scan, ids@, vectors@.dom()) && is_best_k(hits@, scan, k as int) && ((
                forall|j: int| 0 <= j < ids@.len() ==> vectors@.contains_key(#[trigger] ids@[j]))
                    ==> scan.len() == ids@.len()),
    {
        let scan = scan_all(&self.config, probe, ids, vectors, host);
        top_k(&scan, k)
    }
}

} // verus!
