//! The snapshot file of the index.

use vstd::prelude::*;
use crate::DocId;
use vstd::string::StringExecFns;
use crate::index::ann::AnnIndex;
use crate::index::hnsw::snapshot::graph_decoded;
use crate::index::ivf::snapshot::{centroids_decoded, vector_views};
use crate::index::traits::IndexType;

verus! {

/// Path of the index snapshot of the collection at `path`: one for a graph,
/// one for an inverted-file index, none for a flat index.
pub fn get_vector_index_path(path: &str, kind: IndexType) -> (r: Option<String>)
    ensures
        match kind {
            IndexType::Flat => r is None,
            IndexType::Hnsw => r is Some && r->0@ == path@ + ".hnsw.db"@,
            IndexType::Ivf => r is Some && r->0@ == path@ + ".ivf.db"@,
        },
{
    match kind {
        IndexType::Flat => None,
        IndexType::Hnsw => Some(String::from_str(path).concat(".hnsw.db")),
        IndexType::Ivf => Some(String::from_str(path).concat(".ivf.db")),
    }
}

/// The index to open a collection with, given what the snapshot file held
/// (`None`: no such file): the one that the snapshot holds, of the kind and
/// under the configuration of `fresh`, or `fresh` itself. Returns with it
/// whether a snapshot was taken.
pub fn load_vector_index(fresh: AnnIndex, snapshot: Option<&[u8]>) -> (r: (AnnIndex, bool))
    requires
        fresh.wf(),
    ensures
        r.0.wf(),
        (r.0 is Flat) == (fresh is Flat),
        (r.0 is Hnsw) == (fresh is Hnsw),
        (r.0 is Ivf) == (fresh is Ivf),
        snapshot is None ==> !r.1 && r.0 == fresh,
        !r.1 ==> r.0 == fresh,
        r.1 ==> snapshot is Some && match r.0 {
            AnnIndex::Flat(_) => false,
            AnnIndex::Hnsw(h) => graph_decoded(snapshot->0@) == Some(h@),
            AnnIndex::Ivf(i) => centroids_decoded(snapshot->0@) == Some(vector_views(i.centroids@))
                && i.cluster_of@ == Map::<DocId, usize>::empty(),
        },
        match (fresh, r.0) {
            (AnnIndex::Flat(f), AnnIndex::Flat(g)) => g == f,
            (AnnIndex::Hnsw(f), AnnIndex::Hnsw(h)) => h.config == f.config,
            (AnnIndex::Ivf(f), AnnIndex::Ivf(i)) => i.config == f.config,
            _ => false,
        },
{
    match snapshot {
        Some(b) => AnnIndex::restore(fresh, b),
        None => (fresh, false),
    }
}

} // verus!
