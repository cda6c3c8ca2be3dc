use std::collections::HashMap;

use piramid::config::execution::ExecutionMode;
use piramid::config::search::SearchConfig;
use piramid::distance::DistanceMetric;
use piramid::host::{Host, Probe};
use piramid::index::ann::AnnIndex;
use piramid::index::flat::config::FlatConfig;
use piramid::index::flat::scan::{scan_all, FlatIndex};
use piramid::index::hnsw::config::HnswConfig;
use piramid::index::hnsw::graph::HnswIndex;
use piramid::index::ivf::config::IvfConfig;
use piramid::index::ivf::lists::{best_of, nearest_centroid, IvfIndex};
use piramid::index::ranking::{better, top_k, Scored};
use piramid::index::traits::{IndexDetails, IndexType};
use piramid::metadata::MetadataScalar;
use piramid::query::Rank;
use piramid::quantization::QuantizedVector;
use piramid::score::Score;
use piramid::search::{fetch_size, resolve_mode};
use piramid::storage::collection::dup::{neighbor_k, sort_by_score, DuplicateHit};

/// A host whose vectors are points on a line: the first value of a vector is
/// its position, and two vectors are the more similar the closer they lie.
struct LineHost {
    layers: Vec<usize>,
    drawn: std::cell::Cell<usize>,
}

fn line_host() -> LineHost {
    LineHost { layers: vec![0], drawn: std::cell::Cell::new(0) }
}

fn closeness(a: i64, b: i64) -> Score {
    Score::new((1_000_000 - (a - b).abs()) as u32)
}

fn point(x: i8) -> QuantizedVector {
    QuantizedVector::new(vec![x], 0, 0)
}

impl Host for LineHost {
    type Query = i64;

    fn number_order(&self, _a: &MetadataScalar, _b: &MetadataScalar) -> Rank {
        Rank::Unordered
    }

    fn now_secs(&self) -> u64 {
        0
    }

    fn query_dim(&self, _query: &i64) -> usize {
        1
    }

    fn similarity(
        &self,
        _metric: DistanceMetric,
        _mode: ExecutionMode,
        a: &QuantizedVector,
        b: &QuantizedVector,
    ) -> Score {
        closeness(a.values[0] as i64, b.values[0] as i64)
    }

    fn query_similarity(
        &self,
        _metric: DistanceMetric,
        _mode: ExecutionMode,
        query: &i64,
        v: &QuantizedVector,
    ) -> Score {
        closeness(*query, v.values[0] as i64)
    }

    fn draw_layer(&self, _ml: u32) -> usize {
        let at = self.drawn.get();
        self.drawn.set(at + 1);
        self.layers[at % self.layers.len()]
    }

    fn mean(&self, members: &Vec<QuantizedVector>) -> QuantizedVector {
        let sum: i64 = members.iter().map(|v| v.values[0] as i64).sum();
        point((sum / members.len() as i64) as i8)
    }
}

fn scored(id: u128, key: u32) -> Scored {
    Scored { id, score: Score::new(key) }
}

fn ids_of(hits: &[Scored]) -> Vec<u128> {
    hits.iter().map(|h| h.id).collect()
}

fn line(points: &[(u128, i8)]) -> (Vec<u128>, HashMap<u128, QuantizedVector>) {
    let ids = points.iter().map(|p| p.0).collect();
    let vectors = points.iter().map(|p| (p.0, point(p.1))).collect();
    (ids, vectors)
}

fn tuning() -> SearchConfig {
    SearchConfig { ef: None, nprobe: None, filter_overfetch: 1 }
}

#[test]
fn higher_scores_rank_first_and_lower_ids_break_ties() {
    assert!(better(&scored(9, 5), &scored(1, 4)));
    assert!(!better(&scored(1, 4), &scored(9, 5)));
    assert!(better(&scored(1, 5), &scored(2, 5)));
    assert!(!better(&scored(2, 5), &scored(1, 5)));
    assert!(!better(&scored(2, 5), &scored(2, 5)));
}

#[test]
fn the_best_k_of_a_scan() {
    let scan = vec![scored(5, 10), scored(3, 30), scored(8, 20), scored(1, 30), scored(9, 5)];
    assert_eq!(ids_of(&top_k(&scan, 0)), Vec::<u128>::new());
    assert_eq!(ids_of(&top_k(&scan, 1)), vec![1]);
    assert_eq!(ids_of(&top_k(&scan, 3)), vec![1, 3, 8]);
    assert_eq!(ids_of(&top_k(&scan, 5)), vec![1, 3, 8, 5, 9]);
    assert_eq!(ids_of(&top_k(&scan, 99)), vec![1, 3, 8, 5, 9]);
    assert_eq!(top_k(&scan, 2)[1].score.key, 30);
    assert!(top_k(&Vec::new(), 3).is_empty());
}

#[test]
fn the_best_k_are_those_of_a_full_sort() {
    let mut seed: u32 = 99;
    let scan: Vec<Scored> = (0..200u128)
        .map(|id| {
            seed = seed.wrapping_mul(1103515245).wrapping_add(12345);
            scored(id, (seed >> 16) % 50)
        })
        .collect();
    let mut sorted = scan.clone();
    sorted.sort_by(|a, b| b.score.key.cmp(&a.score.key).then(a.id.cmp(&b.id)));
    for k in [1usize, 7, 50, 200, 300] {
        let expected: Vec<u128> = sorted.iter().take(k).map(|s| s.id).collect();
        assert_eq!(ids_of(&top_k(&scan, k)), expected);
    }
}

#[test]
fn flat_search_is_the_best_of_a_linear_scan() {
    let host = line_host();
    let (ids, mut vectors) = line(&[(1, 10), (2, -3), (3, 4), (4, 5), (5, 100), (6, 12)]);
    vectors.remove(&5);
    let flat = FlatIndex::new(FlatConfig::default());
    let scan = scan_all(&flat.config, &Probe::Query(&7), &ids, &vectors, &host);
    assert_eq!(ids_of(&scan), vec![1, 2, 3, 4, 6]);
    assert_eq!(scan[0].score.key, 1_000_000 - 3);
    let hits = flat.search(&Probe::Query(&7), 3, &ids, &vectors, &host);
    // Positions 5 and 10 lie at distance 2 and 3, positions 4 at distance 3:
    // the lower id wins the tie.
    assert_eq!(ids_of(&hits), vec![4, 1, 3]);
    let all = flat.search(&Probe::Query(&7), 10, &ids, &vectors, &host);
    assert_eq!(ids_of(&all), vec![4, 1, 3, 6, 2]);
    let stored = flat.search(&Probe::Stored(&point(-3)), 1, &ids, &vectors, &host);
    assert_eq!(ids_of(&stored), vec![2]);
    let index = AnnIndex::Flat(flat);
    assert_eq!(index.index_type(), IndexType::Flat);
    assert_eq!(ids_of(&index.search(&Probe::Query(&7), 2, &ids, &vectors, &tuning(), &host)), vec![4, 1]);
    let stats = index.stats(5);
    assert_eq!(stats.total_vectors, 5);
    assert!(matches!(stats.details, IndexDetails::Flat));
}

#[test]
fn ivf_looks_into_the_nearest_clusters() {
    let host = line_host();
    let (ids, vectors) = line(&[(1, -100), (2, -90), (3, 0), (4, 5), (5, 95), (6, 100)]);
    let mut ivf = IvfIndex::new(IvfConfig {
        num_clusters: 3,
        num_probes: 1,
        max_iterations: 1,
        metric: DistanceMetric::Cosine,
        mode: ExecutionMode::Auto,
    });
    // Untrained, every search looks at every id.
    for id in &ids {
        ivf.insert(*id, &vectors[id], &host);
    }
    assert_eq!(ids_of(&ivf.search(&Probe::Query(&96), 2, &ids, &vectors, 1, &host)), vec![5, 6]);
    assert_eq!(nearest_centroid(&ivf.config, &ivf.centroids, &point(3), &host), None);

    ivf.train(vec![point(-95), point(2), point(98)], &ids, &vectors, &host);
    assert_eq!(ivf.cluster_of[&1], 0);
    assert_eq!(ivf.cluster_of[&2], 0);
    assert_eq!(ivf.cluster_of[&3], 1);
    assert_eq!(ivf.cluster_of[&4], 1);
    assert_eq!(ivf.cluster_of[&5], 2);
    assert_eq!(ivf.cluster_of[&6], 2);
    assert_eq!(nearest_centroid(&ivf.config, &ivf.centroids, &point(40), &host), Some(1));
    // One probe: only the cluster of the nearest centroid is searched.
    assert_eq!(ids_of(&ivf.search(&Probe::Query(&-40), 6, &ids, &vectors, 1, &host)), vec![3, 4]);
    assert_eq!(
        ids_of(&ivf.search(&Probe::Query(&-40), 6, &ids, &vectors, 2, &host)),
        vec![3, 4, 2, 1]
    );
    assert_eq!(ivf.search(&Probe::Query(&-40), 6, &ids, &vectors, 3, &host).len(), 6);
    ivf.remove(3);
    assert!(!ivf.cluster_of.contains_key(&3));
    // An id in no cluster is looked at whatever is probed.
    assert_eq!(ids_of(&ivf.search(&Probe::Query(&99), 6, &ids, &vectors, 1, &host)), vec![6, 5, 3]);
    // With as many probes as centroids the search is that of a flat index.
    let flat = FlatIndex::new(FlatConfig { metric: DistanceMetric::Cosine, mode: ExecutionMode::Auto });
    assert_eq!(
        ids_of(&ivf.search(&Probe::Query(&7), 4, &ids, &vectors, 3, &host)),
        ids_of(&flat.search(&Probe::Query(&7), 4, &ids, &vectors, &host))
    );
    let index = AnnIndex::Ivf(ivf);
    assert_eq!(index.index_type(), IndexType::Ivf);
    let configured = index.search(&Probe::Query(&99), 1, &ids, &vectors, &tuning(), &host);
    assert_eq!(ids_of(&configured), vec![6]);
}

#[test]
fn hnsw_finds_neighbours_and_skips_tombstones() {
    let host = LineHost { layers: vec![0, 1, 0, 2, 0, 0, 1, 0], drawn: std::cell::Cell::new(0) };
    let mut vectors: HashMap<u128, QuantizedVector> = HashMap::new();
    let mut graph = HnswIndex::new(HnswConfig {
        m: 4,
        m_max: 8,
        ef_construction: 16,
        ef_search: 16,
        ..HnswConfig::default()
    });
    assert!(graph.search(&Probe::<i64>::Query(&0), 3, 16, &vectors, &host).is_empty());
    for i in 0..40u128 {
        let v = point((i as i8) * 3 - 60);
        vectors.insert(i + 1, v.clone());
        graph.insert(i + 1, &v, &vectors, &host);
    }
    assert_eq!(graph.nodes.len(), 40);
    let stats = graph.stats();
    assert_eq!(stats.total_nodes, 40);
    assert_eq!(stats.tombstones, 0);
    assert_eq!(stats.max_layer, Some(2));
    assert_eq!(stats.layer_sizes[0], 40);
    assert!(stats.total_connections > 0);
    for node in &graph.nodes {
        for (layer, list) in node.neighbors.iter().enumerate() {
            assert!(list.len() <= if layer == 0 { 8 } else { 4 });
        }
    }

    // Position 0 belongs to id 21; its neighbours on the line lie 3 apart.
    let hits = graph.search(&Probe::Query(&0), 5, 16, &vectors, &host);
    assert_eq!(ids_of(&hits), vec![21, 20, 22, 19, 23]);
    // A candidate list shorter than k is widened to k.
    assert_eq!(graph.search(&Probe::Query(&0), 5, 1, &vectors, &host).len(), 5);

    graph.remove(21);
    graph.remove(20);
    assert_eq!(graph.stats().tombstones, 2);
    let hits = graph.search(&Probe::Query(&0), 3, 16, &vectors, &host);
    assert_eq!(ids_of(&hits), vec![22, 19, 23]);
    // Tombstones whose vectors are gone are still walked through.
    let mut fewer = vectors.clone();
    fewer.remove(&21);
    fewer.remove(&20);
    let hits = graph.search(&Probe::Query(&0), 3, 16, &fewer, &host);
    assert_eq!(ids_of(&hits), vec![22, 19, 23]);
    // An id that comes back is live again.
    graph.insert(21, &point(0), &vectors, &host);
    assert_eq!(graph.nodes.len(), 40);
    assert_eq!(ids_of(&graph.search(&Probe::Query(&0), 1, 16, &vectors, &host)), vec![21]);

    let index = AnnIndex::Hnsw(graph);
    assert_eq!(index.index_type(), IndexType::Hnsw);
    let ids: Vec<u128> = (1..=40).collect();
    let hits = index.search(&Probe::Query(&-60), 2, &ids, &vectors, &tuning(), &host);
    assert_eq!(ids_of(&hits), vec![1, 2]);
    match index.stats(0).details {
        IndexDetails::Hnsw { tombstones, .. } => assert_eq!(tombstones, 1),
        _ => panic!("the details are those of a graph"),
    }
}

#[test]
fn hnsw_returns_only_what_the_entry_point_reaches() {
    // With one connection per node, a node that loses its only incoming link
    // is out of reach of every search.
    let host = line_host();
    let mut vectors: HashMap<u128, QuantizedVector> = HashMap::new();
    let mut graph = HnswIndex::new(HnswConfig {
        m: 1,
        m_max: 1,
        ef_construction: 8,
        ef_search: 8,
        ..HnswConfig::default()
    });
    for (id, x) in [(1u128, 0i8), (2, 10), (3, 1)] {
        vectors.insert(id, point(x));
        graph.insert(id, &point(x), &vectors, &host);
    }
    let hits = graph.search(&Probe::Query(&0), 3, 8, &vectors, &host);
    assert_eq!(ids_of(&hits), vec![1, 3]);
    // The graph knows that its links do not join its nodes.
    assert!(!graph.is_joined());
    assert!(!graph.reaches_all(0));
}

#[test]
fn candidates_are_overfetched_only_for_a_filter() {
    assert_eq!(fetch_size(5, false, 3), 5);
    assert_eq!(fetch_size(5, true, 3), 15);
    assert_eq!(fetch_size(5, true, 0), 5);
    assert_eq!(fetch_size(0, true, 9), 0);
    assert_eq!(fetch_size(usize::MAX, true, 2), usize::MAX);
    assert_eq!(resolve_mode(ExecutionMode::Auto, ExecutionMode::Simd), ExecutionMode::Simd);
    assert_eq!(resolve_mode(ExecutionMode::Scalar, ExecutionMode::Simd), ExecutionMode::Scalar);
}

#[test]
fn neighbours_asked_for_duplicates() {
    assert_eq!(neighbor_k(None, None, 100), 49);
    assert_eq!(neighbor_k(None, None, 10), 9);
    assert_eq!(neighbor_k(None, Some(3), 100), 10);
    assert_eq!(neighbor_k(None, Some(20), 100), 40);
    assert_eq!(neighbor_k(None, Some(usize::MAX), usize::MAX), usize::MAX - 1);
    assert_eq!(neighbor_k(Some(5), Some(20), 100), 5);
    assert_eq!(neighbor_k(Some(5), None, 3), 2);
    assert_eq!(neighbor_k(None, None, 1), 1);
    assert_eq!(neighbor_k(None, None, 0), 1);
    assert_eq!(neighbor_k(Some(0), None, 100), 1);
}

#[test]
fn pairs_sort_by_score_and_keep_their_order_in_ties() {
    let pair = |a: u128, b: u128, key: u32| DuplicateHit { id_a: a, id_b: b, score: Score::new(key) };
    let sorted = sort_by_score(&vec![pair(1, 2, 5), pair(3, 4, 9), pair(5, 6, 5), pair(7, 8, 7)]);
    let order: Vec<(u128, u32)> = sorted.iter().map(|p| (p.id_a, p.score.key)).collect();
    assert_eq!(order, vec![(3, 9), (7, 7), (1, 5), (5, 5)]);
    assert!(sort_by_score(&Vec::new()).is_empty());
}

#[test]
fn a_graph_survives_its_snapshot() {
    let host = LineHost { layers: vec![0, 1, 0, 2], drawn: std::cell::Cell::new(0) };
    let mut vectors: HashMap<u128, QuantizedVector> = HashMap::new();
    let config = HnswConfig { m: 3, m_max: 6, ef_construction: 12, ef_search: 12, ..HnswConfig::default() };
    let mut graph = HnswIndex::new(config);
    let empty = graph.encode();
    assert_eq!(empty, vec![0u8; 17]);
    assert_eq!(HnswIndex::decode(config, &empty).unwrap().nodes.len(), 0);
    for i in 0..20u128 {
        let v = point((i as i8) * 5 - 50);
        vectors.insert(i + 1, v.clone());
        graph.insert(i + 1, &v, &vectors, &host);
    }
    graph.remove(11);
    let bytes = graph.encode();
    let back = HnswIndex::decode(config, &bytes).unwrap();
    assert_eq!(back.nodes.len(), 20);
    assert_eq!(back.entry, graph.entry);
    for (a, b) in graph.nodes.iter().zip(&back.nodes) {
        assert_eq!(a.id, b.id);
        assert_eq!(a.deleted, b.deleted);
        assert_eq!(a.neighbors, b.neighbors);
    }
    assert!(!back.is_live(11));
    assert!(back.is_live(12));
    assert!(!back.is_live(99));
    let ids: Vec<u128> = (1..=20).filter(|i| *i != 11).collect();
    assert!(back.covers(&ids));
    assert!(!back.covers(&(1..=20).collect()));
    assert!(!back.covers(&ids[1..].to_vec()));
    assert_eq!(
        ids_of(&back.search(&Probe::Query(&0), 3, 12, &vectors, &host)),
        ids_of(&graph.search(&Probe::Query(&0), 3, 12, &vectors, &host))
    );
    assert_eq!(ids_of(&back.search(&Probe::Query(&0), 2, 12, &vectors, &host)), vec![10, 12]);
    assert!(HnswIndex::decode(config, &bytes[..bytes.len() - 1]).is_none());
    let mut longer = bytes.clone();
    longer.push(0);
    assert!(HnswIndex::decode(config, &longer).is_none());
    // An entry point without the flag that announces it is no snapshot.
    let mut bent = empty.clone();
    bent[1] = 1;
    assert!(HnswIndex::decode(config, &bent).is_none());
    // Nor is one whose entry point is none of its nodes,
    let mut outside = bytes.clone();
    outside[1] = 20;
    assert!(HnswIndex::decode(config, &outside).is_none());
    outside[1] = 19;
    assert!(HnswIndex::decode(config, &outside).is_some());
    // or one that has nodes and no entry point.
    let mut headless = bytes.clone();
    headless[0] = 0;
    for b in headless[1..9].iter_mut() {
        *b = 0;
    }
    assert!(HnswIndex::decode(config, &headless).is_none());
    let mut flagged = empty.clone();
    flagged[0] = 1;
    assert!(HnswIndex::decode(config, &flagged).is_none());
}

#[test]
fn hnsw_finds_every_live_node_where_the_links_join_them() {
    let host = line_host();
    let mut vectors: HashMap<u128, QuantizedVector> = HashMap::new();
    let mut graph = HnswIndex::new(HnswConfig {
        m: 8,
        m_max: 16,
        ef_construction: 16,
        ef_search: 16,
        ..HnswConfig::default()
    });
    for (id, x) in [(1u128, 0i8), (2, 10), (3, 1), (4, -7), (5, 30), (6, 2)] {
        vectors.insert(id, point(x));
        graph.insert(id, &point(x), &vectors, &host);
    }
    assert!(graph.is_joined());
    assert!(graph.reaches_all(3));
    assert!(HnswIndex::new(HnswConfig::default()).is_joined());
    // Fewer nodes than asked for: all of them, nearest first.
    assert_eq!(ids_of(&graph.search(&Probe::Query(&0), 10, 16, &vectors, &host)), vec![1, 3, 6, 4, 2, 5]);
    // As many as asked for where there are enough, even with a short list.
    assert_eq!(ids_of(&graph.search(&Probe::Query(&0), 4, 1, &vectors, &host)), vec![1, 3, 6, 4]);
    graph.remove(3);
    graph.remove(5);
    assert_eq!(ids_of(&graph.search(&Probe::Query(&0), 10, 16, &vectors, &host)), vec![1, 6, 4, 2]);
    assert_eq!(ids_of(&graph.search(&Probe::Query(&0), 0, 16, &vectors, &host)), Vec::<u128>::new());
}

#[test]
fn centroids_survive_their_snapshot() {
    let host = line_host();
    let (ids, vectors) = line(&[(1, -100), (2, 0), (3, 100)]);
    let config = IvfConfig::default();
    let mut ivf = IvfIndex::new(config);
    assert_eq!(ivf.encode(), vec![0u8; 8]);
    ivf.train(vec![point(-95), point(98)], &ids, &vectors, &host);
    let bytes = ivf.encode();
    assert_eq!(bytes.len(), 8 + 2 * (4 + 4 + 8 + 1));
    let mut back = IvfIndex::decode(config, &bytes).unwrap();
    assert_eq!(back.centroids.len(), 2);
    assert_eq!(back.centroids[0].values, vec![-95]);
    assert_eq!(back.centroids[1].values, vec![98]);
    assert!(back.cluster_of.is_empty());
    back.assign_all(&ids, &vectors, &host);
    assert_eq!((back.cluster_of[&1], back.cluster_of[&2], back.cluster_of[&3]), (0, 0, 1));
    assert!(IvfIndex::decode(config, &bytes[..bytes.len() - 1]).is_none());
    let (same, taken) = AnnIndex::restore(AnnIndex::Ivf(IvfIndex::new(config)), &bytes);
    assert!(taken);
    assert!(matches!(same, AnnIndex::Ivf(ref i) if i.centroids.len() == 2));
    let (fresh, taken) = AnnIndex::restore(AnnIndex::Ivf(IvfIndex::new(config)), &[1, 2, 3]);
    assert!(!taken);
    assert!(matches!(fresh, AnnIndex::Ivf(ref i) if i.centroids.is_empty()));
    let (flat, taken) = AnnIndex::restore(AnnIndex::Flat(FlatIndex::new(FlatConfig::default())), &bytes);
    assert!(!taken);
    assert_eq!(flat.index_type(), IndexType::Flat);
    assert!(flat.encode().is_none());
}

#[test]
fn a_graph_counts_its_nodes_layers_and_links() {
    let host = LineHost { layers: vec![0, 2, 0, 1], drawn: std::cell::Cell::new(0) };
    let mut vectors: HashMap<u128, QuantizedVector> = HashMap::new();
    let mut graph = HnswIndex::new(HnswConfig {
        m: 2,
        m_max: 4,
        ef_construction: 8,
        ef_search: 8,
        ..HnswConfig::default()
    });
    let empty = graph.stats();
    assert_eq!(empty.total_nodes, 0);
    assert_eq!(empty.max_layer, None);
    assert!(empty.layer_sizes.is_empty());
    assert_eq!(empty.memory_usage_bytes, 0);
    for (id, x) in [(1u128, 0i8), (2, 10), (3, 20), (4, 30)] {
        vectors.insert(id, point(x));
        graph.insert(id, &point(x), &vectors, &host);
    }
    graph.remove(3);
    let stats = graph.stats();
    assert_eq!(stats.total_nodes, 4);
    assert_eq!(stats.tombstones, 1);
    assert_eq!(stats.max_layer, Some(2));
    assert_eq!(stats.layer_sizes, vec![4, 2, 1]);
    let links: usize = graph.nodes.iter().map(|n| n.neighbors.iter().map(|l| l.len()).sum::<usize>()).sum();
    assert_eq!(stats.total_connections, links);
    assert!(links >= 6);
    assert_eq!(stats.memory_usage_bytes, 4 * 64 + links * 8);
    assert!(graph.covers(&vec![1, 2, 4]));
    assert!(!graph.covers(&vec![1, 2]));
    assert!(!graph.covers(&vec![1, 2, 3, 4]));
    assert!(!graph.covers(&vec![1, 2, 4, 9]));
}

#[test]
fn the_first_of_the_highest_similarities_is_the_best() {
    let scores = |keys: &[u32]| keys.iter().map(|k| Score::new(*k)).collect::<Vec<Score>>();
    assert_eq!(best_of(&scores(&[])), None);
    assert_eq!(best_of(&scores(&[4])), Some(0));
    assert_eq!(best_of(&scores(&[4, 9, 2, 9, 1])), Some(1));
    assert_eq!(best_of(&scores(&[7, 7, 7])), Some(0));
    assert_eq!(best_of(&scores(&[1, 2, 3])), Some(2));
}

#[test]
fn a_new_node_is_linked_both_ways_on_its_layers() {
    let host = line_host();
    let mut vectors: HashMap<u128, QuantizedVector> = HashMap::new();
    let mut graph = HnswIndex::new(HnswConfig {
        m: 2,
        m_max: 2,
        ef_construction: 8,
        ef_search: 8,
        ..HnswConfig::default()
    });
    let mut put = |graph: &mut HnswIndex, id: u128, x: i8, level: usize| {
        vectors.insert(id, point(x));
        graph.insert_at_level(id, &point(x), level, &vectors, &host);
    };
    // The first node is the entry point and has no neighbour.
    put(&mut graph, 1, 0, 1);
    assert_eq!(graph.entry, Some(0));
    assert_eq!(graph.nodes[0].neighbors, vec![Vec::<usize>::new(), Vec::new()]);
    // A node below the entry point is linked on its own layers only.
    put(&mut graph, 2, 10, 0);
    assert_eq!(graph.entry, Some(0));
    assert_eq!(graph.nodes[1].neighbors, vec![vec![0]]);
    assert_eq!(graph.nodes[0].neighbors, vec![vec![1], Vec::new()]);
    // A node above the entry point becomes the entry point; its lists above
    // the old top stay empty.
    put(&mut graph, 3, 1, 3);
    assert_eq!(graph.entry, Some(2));
    assert_eq!(graph.nodes[2].neighbors.len(), 4);
    assert_eq!(graph.nodes[2].neighbors[0], vec![0, 1]);
    assert_eq!(graph.nodes[2].neighbors[1], vec![0]);
    assert!(graph.nodes[2].neighbors[2].is_empty());
    assert!(graph.nodes[2].neighbors[3].is_empty());
    assert_eq!(graph.nodes[0].neighbors, vec![vec![1, 2], vec![2]]);
    assert_eq!(graph.nodes[1].neighbors, vec![vec![0, 2]]);
    // A full list is pruned to what the layer allows and holds nothing new
    // but the new node.
    put(&mut graph, 4, 2, 0);
    for node in &graph.nodes {
        for list in &node.neighbors {
            assert!(list.len() <= 2);
        }
    }
    assert!(!graph.nodes[3].neighbors[0].is_empty());
    for n in &graph.nodes[3].neighbors[0] {
        assert!(*n < 3);
    }
    // No layer above the highest there is.
    put(&mut graph, 5, 3, 1000);
    assert_eq!(graph.nodes[4].neighbors.len(), 32);
    assert_eq!(graph.entry, Some(4));
    // An id that is known is only made live again.
    graph.remove(2);
    let before: Vec<Vec<Vec<usize>>> = graph.nodes.iter().map(|n| n.neighbors.clone()).collect();
    put(&mut graph, 2, 10, 5);
    assert_eq!(graph.nodes.len(), 5);
    assert!(graph.is_live(2));
    let after: Vec<Vec<Vec<usize>>> = graph.nodes.iter().map(|n| n.neighbors.clone()).collect();
    assert_eq!(before, after);
    assert_eq!(graph.entry, Some(4));
}

#[test]
fn k_means_starts_at_the_first_vectors_and_moves_to_the_means() {
    let host = line_host();
    let (ids, vectors) = line(&[(1, 0), (2, 4), (3, 100), (4, 104), (5, 2)]);
    let train = |clusters: usize, rounds: usize| {
        let mut ivf = IvfIndex::new(IvfConfig {
            num_clusters: clusters,
            num_probes: 1,
            max_iterations: rounds,
            metric: DistanceMetric::Cosine,
            mode: ExecutionMode::Auto,
        });
        ivf.train_kmeans(&ids, &vectors, &host);
        ivf
    };
    // Without a round the centroids are the first vectors.
    let still = train(2, 0);
    assert_eq!(still.centroids.iter().map(|c| c.values[0]).collect::<Vec<_>>(), vec![0, 4]);
    assert_eq!(still.cluster_of.len(), 5);
    // One round: 0 and 2 go to the first centroid, 4, 100 and 104 to the
    // second; each centroid moves to the mean of its cluster.
    let once = train(2, 1);
    assert_eq!(once.centroids.iter().map(|c| c.values[0]).collect::<Vec<_>>(), vec![1, 69]);
    // Two rounds: 4 has come to the first cluster.
    let twice = train(2, 2);
    assert_eq!(twice.centroids.iter().map(|c| c.values[0]).collect::<Vec<_>>(), vec![2, 102]);
    assert_eq!(twice.cluster_of[&2], 0);
    assert_eq!(twice.cluster_of[&3], 1);
    // No more clusters than vectors; none without a vector or a cluster.
    assert_eq!(train(9, 1).centroids.len(), 5);
    assert_eq!(train(0, 1).centroids.len(), 0);
    let mut empty = IvfIndex::new(IvfConfig::default());
    empty.train_kmeans(&Vec::new(), &vectors, &host);
    assert!(empty.centroids.is_empty());
    assert!(empty.cluster_of.is_empty());
}
