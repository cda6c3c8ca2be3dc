use piramid::config::collection::CollectionConfig;
use piramid::config::execution::ExecutionMode;
use piramid::config::wal::WalConfig;
use piramid::distance::DistanceMetric;
use piramid::error::{Corruption, Limit, PiramidError};
use piramid::host::Host;
use piramid::index::ann::AnnIndex;
use piramid::index::selector::IndexConfig;
use piramid::metadata::{Metadata, MetadataScalar, MetadataValue};
use piramid::quantization::QuantizedVector;
use piramid::query::{Filter, FilterCondition, Rank};
use piramid::score::Score;
use piramid::search::{search_batch_with_dims, search_with_dim, SearchParams};
use piramid::storage::collection::batch::{delete_batch, insert_batch};
use piramid::storage::collection::builder::{CollectionBuilder, DurableImage};
use piramid::storage::collection::cache::{ensure_consistent, rebuild};
use piramid::index::ranking::Scored;
use piramid::storage::collection::builder::rebuild_vector_index;
use piramid::storage::collection::dup::{
    find_duplicates, pair_up, select_duplicates, Answer, DuplicateHit,
};
use piramid::storage::collection::compact::compact;
use piramid::storage::collection::operations::{
    delete, get, insert, track_operation_at, update_metadata, update_vector, upsert,
};
use piramid::storage::collection::persistence::{checkpoint, flush, write_order, DurableWrite};
use piramid::storage::wal::log::FlushAction;
use piramid::storage::collection::search::{search, search_batch};
use piramid::storage::collection::storage::{Collection, CollectionOpenOptions};
use piramid::storage::collection::train::train_index;
use piramid::storage::document::Document;
use piramid::storage::wal::entry::WalEntry;
use piramid::storage::wal::log::WalLine;

/// The host of these tests: a fixed clock, layer 0 for every node, and the
/// kernels in plain floating point.
struct TestHost {
    now: u64,
}

fn quantize(v: &[f32]) -> QuantizedVector {
    if v.is_empty() {
        return QuantizedVector::new(Vec::new(), 0f32.to_bits(), 0f32.to_bits());
    }
    let min = v.iter().fold(f32::INFINITY, |a, &b| a.min(b));
    let max = v.iter().fold(f32::NEG_INFINITY, |a, &b| a.max(b));
    if (max - min).abs() < f32::EPSILON {
        return QuantizedVector::new(vec![0i8; v.len()], min.to_bits(), max.to_bits());
    }
    let range = max - min;
    let values = v
        .iter()
        .map(|&x| (((x - min) / range) * 254.0 - 127.0).round().clamp(-127.0, 127.0) as i8)
        .collect();
    QuantizedVector::new(values, min.to_bits(), max.to_bits())
}

fn dequantize(q: &QuantizedVector) -> Vec<f32> {
    let min = f32::from_bits(q.min);
    let max = f32::from_bits(q.max);
    if (max - min).abs() < f32::EPSILON {
        return vec![min; q.values.len()];
    }
    let range = max - min;
    q.values.iter().map(|&x| ((x as f32 + 127.0) / 254.0) * range + min).collect()
}

fn key_of(x: f32) -> Score {
    let bits = x.to_bits();
    Score::new(if bits & 0x8000_0000 != 0 { !bits } else { bits | 0x8000_0000 })
}

fn value_of(score: Score) -> f32 {
    let key = score.key;
    f32::from_bits(if key & 0x8000_0000 != 0 { key & 0x7fff_ffff } else { !key })
}

fn measure(metric: DistanceMetric, a: &[f32], b: &[f32]) -> f32 {
    let dot: f64 = a.iter().zip(b).map(|(x, y)| *x as f64 * *y as f64).sum();
    match metric {
        DistanceMetric::Cosine => {
            let na: f64 = a.iter().map(|x| *x as f64 * *x as f64).sum::<f64>().sqrt();
            let nb: f64 = b.iter().map(|x| *x as f64 * *x as f64).sum::<f64>().sqrt();
            if na * nb == 0.0 {
                0.0
            } else {
                (dot / (na * nb)) as f32
            }
        }
        DistanceMetric::Euclidean => {
            let d: f64 = a
                .iter()
                .zip(b)
                .map(|(x, y)| (*x as f64 - *y as f64) * (*x as f64 - *y as f64))
                .sum::<f64>()
                .sqrt();
            (1.0 / (1.0 + d)) as f32
        }
        DistanceMetric::DotProduct => dot as f32,
    }
}

impl Host for TestHost {
    type Query = Vec<f32>;

    fn number_order(&self, a: &MetadataScalar, b: &MetadataScalar) -> Rank {
        let value = |v: &MetadataScalar| match v {
            MetadataScalar::Integer(i) => *i as f64,
            MetadataScalar::Float(f) => f64::from_bits(*f),
            _ => f64::NAN,
        };
        match value(a).partial_cmp(&value(b)) {
            Some(std::cmp::Ordering::Less) => Rank::Less,
            Some(std::cmp::Ordering::Equal) => Rank::Equal,
            Some(std::cmp::Ordering::Greater) => Rank::Greater,
            None => Rank::Unordered,
        }
    }

    fn now_secs(&self) -> u64 {
        self.now
    }

    fn query_dim(&self, query: &Vec<f32>) -> usize {
        query.len()
    }

    fn similarity(
        &self,
        metric: DistanceMetric,
        _mode: ExecutionMode,
        a: &QuantizedVector,
        b: &QuantizedVector,
    ) -> Score {
        key_of(measure(metric, &dequantize(a), &dequantize(b)))
    }

    fn query_similarity(
        &self,
        metric: DistanceMetric,
        _mode: ExecutionMode,
        query: &Vec<f32>,
        v: &QuantizedVector,
    ) -> Score {
        key_of(measure(metric, query, &dequantize(v)))
    }

    fn draw_layer(&self, _ml: u32) -> usize {
        0
    }

    fn mean(&self, members: &Vec<QuantizedVector>) -> QuantizedVector {
        let dim = members[0].values.len();
        let mut mean = vec![0.0f32; dim];
        for v in members {
            for (m, x) in mean.iter_mut().zip(dequantize(v)) {
                *m += x;
            }
        }
        for m in mean.iter_mut() {
            *m /= members.len() as f32;
        }
        quantize(&mean)
    }
}

fn empty_image() -> DurableImage {
    DurableImage {
        data: Vec::new(),
        index_db: None,
        ann_db: None,
        metadata_db: None,
        wal: Vec::new(),
        wal_meta: None,
    }
}

fn small_config() -> CollectionConfig {
    let mut config = CollectionConfig::default();
    config.memory.initial_mmap_size = 4096;
    config
}

fn open_with(image: DurableImage, config: CollectionConfig) -> Collection {
    CollectionBuilder::open(
        "test.db",
        "test".to_string(),
        image,
        CollectionOpenOptions { config },
        &TestHost { now: 1_700_000_000 },
    )
    .unwrap()
}

fn open_empty() -> Collection {
    open_with(empty_image(), small_config())
}

fn doc(id: u128, v: &[f32], text: &str) -> Document {
    Document::with_id(id, quantize(v), text.as_bytes().to_vec(), Metadata::new())
}

fn no_filter() -> SearchParams {
    SearchParams {
        mode: ExecutionMode::Auto,
        filter: None,
        filter_overfetch_override: None,
        search_config_override: None,
    }
}

#[test]
fn insert_then_get_returns_the_text() {
    let host = TestHost { now: 1 };
    let mut c = open_empty();
    let d1 = Document::new(quantize(&[0.1, 0.2, 0.3, 0.4]), b"hello".to_vec());
    let id = d1.id;
    assert_eq!(insert(&mut c, d1, &host), Ok(id));
    let back = get(&c, id).unwrap();
    assert_eq!(back.text, b"hello".to_vec());
    assert_eq!(back.id, id);
    assert_eq!(c.count(), 1);
    assert_eq!(c.metadata.dimensions, Some(4));
}

#[test]
fn colinear_vectors_rank_by_id() {
    let host = TestHost { now: 1 };
    let mut c = open_empty();
    let docs: Vec<Document> = (1..=1000u32)
        .map(|i| {
            let x = i as f32;
            doc(i as u128, &[x, 2.0 * x, 3.0 * x], "v")
        })
        .collect();
    let ids = insert_batch(&mut c, docs, &host).unwrap();
    assert_eq!(ids.len(), 1000);
    assert_eq!(c.count(), 1000);
    let hits =
        search(&c, &vec![10.0, 20.0, 30.0], 5, DistanceMetric::Cosine, no_filter(), &host).unwrap();
    assert_eq!(hits.len(), 5);
    assert_eq!(hits[0].id, 1);
    for (place, hit) in hits.iter().enumerate() {
        assert_eq!(hit.id, place as u128 + 1);
        assert!(value_of(hit.score) >= 0.9999);
    }
}

#[test]
fn deleted_half_stays_deleted_after_reopen() {
    let host = TestHost { now: 1 };
    let mut c = open_empty();
    let mut seed: u32 = 12345;
    let mut next = || {
        seed = seed.wrapping_mul(1664525).wrapping_add(1013904223);
        (seed >> 8) as f32 / 16777216.0
    };
    for i in 0..50u128 {
        let v = [next(), next(), next(), next()];
        insert(&mut c, doc(i + 1, &v, "random"), &host).unwrap();
    }
    for i in 0..25u128 {
        assert_eq!(delete(&mut c, 2 * i + 1, &host), Ok(true));
    }
    assert_eq!(checkpoint(&mut c, 99), Ok(()));
    let reopened = open_with(c.image(), small_config());
    assert_eq!(reopened.count(), 25);
    let hits =
        search(&reopened, &vec![0.5, 0.5, 0.5, 0.5], 50, DistanceMetric::Cosine, no_filter(), &host)
            .unwrap();
    assert_eq!(hits.len(), 25);
    for hit in &hits {
        assert_eq!(hit.id % 2, 0);
        assert!(get(&reopened, hit.id).is_some());
    }
}

#[test]
fn replay_restores_what_was_logged() {
    let host = TestHost { now: 1 };
    let mut c = open_empty();
    for i in 1..=3u128 {
        insert(&mut c, doc(i, &[i as f32, 1.0, 0.0], "kept"), &host).unwrap();
    }
    let mut image = c.image();
    // The crash: the log reached the disk, the table of that moment did not.
    image.index_db = None;
    image.data = Vec::new();
    assert_eq!(image.wal.len(), 4);
    let reopened = open_with(image, small_config());
    assert_eq!(reopened.count(), 3);
    for i in 1..=3u128 {
        assert_eq!(get(&reopened, i).unwrap().text, b"kept".to_vec());
    }
    assert_eq!(reopened.persistence.wal.lines.len(), 1);
    assert!(matches!(reopened.persistence.wal.lines[0], WalLine::Header { version: 1 }));
    // The log goes on behind the records it held: the checkpoint that
    // follows the replay takes the next number, and no number is used again.
    assert_eq!(reopened.sidecars.wal_meta, 4);
    assert_eq!(reopened.persistence.wal.next_seq, 5);
}

#[test]
fn constant_vector_survives_storage() {
    let host = TestHost { now: 1 };
    let mut c = open_empty();
    let constant = [1.0f32, 1.0, 1.0, 1.0];
    insert(&mut c, doc(7, &constant, "constant"), &host).unwrap();
    let back = dequantize(get(&c, 7).unwrap().get_vector());
    assert_eq!(back.len(), 4);
    for (o, d) in constant.iter().zip(back.iter()) {
        assert!((o - d).abs() < 1e-3);
    }
}

#[test]
fn two_writers_lose_nothing() {
    let host = TestHost { now: 1 };
    let mut config = small_config();
    config.wal.checkpoint_frequency = 4;
    let mut c = open_with(empty_image(), config);
    for round in 0..10u128 {
        for writer in 0..2u128 {
            let docs: Vec<Document> = (0..1000u128)
                .map(|i| {
                    let id = writer * 1_000_000 + round * 1000 + i + 1;
                    doc(id, &[i as f32, writer as f32, 1.0], "w")
                })
                .collect();
            assert_eq!(insert_batch(&mut c, docs, &host).unwrap().len(), 1000);
        }
    }
    assert_eq!(c.count(), 20000);
    let mut windows: Vec<(u64, u64)> = c
        .store
        .index
        .ids()
        .iter()
        .map(|id| {
            let p = c.store.index.get(*id).unwrap();
            (p.offset, p.offset + p.length as u64)
        })
        .collect();
    assert_eq!(windows.len(), 20000);
    windows.sort();
    for pair in windows.windows(2) {
        assert!(pair[0].1 <= pair[1].0);
    }
}

fn tagged(id: u128, v: &[f32], key: &str) -> Document {
    let mut m = Metadata::new();
    m.insert(key.to_string(), MetadataValue::Boolean(true));
    Document::with_id(id, quantize(v), b"tagged".to_vec(), m)
}

#[test]
fn inserting_an_id_again_replaces_the_document() {
    let host = TestHost { now: 1 };
    let mut c = open_empty();
    insert(&mut c, doc(1, &[1.0, 0.0], "first"), &host).unwrap();
    insert(&mut c, doc(1, &[0.0, 1.0], "second"), &host).unwrap();
    assert_eq!(c.count(), 1);
    assert_eq!(get(&c, 1).unwrap().text, b"second".to_vec());
    assert_eq!(c.persistence.wal.next_seq, 3);
    let reopened = open_with(c.image(), small_config());
    assert_eq!(get(&reopened, 1).unwrap().text, b"second".to_vec());
}

#[test]
fn sequence_numbers_grow_with_every_write() {
    let host = TestHost { now: 1 };
    let mut c = open_empty();
    let mut last = c.persistence.wal.next_seq;
    assert_eq!(last, 1);
    insert(&mut c, doc(1, &[1.0, 2.0], "a"), &host).unwrap();
    assert!(c.persistence.wal.next_seq > last);
    last = c.persistence.wal.next_seq;
    upsert(&mut c, doc(1, &[2.0, 1.0], "b"), &host).unwrap();
    assert!(c.persistence.wal.next_seq > last);
    last = c.persistence.wal.next_seq;
    assert_eq!(update_metadata(&mut c, 1, Metadata::new(), &host), Ok(true));
    assert!(c.persistence.wal.next_seq > last);
    last = c.persistence.wal.next_seq;
    assert_eq!(delete(&mut c, 1, &host), Ok(true));
    assert!(c.persistence.wal.next_seq > last);
    last = c.persistence.wal.next_seq;
    // What changes nothing logs nothing.
    assert_eq!(delete(&mut c, 1, &host), Ok(false));
    assert_eq!(update_vector(&mut c, 1, quantize(&[1.0, 1.0]), &host), Ok(false));
    assert_eq!(delete_batch(&mut c, &vec![1, 2, 3], &host), Ok(0));
    assert_eq!(c.persistence.wal.next_seq, last);
}

#[test]
fn checkpoint_empties_the_log() {
    let host = TestHost { now: 1 };
    let mut config = small_config();
    config.wal.checkpoint_frequency = 3;
    let mut c = open_with(empty_image(), config);
    insert(&mut c, doc(1, &[1.0, 2.0], "a"), &host).unwrap();
    insert(&mut c, doc(2, &[1.0, 2.0], "b"), &host).unwrap();
    assert_eq!(c.persistence.wal.lines.len(), 3);
    assert_eq!(c.sidecars.wal_meta, 0);
    // The third write reaches the frequency: records 1 to 3, checkpoint 4.
    insert(&mut c, doc(3, &[1.0, 2.0], "c"), &host).unwrap();
    assert_eq!(c.persistence.wal.lines.len(), 1);
    assert_eq!(c.sidecars.wal_meta, 4);
    assert_eq!(c.persistence.wal.next_seq, 5);
    assert_eq!(c.persistence.operation_count, 0);
    assert_eq!(c.persistence.last_checkpoint_ts, Some(1));
    assert!(c.persistence.wal.replay(c.sidecars.wal_meta).unwrap().is_empty());
    let reopened = open_with(c.image(), config);
    assert_eq!(reopened.count(), 3);
    assert_eq!(reopened.persistence.wal.next_seq, 5);
}

#[test]
fn updates_replace_one_field() {
    let host = TestHost { now: 1 };
    let mut c = open_empty();
    insert(&mut c, tagged(1, &[1.0, 2.0, 3.0], "old"), &host).unwrap();
    let mut fresh = Metadata::new();
    fresh.insert("new".to_string(), MetadataValue::Integer(5));
    assert_eq!(update_metadata(&mut c, 1, fresh, &host), Ok(true));
    let d = get(&c, 1).unwrap();
    assert!(d.metadata.get(&"old".to_string()).is_none());
    assert!(matches!(d.metadata.get(&"new".to_string()), Some(MetadataValue::Integer(5))));
    assert_eq!(d.text, b"tagged".to_vec());
    assert_eq!(d.vector.values, vec![-127, 0, 127]);
    assert_eq!(update_vector(&mut c, 1, quantize(&[3.0, 2.0, 1.0]), &host), Ok(true));
    let d = get(&c, 1).unwrap();
    assert_eq!(d.vector.values, vec![127, 0, -127]);
    assert!(matches!(d.metadata.get(&"new".to_string()), Some(MetadataValue::Integer(5))));
    assert_eq!(
        update_vector(&mut c, 1, quantize(&[3.0, 2.0]), &host),
        Err(PiramidError::DimensionMismatch { expected: 3, actual: 2 })
    );
    assert_eq!(get(&c, 1).unwrap().vector.values, vec![127, 0, -127]);
    assert_eq!(c.count(), 1);
}

#[test]
fn upsert_inserts_or_replaces() {
    let host = TestHost { now: 1 };
    let mut c = open_empty();
    assert_eq!(upsert(&mut c, doc(1, &[1.0, 2.0], "a"), &host), Ok(1));
    assert_eq!(upsert(&mut c, doc(2, &[1.0, 2.0], "b"), &host), Ok(2));
    assert_eq!(upsert(&mut c, doc(1, &[2.0, 1.0], "c"), &host), Ok(1));
    assert_eq!(c.count(), 2);
    assert_eq!(get(&c, 1).unwrap().text, b"c".to_vec());
    assert_eq!(get(&c, 2).unwrap().text, b"b".to_vec());
}

#[test]
fn the_dimension_is_set_once() {
    let host = TestHost { now: 1 };
    let mut c = open_empty();
    assert_eq!(c.metadata.dimensions, None);
    insert(&mut c, doc(1, &[1.0, 2.0, 3.0], "a"), &host).unwrap();
    assert_eq!(c.metadata.dimensions, Some(3));
    let before = c.persistence.wal.next_seq;
    assert_eq!(
        insert(&mut c, doc(2, &[1.0, 2.0], "b"), &host),
        Err(PiramidError::DimensionMismatch { expected: 3, actual: 2 })
    );
    assert_eq!(c.persistence.wal.next_seq, before);
    assert_eq!(c.count(), 1);
    delete(&mut c, 1, &host).unwrap();
    assert_eq!(c.metadata.dimensions, Some(3));
    assert_eq!(
        insert_batch(&mut c, vec![doc(3, &[1.0, 2.0, 3.0], "c"), doc(4, &[1.0], "d")], &host),
        Err(PiramidError::DimensionMismatch { expected: 3, actual: 1 })
    );
    assert_eq!(c.count(), 0);
    assert_eq!(
        search(&c, &vec![1.0, 2.0], 1, DistanceMetric::Cosine, no_filter(), &host).err(),
        Some(PiramidError::DimensionMismatch { expected: 3, actual: 2 })
    );
    // A batch into an empty collection is held to its first document.
    let mut other = open_empty();
    assert_eq!(
        insert_batch(&mut other, vec![doc(3, &[1.0, 2.0], "c"), doc(4, &[1.0], "d")], &host),
        Err(PiramidError::DimensionMismatch { expected: 2, actual: 1 })
    );
    assert_eq!(other.metadata.dimensions, None);
}

#[test]
fn limits_are_enforced() {
    let host = TestHost { now: 1 };
    let mut config = small_config();
    config.limits.max_vectors = Some(2);
    let mut c = open_with(empty_image(), config);
    insert(&mut c, doc(1, &[1.0, 2.0], "a"), &host).unwrap();
    insert(&mut c, doc(2, &[1.0, 2.0], "b"), &host).unwrap();
    assert_eq!(
        insert(&mut c, doc(3, &[1.0, 2.0], "c"), &host),
        Err(PiramidError::LimitsExceeded(Limit::MaxVectors))
    );
    // Replacing a document adds none.
    assert_eq!(insert(&mut c, doc(2, &[1.0, 2.0], "again"), &host), Ok(2));
    assert_eq!(
        insert_batch(&mut c, vec![doc(2, &[1.0, 2.0], "x")], &host),
        Err(PiramidError::LimitsExceeded(Limit::MaxVectors))
    );

    let mut config = small_config();
    config.limits.max_vector_bytes = Some(52);
    let mut c = open_with(empty_image(), config);
    // 16 + 8 + (8 + 2) + (8 + text) + 8 bytes: a text of 2 bytes fits.
    assert_eq!(insert(&mut c, doc(1, &[1.0, 2.0], "ab"), &host), Ok(1));
    assert_eq!(
        insert(&mut c, doc(2, &[1.0, 2.0], "abc"), &host),
        Err(PiramidError::LimitsExceeded(Limit::MaxVectorBytes))
    );
    assert_eq!(
        upsert(&mut c, doc(1, &[1.0, 2.0], "abc"), &host),
        Err(PiramidError::LimitsExceeded(Limit::MaxVectorBytes))
    );

    let mut config = small_config();
    config.limits.max_bytes = Some(104);
    let mut c = open_with(empty_image(), config);
    assert_eq!(insert(&mut c, doc(1, &[1.0, 2.0], "ab"), &host), Ok(1));
    assert_eq!(insert(&mut c, doc(2, &[1.0, 2.0], "ab"), &host), Ok(2));
    assert_eq!(
        insert(&mut c, doc(3, &[1.0, 2.0], ""), &host),
        Err(PiramidError::LimitsExceeded(Limit::MaxBytes))
    );
    // The place of the document that is replaced does not count where it
    // was the last one.
    assert_eq!(upsert(&mut c, doc(2, &[1.0, 2.0], "cd"), &host), Ok(2));
    assert_eq!(
        upsert(&mut c, doc(1, &[1.0, 2.0], "cd"), &host),
        Err(PiramidError::LimitsExceeded(Limit::MaxBytes))
    );
}

#[test]
fn a_read_only_collection_rejects_writes() {
    let host = TestHost { now: 1 };
    let mut c = open_empty();
    insert(&mut c, doc(1, &[1.0, 2.0], "a"), &host).unwrap();
    c.set_read_only(true);
    assert_eq!(insert(&mut c, doc(2, &[1.0, 2.0], "b"), &host), Err(PiramidError::ReadOnlyMode));
    assert_eq!(upsert(&mut c, doc(1, &[1.0, 2.0], "b"), &host), Err(PiramidError::ReadOnlyMode));
    assert_eq!(delete(&mut c, 1, &host), Err(PiramidError::ReadOnlyMode));
    assert_eq!(delete(&mut c, 2, &host), Ok(false));
    assert_eq!(delete_batch(&mut c, &vec![1], &host), Err(PiramidError::ReadOnlyMode));
    assert_eq!(
        insert_batch(&mut c, vec![doc(2, &[1.0, 2.0], "b")], &host),
        Err(PiramidError::ReadOnlyMode)
    );
    assert_eq!(
        update_metadata(&mut c, 1, Metadata::new(), &host),
        Err(PiramidError::ReadOnlyMode)
    );
    assert_eq!(compact(&mut c, &host).err(), Some(PiramidError::ReadOnlyMode));
    assert_eq!(get(&c, 1).unwrap().text, b"a".to_vec());
    c.set_read_only(false);
    assert_eq!(delete(&mut c, 1, &host), Ok(true));
}

#[test]
fn batches_delete_what_is_there() {
    let host = TestHost { now: 1 };
    let mut c = open_empty();
    let docs: Vec<Document> = (1..=6u128).map(|i| doc(i, &[i as f32, 1.0], "d")).collect();
    assert_eq!(insert_batch(&mut c, docs, &host), Ok(vec![1, 2, 3, 4, 5, 6]));
    assert_eq!(c.persistence.wal.next_seq, 7);
    assert_eq!(delete_batch(&mut c, &vec![2, 4, 4, 9], &host), Ok(2));
    assert_eq!(c.count(), 4);
    assert!(get(&c, 2).is_none());
    assert!(get(&c, 4).is_none());
    assert!(get(&c, 3).is_some());
    // The id that occurs twice is logged twice.
    assert_eq!(c.persistence.wal.next_seq, 10);
    let reopened = open_with(c.image(), small_config());
    assert_eq!(reopened.count(), 4);
    assert!(get(&reopened, 4).is_none());
    // Later documents of a batch replace earlier ones.
    let mut d = open_empty();
    assert_eq!(
        insert_batch(&mut d, vec![doc(1, &[1.0, 2.0], "first"), doc(1, &[2.0, 1.0], "last")], &host),
        Ok(vec![1, 1])
    );
    assert_eq!(d.count(), 1);
    assert_eq!(get(&d, 1).unwrap().text, b"last".to_vec());
    assert_eq!(insert_batch(&mut d, Vec::new(), &host), Ok(Vec::new()));
}

#[test]
fn compaction_removes_dead_space() {
    let host = TestHost { now: 1 };
    let mut c = open_empty();
    for i in 1..=10u128 {
        insert(&mut c, doc(i, &[i as f32, 1.0], "some text"), &host).unwrap();
    }
    for i in 1..=5u128 {
        insert(&mut c, doc(i, &[1.0, i as f32], "other"), &host).unwrap();
        delete(&mut c, i + 5, &host).unwrap();
    }
    let before = c.store.next_offset();
    let stats = compact(&mut c, &host).unwrap();
    assert_eq!(stats.original_entries, 5);
    assert_eq!(stats.compacted_entries, 5);
    assert_eq!(c.count(), 5);
    assert!(c.store.next_offset() < before);
    assert_eq!(c.store.next_offset(), 5 * 55);
    assert_eq!(c.store.region.len(), 4096);
    // The documents lie packed in the order of the table.
    let mut at: u64 = 0;
    for id in c.store.index.ids() {
        let p = c.store.index.get(id).unwrap();
        assert_eq!(p.offset, at);
        at += p.length as u64;
    }
    assert_eq!(at, c.store.next_offset());
    for i in 1..=5u128 {
        assert_eq!(get(&c, i).unwrap().text, b"other".to_vec());
    }
    assert_eq!(c.persistence.wal.lines.len(), 1);
    assert_eq!(c.vector_cache.len(), 5);
    let reopened = open_with(c.image(), small_config());
    assert_eq!(reopened.count(), 5);
}

#[test]
fn caches_are_rebuilt_where_they_diverge() {
    let host = TestHost { now: 1 };
    let mut c = open_empty();
    insert(&mut c, tagged(1, &[1.0, 2.0], "k"), &host).unwrap();
    insert(&mut c, tagged(2, &[2.0, 1.0], "k"), &host).unwrap();
    assert_eq!(c.vectors_view().len(), 2);
    assert_eq!(c.metadata_view().len(), 2);
    assert_eq!(c.cache_usage_bytes(), 2 * (2 + 8));
    assert_eq!(flush(&c), FlushAction::Flush);
    c.clear_caches();
    assert_eq!(c.cache_usage_bytes(), 0);
    assert_eq!(c.vectors_view().len(), 0);
    let hits = search(&c, &vec![1.0, 2.0], 5, DistanceMetric::Cosine, no_filter(), &host).unwrap();
    assert!(hits.is_empty());
    ensure_consistent(&mut c);
    assert_eq!(c.vector_cache.len(), 2);
    assert_eq!(c.vector_cache[&2].values, vec![127, -127]);
    assert_eq!(c.metadata_cache[&1].len(), 1);
    c.vector_cache.remove(&1);
    c.vector_cache.insert(9, quantize(&[0.0, 1.0]));
    ensure_consistent(&mut c);
    assert!(c.vector_cache.contains_key(&1));
    assert!(!c.vector_cache.contains_key(&9));
    c.metadata_cache.clear();
    rebuild(&mut c);
    assert_eq!(c.metadata_cache.len(), 2);
}

#[test]
fn search_ranks_by_the_requested_metric() {
    let host = TestHost { now: 1 };
    let mut c = open_empty();
    insert(&mut c, doc(1, &[1.0, 0.0], "east"), &host).unwrap();
    insert(&mut c, doc(2, &[0.0, 1.0], "north"), &host).unwrap();
    insert(&mut c, doc(3, &[3.0, 1.0], "far east"), &host).unwrap();
    let cosine =
        search(&c, &vec![1.0, 0.1], 3, DistanceMetric::Cosine, no_filter(), &host).unwrap();
    let order: Vec<u128> = cosine.iter().map(|h| h.id).collect();
    assert_eq!(order, vec![1, 3, 2]);
    assert_eq!(cosine[0].text, b"east".to_vec());
    let euclid =
        search(&c, &vec![3.0, 1.0], 2, DistanceMetric::Euclidean, no_filter(), &host).unwrap();
    assert_eq!(euclid.iter().map(|h| h.id).collect::<Vec<_>>(), vec![3, 1]);
    assert!((value_of(euclid[0].score) - 1.0).abs() < 1e-6);
    let none = search(&c, &vec![1.0, 0.0], 0, DistanceMetric::Cosine, no_filter(), &host).unwrap();
    assert!(none.is_empty());
    let batches = search_batch(
        &c,
        &vec![vec![1.0, 0.0], vec![0.0, 1.0]],
        1,
        DistanceMetric::Cosine,
        &host,
    )
    .unwrap();
    assert_eq!(batches.len(), 2);
    assert_eq!(batches[0][0].id, 1);
    assert_eq!(batches[1][0].id, 2);
}

#[test]
fn a_query_of_another_dimension_is_refused() {
    let host = TestHost { now: 1 };
    let mut c = open_empty();
    let query = vec![1.0f32, 0.0];
    // Without a dimension every query is taken.
    assert_eq!(
        search_with_dim(&c, &query, 7, 3, DistanceMetric::Cosine, &no_filter(), &host).unwrap().len(),
        0
    );
    insert(&mut c, doc(1, &[1.0, 0.0], "east"), &host).unwrap();
    insert(&mut c, doc(2, &[0.0, 1.0], "north"), &host).unwrap();
    let hits = search_with_dim(&c, &query, 2, 3, DistanceMetric::Cosine, &no_filter(), &host).unwrap();
    assert_eq!(hits.iter().map(|h| h.id).collect::<Vec<_>>(), vec![1, 2]);
    assert_eq!(
        search_with_dim(&c, &query, 3, 3, DistanceMetric::Cosine, &no_filter(), &host).err(),
        Some(PiramidError::DimensionMismatch { expected: 2, actual: 3 })
    );
    assert_eq!(
        search(&c, &vec![1.0, 0.0, 0.0], 3, DistanceMetric::Cosine, no_filter(), &host).err(),
        Some(PiramidError::DimensionMismatch { expected: 2, actual: 3 })
    );
    let queries = vec![vec![1.0f32, 0.0], vec![0.0, 1.0], vec![1.0, 1.0]];
    let all = search_batch_with_dims(
        &c,
        &queries,
        &vec![2, 2, 2],
        1,
        DistanceMetric::Cosine,
        &no_filter(),
        &host,
    )
    .unwrap();
    assert_eq!(all.len(), 3);
    // The first query that is refused decides.
    assert_eq!(
        search_batch_with_dims(
            &c,
            &queries,
            &vec![2, 5, 4],
            1,
            DistanceMetric::Cosine,
            &no_filter(),
            &host
        )
        .err(),
        Some(PiramidError::DimensionMismatch { expected: 2, actual: 5 })
    );
    assert_eq!(
        search_batch(&c, &vec![vec![1.0, 0.0], vec![1.0]], 1, DistanceMetric::Cosine, &host).err(),
        Some(PiramidError::DimensionMismatch { expected: 2, actual: 1 })
    );
    assert!(search_batch(&c, &Vec::new(), 1, DistanceMetric::Cosine, &host).unwrap().is_empty());
}

#[test]
fn a_fresh_collection_takes_its_first_document() {
    let host = TestHost { now: 1 };
    let mut c = open_empty();
    assert_eq!(c.count(), 0);
    assert_eq!(c.metadata.dimensions, None);
    assert_eq!(c.persistence.wal.next_seq, 1);
    assert_eq!(c.sidecars.wal_meta, 0);
    assert_eq!(c.store.next_offset(), 0);
    let d = doc(9, &[0.1, 0.2, 0.3, 0.4], "hello");
    assert_eq!(insert(&mut c, d, &host), Ok(9));
    assert_eq!(c.count(), 1);
    assert_eq!(c.metadata.vector_count, 1);
    assert_eq!(c.metadata.dimensions, Some(4));
    assert!(c.vector_cache.contains_key(&9));
    assert!(c.metadata_cache.contains_key(&9));
}

#[test]
fn a_batch_lies_behind_what_was_there_one_document_behind_the_other() {
    let host = TestHost { now: 1 };
    let mut c = open_empty();
    insert(&mut c, doc(1, &[1.0, 2.0], "first"), &host).unwrap();
    let end = c.store.next_offset();
    let before = c.store.region[..end as usize].to_vec();
    let docs = vec![doc(2, &[1.0, 2.0], "b"), doc(3, &[1.0, 2.0], "longer text"), doc(4, &[3.0, 4.0], "")];
    insert_batch(&mut c, docs, &host).unwrap();
    let second = c.store.index.get(2).unwrap();
    let third = c.store.index.get(3).unwrap();
    let fourth = c.store.index.get(4).unwrap();
    assert_eq!(second.offset, end);
    assert_eq!(third.offset, second.offset + second.length as u64);
    assert_eq!(fourth.offset, third.offset + third.length as u64);
    assert_eq!(c.store.next_offset(), fourth.offset + fourth.length as u64);
    assert_eq!(third.length, second.length + 10);
    assert_eq!(c.store.index.get(1).unwrap().offset, 0);
    assert_eq!(&c.store.region[..end as usize], &before[..]);
}

#[test]
fn a_filter_drops_hits_and_overfetch_makes_up_for_it() {
    let host = TestHost { now: 1 };
    let mut c = open_empty();
    for i in 1..=10u128 {
        let d = if i > 8 {
            tagged(i, &[1.0, i as f32], "wanted")
        } else {
            doc(i, &[1.0, i as f32], "plain")
        };
        insert(&mut c, d, &host).unwrap();
    }
    let with = |overfetch: usize| SearchParams {
        mode: ExecutionMode::Auto,
        filter: Some(Filter::field("wanted".to_string(), FilterCondition::Exists)),
        filter_overfetch_override: Some(overfetch),
        search_config_override: None,
    };
    let query = vec![1.0, 1.0];
    // The two nearest candidates carry no tag.
    let narrow = search(&c, &query, 2, DistanceMetric::Cosine, with(1), &host).unwrap();
    assert!(narrow.is_empty());
    let wide = search(&c, &query, 2, DistanceMetric::Cosine, with(5), &host).unwrap();
    assert_eq!(wide.iter().map(|h| h.id).collect::<Vec<_>>(), vec![9, 10]);
    assert!(wide[0].metadata.get(&"wanted".to_string()).is_some());
    let one = search(&c, &query, 1, DistanceMetric::Cosine, with(10), &host).unwrap();
    assert_eq!(one.iter().map(|h| h.id).collect::<Vec<_>>(), vec![9]);
}

#[test]
fn duplicates_are_pairs_above_the_threshold() {
    let host = TestHost { now: 1 };
    let mut c = open_empty();
    insert(&mut c, doc(1, &[1.0, 0.0], "a"), &host).unwrap();
    insert(&mut c, doc(2, &[0.0, 1.0], "b"), &host).unwrap();
    insert(&mut c, doc(3, &[1.0, 0.0], "c"), &host).unwrap();
    insert(&mut c, doc(4, &[0.0, 1.0], "d"), &host).unwrap();
    insert(&mut c, doc(5, &[1.0, 0.0], "e"), &host).unwrap();
    let pairs =
        find_duplicates(&c, DistanceMetric::Cosine, key_of(0.99), None, None, None, None, &host);
    let found: Vec<(u128, u128)> = pairs.iter().map(|p| (p.id_a, p.id_b)).collect();
    assert_eq!(found.len(), 4);
    for pair in [(1, 3), (1, 5), (3, 5), (2, 4)] {
        assert!(found.contains(&pair));
    }
    for p in &pairs {
        assert!(value_of(p.score) >= 0.99);
    }
    let limited =
        find_duplicates(&c, DistanceMetric::Cosine, key_of(0.99), Some(1), None, None, None, &host);
    assert_eq!(limited.len(), 1);
    // Each document is asked for four neighbours and is its own nearest:
    // the pair of the two documents that are each other's last choice is
    // never looked at.
    let all =
        find_duplicates(&c, DistanceMetric::Cosine, key_of(-2.0), None, None, None, None, &host);
    assert_eq!(all.len(), 9);
    assert!(!all.iter().any(|p| (p.id_a, p.id_b) == (4, 5)));
    for pair in all.windows(2) {
        assert!(pair[0].score.key >= pair[1].score.key);
    }
    let none =
        find_duplicates(&c, DistanceMetric::Cosine, key_of(1.5), None, None, None, None, &host);
    assert!(none.is_empty());
}

#[test]
fn answers_pair_up_once_and_only_with_live_neighbours() {
    let host = TestHost { now: 1 };
    let mut c = open_empty();
    for i in 1..=3u128 {
        insert(&mut c, doc(i, &[i as f32, 1.0], "x"), &host).unwrap();
    }
    let hit = |id: u128| Scored { id, score: Score::new(7) };
    let asked = vec![
        Answer { id: 2, hits: vec![hit(2), hit(1), hit(9)] },
        Answer { id: 1, hits: vec![hit(2), hit(3)] },
        Answer { id: 3, hits: Vec::new() },
    ];
    assert_eq!(pair_up(&asked, &c.store), vec![(1, 2), (1, 3)]);
    assert_eq!(pair_up(&Vec::new(), &c.store), Vec::<(u128, u128)>::new());
}

#[test]
fn duplicates_are_selected_by_threshold_order_and_limit() {
    let pair = |a: u128, b: u128, key: u32| DuplicateHit { id_a: a, id_b: b, score: Score::new(key) };
    let scored = vec![pair(1, 2, 5), pair(3, 4, 9), pair(5, 6, 5), pair(7, 8, 7), pair(9, 10, 2)];
    assert_eq!(
        select_duplicates(&scored, Score::new(5), None),
        vec![pair(3, 4, 9), pair(7, 8, 7), pair(1, 2, 5), pair(5, 6, 5)]
    );
    assert_eq!(
        select_duplicates(&scored, Score::new(5), Some(3)),
        vec![pair(3, 4, 9), pair(7, 8, 7), pair(1, 2, 5)]
    );
    assert_eq!(select_duplicates(&scored, Score::new(0), Some(9)).len(), 5);
    assert!(select_duplicates(&scored, Score::new(10), None).is_empty());
    assert!(select_duplicates(&scored, Score::new(0), Some(0)).is_empty());
}

#[test]
fn operations_are_counted_until_a_checkpoint_is_due() {
    let host = TestHost { now: 1 };
    let mut config = small_config();
    config.wal.checkpoint_frequency = 3;
    let mut c = open_with(empty_image(), config);
    insert(&mut c, doc(1, &[1.0, 2.0], "a"), &host).unwrap();
    assert_eq!(c.persistence.operation_count, 1);
    let lines = c.persistence.wal.lines.len();
    let seq = c.persistence.wal.next_seq;
    track_operation_at(&mut c, 50);
    assert_eq!(c.persistence.operation_count, 2);
    assert_eq!(c.persistence.wal.lines.len(), lines);
    assert_eq!(c.persistence.wal.next_seq, seq);
    assert_eq!(c.persistence.last_checkpoint_ts, None);
    track_operation_at(&mut c, 60);
    assert_eq!(c.persistence.operation_count, 0);
    assert_eq!(c.persistence.last_checkpoint_ts, Some(60));
    assert_eq!(c.persistence.wal.next_seq, seq + 1);
    assert_eq!(c.sidecars.wal_meta, seq);
    assert_eq!(c.persistence.wal.lines.len(), 1);
    // Without a log nothing is counted.
    let mut config = small_config();
    config.wal = WalConfig::disabled();
    let mut quiet = open_with(empty_image(), config);
    track_operation_at(&mut quiet, 70);
    assert_eq!(quiet.persistence.operation_count, 0);
    assert_eq!(quiet.persistence.last_checkpoint_ts, None);
}

#[test]
fn an_index_built_anew_holds_the_live_documents() {
    let host = TestHost { now: 1 };
    let mut config = small_config();
    config.index = IndexConfig::Hnsw {
        m: 4,
        m_max: 8,
        ef_construction: 16,
        ml: 0,
        metric: DistanceMetric::Cosine,
    };
    let mut c = open_with(empty_image(), config);
    for i in 1..=6u128 {
        insert(&mut c, doc(i, &[i as f32, 1.0], "x"), &host).unwrap();
    }
    delete(&mut c, 2, &host).unwrap();
    match &c.vector_index {
        AnnIndex::Hnsw(h) => {
            assert_eq!(h.nodes.len(), 6);
            assert!(!h.is_live(2));
        }
        _ => panic!("a graph was configured"),
    }
    rebuild_vector_index(&mut c, &host);
    match &c.vector_index {
        AnnIndex::Hnsw(h) => {
            assert_eq!(h.nodes.len(), 5);
            assert!(h.nodes.iter().all(|n| !n.deleted));
            for i in [1u128, 3, 4, 5, 6] {
                assert!(h.is_live(i));
            }
            assert!(!h.is_live(2));
            assert_eq!((h.config.m, h.config.m_max, h.config.ef_construction), (4, 8, 16));
        }
        _ => panic!("a graph was configured"),
    }
}

#[test]
fn unusable_files_do_not_open() {
    let host = TestHost { now: 1 };
    let open = |image: DurableImage| {
        CollectionBuilder::open(
            "x.db",
            "x".to_string(),
            image,
            CollectionOpenOptions { config: small_config() },
            &host,
        )
        .err()
    };
    let mut c = open_empty();
    insert(&mut c, doc(1, &[1.0, 2.0], "a"), &host).unwrap();
    insert(&mut c, doc(2, &[1.0, 2.0], "b"), &host).unwrap();
    assert!(open(c.image()).is_none());

    // The table is gone although the region has grown beyond its first size.
    let mut image = c.image();
    image.index_db = None;
    image.data.resize(5000, 0);
    assert_eq!(open(image), Some(PiramidError::CorruptedData(Corruption::PointerTable)));

    // A document was overwritten.
    let mut image = c.image();
    image.data[20] ^= 0xff;
    image.data[24] = 0xff;
    assert_eq!(open(image), Some(PiramidError::CorruptedData(Corruption::Document)));

    // The data file was cut short.
    let mut image = c.image();
    image.data.truncate(60);
    assert_eq!(open(image), Some(PiramidError::CorruptedData(Corruption::Document)));

    let mut image = c.image();
    image.metadata_db = Some(vec![1, 2, 3]);
    assert_eq!(open(image), Some(PiramidError::CorruptedData(Corruption::Metadata)));

    let mut image = c.image();
    image.metadata_db.as_mut().unwrap()[0] = 9;
    assert_eq!(open(image), Some(PiramidError::CorruptedData(Corruption::SchemaVersion)));

    let mut image = c.image();
    image.wal[0] = WalLine::Header { version: 2 };
    assert_eq!(open(image), Some(PiramidError::CorruptedData(Corruption::WalHeader)));

    let mut image = c.image();
    image.wal.push(WalLine::Malformed);
    assert_eq!(open(image), Some(PiramidError::CorruptedData(Corruption::WalRecord)));

    let mut image = c.image();
    image.wal_meta = Some(u64::MAX - 1);
    assert_eq!(open(image), Some(PiramidError::Io));

    // A pending record has used up the sequence numbers.
    let mut image = c.image();
    let mut last = WalEntry::Delete { id: 1, seq: 0 };
    last.set_seq(u64::MAX - 1);
    image.wal.push(WalLine::Record(last));
    assert_eq!(open(image), Some(PiramidError::Io));

    // A pending record brings a vector of another length than the stored
    // documents have.
    let mut image = c.image();
    let mut odd = WalEntry::insert_of(&doc(3, &[1.0, 2.0, 3.0], "c"));
    odd.set_seq(3);
    image.wal.push(WalLine::Record(odd));
    assert_eq!(open(image), Some(PiramidError::DimensionMismatch { expected: 2, actual: 3 }));

    // A record whose vector has the length of the stored ones is taken in,
    // also where the metadata's snapshot is missing.
    let mut image = c.image();
    image.metadata_db = None;
    let mut fits = WalEntry::insert_of(&doc(3, &[4.0, 5.0], "c"));
    fits.set_seq(3);
    image.wal.push(WalLine::Record(fits));
    assert!(open(image).is_none());
}

#[test]
fn a_collection_without_log_recovers_from_its_snapshots() {
    let host = TestHost { now: 1 };
    let mut config = small_config();
    config.wal = WalConfig::disabled();
    let mut c = open_with(empty_image(), config);
    insert(&mut c, doc(1, &[1.0, 2.0], "a"), &host).unwrap();
    insert(&mut c, doc(2, &[1.0, 2.0], "b"), &host).unwrap();
    delete(&mut c, 1, &host).unwrap();
    assert_eq!(c.persistence.wal.lines.len(), 0);
    assert_eq!(c.persistence.wal.next_seq, 4);
    assert_eq!(checkpoint(&mut c, 5), Ok(()));
    assert_eq!(c.sidecars.wal_meta, 0);
    let reopened = open_with(c.image(), config);
    assert_eq!(reopened.count(), 1);
    assert_eq!(get(&reopened, 2).unwrap().text, b"b".to_vec());
}

#[test]
fn graph_and_inverted_file_collections_search() {
    let host = TestHost { now: 1 };
    for index in [
        IndexConfig::Hnsw {
            m: 8,
            m_max: 16,
            ef_construction: 32,
            ml: 0,
            metric: DistanceMetric::Cosine,
        },
        IndexConfig::Ivf {
            num_clusters: 4,
            num_probes: 2,
            max_iterations: 5,
            metric: DistanceMetric::Cosine,
        },
    ] {
        let mut config = small_config();
        config.index = index;
        let mut c = open_with(empty_image(), config);
        for i in 0..30u128 {
            let angle = i as f32 * 0.1;
            insert(&mut c, doc(i + 1, &[angle.cos(), angle.sin()], "p"), &host).unwrap();
        }
        delete(&mut c, 1, &host).unwrap();
        let hits = search(&c, &vec![1.0, 0.0], 3, DistanceMetric::Cosine, no_filter(), &host)
            .unwrap();
        assert_eq!(hits.iter().map(|h| h.id).collect::<Vec<_>>(), vec![2, 3, 4]);
        let reopened = open_with(c.image(), config);
        let hits = search(&reopened, &vec![1.0, 0.0], 3, DistanceMetric::Cosine, no_filter(), &host)
            .unwrap();
        assert_eq!(hits.iter().map(|h| h.id).collect::<Vec<_>>(), vec![2, 3, 4]);
        // After a checkpoint the snapshot holds the index, tombstone included.
        assert_eq!(checkpoint(&mut c, 5), Ok(()));
        let image = c.image();
        assert!(image.ann_db.is_some());
        let again = open_with(image, config);
        assert_eq!(again.vector_index.index_type(), c.vector_index.index_type());
        if let (AnnIndex::Hnsw(a), AnnIndex::Hnsw(b)) = (&again.vector_index, &c.vector_index) {
            assert_eq!(a.nodes.len(), 30);
            assert_eq!(b.nodes.len(), 30);
            assert!(a.nodes[0].deleted);
            assert_eq!(a.nodes[7].neighbors, b.nodes[7].neighbors);
        }
        let hits =
            search(&again, &vec![1.0, 0.0], 3, DistanceMetric::Cosine, no_filter(), &host).unwrap();
        assert_eq!(hits.iter().map(|h| h.id).collect::<Vec<_>>(), vec![2, 3, 4]);
        // A snapshot that is older than the table is not trusted.
        let mut no_log = config;
        no_log.wal = WalConfig::disabled();
        let mut d = open_with(empty_image(), no_log);
        for i in 0..5u128 {
            insert(&mut d, doc(i + 1, &[1.0, i as f32], "p"), &host).unwrap();
        }
        let stale = open_with(d.image(), no_log);
        let hits =
            search(&stale, &vec![1.0, 0.0], 9, DistanceMetric::Cosine, no_filter(), &host).unwrap();
        assert_eq!(hits.len(), 5);
    }
}

#[test]
fn an_inverted_file_index_is_trained_on_the_cached_vectors() {
    let host = TestHost { now: 1 };
    let mut config = small_config();
    config.index = IndexConfig::Ivf {
        num_clusters: 2,
        num_probes: 2,
        max_iterations: 3,
        metric: DistanceMetric::Euclidean,
    };
    let mut c = open_with(empty_image(), config);
    for (id, v) in [(1u128, [0.0f32, 0.0]), (2, [0.0, 1.0]), (3, [10.0, 10.0]), (4, [10.0, 11.0])] {
        insert(&mut c, doc(id, &v, "x"), &host).unwrap();
    }
    let seq = c.persistence.wal.next_seq;
    train_index(&mut c, &host);
    match &c.vector_index {
        AnnIndex::Ivf(ivf) => {
            assert_eq!(ivf.centroids.len(), 2);
            assert_eq!(ivf.cluster_of.len(), 4);
            assert_eq!(ivf.cluster_of[&1], ivf.cluster_of[&2]);
            assert_eq!(ivf.cluster_of[&3], ivf.cluster_of[&4]);
            assert_ne!(ivf.cluster_of[&1], ivf.cluster_of[&3]);
        }
        _ => panic!("an inverted-file index was configured"),
    }
    assert_eq!(c.count(), 4);
    assert_eq!(c.persistence.wal.next_seq, seq);
    let hits = search(&c, &vec![10.0, 10.5], 2, DistanceMetric::Euclidean, no_filter(), &host).unwrap();
    let mut ids: Vec<u128> = hits.iter().map(|h| h.id).collect();
    ids.sort();
    assert_eq!(ids, vec![3, 4]);
    // A collection with another index does not change.
    let mut flat = open_empty();
    insert(&mut flat, doc(1, &[1.0, 2.0], "x"), &host).unwrap();
    train_index(&mut flat, &host);
    assert!(matches!(flat.vector_index, AnnIndex::Flat(_)));
}

#[test]
fn files_are_written_in_the_order_that_keeps_them_recoverable() {
    assert_eq!(
        write_order(true, false),
        vec![
            DurableWrite::LogAppend,
            DurableWrite::Region,
            DurableWrite::TableSnapshot,
            DurableWrite::IndexSnapshot,
            DurableWrite::MetadataSnapshot,
            DurableWrite::LastCheckpoint,
        ]
    );
    assert_eq!(
        write_order(true, true),
        vec![
            DurableWrite::Region,
            DurableWrite::TableSnapshot,
            DurableWrite::IndexSnapshot,
            DurableWrite::MetadataSnapshot,
            DurableWrite::LastCheckpoint,
            DurableWrite::LogRewrite,
        ]
    );
    assert_eq!(
        write_order(false, true),
        vec![
            DurableWrite::Region,
            DurableWrite::TableSnapshot,
            DurableWrite::IndexSnapshot,
            DurableWrite::MetadataSnapshot,
        ]
    );
}

#[test]
fn sequence_numbers_are_never_handed_out_again() {
    let host = TestHost { now: 1 };
    let mut c = open_empty();
    for i in 1..=3u128 {
        insert(&mut c, doc(i, &[i as f32, 1.0], "x"), &host).unwrap();
    }
    // Records that were logged out of order are all behind the log's counter.
    let mut image = c.image();
    let mut far = WalEntry::Delete { id: 2, seq: 0 };
    far.set_seq(40);
    image.wal.push(WalLine::Record(far));
    let mut near = WalEntry::Delete { id: 3, seq: 0 };
    near.set_seq(7);
    image.wal.push(WalLine::Record(near));
    let mut reopened = open_with(image, small_config());
    assert_eq!(reopened.count(), 1);
    assert_eq!(reopened.sidecars.wal_meta, 41);
    assert_eq!(reopened.persistence.wal.next_seq, 42);
    insert(&mut reopened, doc(9, &[1.0, 1.0], "y"), &host).unwrap();
    assert_eq!(reopened.persistence.wal.next_seq, 43);
    assert!(matches!(
        reopened.persistence.wal.lines.last(),
        Some(WalLine::Record(WalEntry::Insert { id: 9, seq: 42, .. }))
    ));
    // After a checkpoint nothing is pending, and the log goes on behind it.
    checkpoint(&mut reopened, 5).unwrap();
    let again = open_with(reopened.image(), small_config());
    assert_eq!(again.sidecars.wal_meta, reopened.sidecars.wal_meta);
    assert_eq!(again.persistence.wal.next_seq, reopened.sidecars.wal_meta + 1);
    assert_eq!(again.count(), 2);
}

#[test]
fn each_write_logs_its_own_kind_of_record() {
    let host = TestHost { now: 1 };
    let mut c = open_empty();
    let last = |c: &Collection| c.persistence.wal.lines.last().map(|l| match l {
        WalLine::Record(WalEntry::Insert { id, seq, .. }) => ("insert", *id, *seq),
        WalLine::Record(WalEntry::Update { id, seq, .. }) => ("update", *id, *seq),
        WalLine::Record(WalEntry::Delete { id, seq }) => ("delete", *id, *seq),
        WalLine::Record(WalEntry::Checkpoint { seq, .. }) => ("checkpoint", 0, *seq),
        _ => ("other", 0, 0),
    });
    insert(&mut c, doc(1, &[1.0, 2.0], "a"), &host).unwrap();
    assert_eq!(last(&c), Some(("insert", 1, 1)));
    upsert(&mut c, doc(2, &[1.0, 2.0], "b"), &host).unwrap();
    assert_eq!(last(&c), Some(("insert", 2, 2)));
    upsert(&mut c, doc(2, &[2.0, 2.0], "c"), &host).unwrap();
    assert_eq!(last(&c), Some(("update", 2, 3)));
    update_metadata(&mut c, 1, Metadata::new(), &host).unwrap();
    assert_eq!(last(&c), Some(("update", 1, 4)));
    update_vector(&mut c, 1, quantize(&[3.0, 3.0]), &host).unwrap();
    assert_eq!(last(&c), Some(("update", 1, 5)));
    let lines = c.persistence.wal.lines.len();
    delete(&mut c, 7, &host).unwrap();
    assert_eq!(c.persistence.wal.lines.len(), lines);
    delete(&mut c, 2, &host).unwrap();
    assert_eq!(last(&c), Some(("delete", 2, 6)));
    insert_batch(&mut c, vec![doc(5, &[1.0, 1.0], "e"), doc(6, &[1.0, 1.0], "f")], &host).unwrap();
    assert_eq!(last(&c), Some(("insert", 6, 8)));
    delete_batch(&mut c, &vec![6, 9, 5, 6], &host).unwrap();
    assert_eq!(c.persistence.wal.lines.len(), lines + 1 + 2 + 3);
    assert_eq!(last(&c), Some(("delete", 6, 11)));
    assert_eq!(c.persistence.wal.next_seq, 12);
}
