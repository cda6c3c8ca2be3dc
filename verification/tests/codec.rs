use piramid::error::{Corruption, PiramidError};
use piramid::metadata::{Metadata, MetadataScalar, MetadataValue};
use piramid::quantization::QuantizedVector;
use piramid::storage::codec::{decode_document, encode_document};
use piramid::storage::document::{Document, UUID_V4_BITS, UUID_V4_MASK};
use piramid::storage::persistence::index::{load_index, save_index, EntryPointer, PointerTable};
use piramid::storage::persistence::metadata::{
    get_index_path, get_metadata_path, get_wal_path, load_metadata, save_metadata,
    validate_dimensions, wal_meta_path, CollectionMetadata, SCHEMA_VERSION,
};
use piramid::storage::persistence::mmap::{
    ensure_file_size, grow_mmap_if_needed, read_window, warm_mmap, write_at,
};
use piramid::storage::store::DocumentStore;
use piramid::storage::wire::{
    put_bytes, put_i8s, put_text, put_u128, put_u32, put_u64, put_u8, take_bytes, take_i8s,
    take_text, take_u128, take_u32, take_u64, take_u8,
};

fn rich_metadata() -> Metadata {
    let mut m = Metadata::new();
    m.insert("title".to_string(), MetadataValue::String("héllo wörld".to_string()));
    m.insert("year".to_string(), MetadataValue::Integer(-1984));
    m.insert("score".to_string(), MetadataValue::Float(0.25f64.to_bits()));
    m.insert("draft".to_string(), MetadataValue::Boolean(true));
    m.insert("nothing".to_string(), MetadataValue::Null);
    m.insert(
        "tags".to_string(),
        MetadataValue::Array(vec![
            MetadataScalar::String("a".to_string()),
            MetadataScalar::Integer(i64::MIN),
            MetadataScalar::Float(f64::NAN.to_bits()),
            MetadataScalar::Boolean(false),
            MetadataScalar::Null,
        ]),
    );
    m
}

fn same_scalar(a: &MetadataScalar, b: &MetadataScalar) -> bool {
    match (a, b) {
        (MetadataScalar::String(x), MetadataScalar::String(y)) => x == y,
        (MetadataScalar::Integer(x), MetadataScalar::Integer(y)) => x == y,
        (MetadataScalar::Float(x), MetadataScalar::Float(y)) => x == y,
        (MetadataScalar::Boolean(x), MetadataScalar::Boolean(y)) => x == y,
        (MetadataScalar::Null, MetadataScalar::Null) => true,
        _ => false,
    }
}

fn same_value(a: &MetadataValue, b: &MetadataValue) -> bool {
    match (a, b) {
        (MetadataValue::String(x), MetadataValue::String(y)) => x == y,
        (MetadataValue::Integer(x), MetadataValue::Integer(y)) => x == y,
        (MetadataValue::Float(x), MetadataValue::Float(y)) => x == y,
        (MetadataValue::Boolean(x), MetadataValue::Boolean(y)) => x == y,
        (MetadataValue::Null, MetadataValue::Null) => true,
        (MetadataValue::Array(x), MetadataValue::Array(y)) => {
            x.len() == y.len() && x.iter().zip(y).all(|(p, q)| same_scalar(p, q))
        }
        _ => false,
    }
}

fn same_document(a: &Document, b: &Document) -> bool {
    a.id == b.id
        && a.vector.values == b.vector.values
        && a.vector.min == b.vector.min
        && a.vector.max == b.vector.max
        && a.text == b.text
        && a.metadata.entries.len() == b.metadata.entries.len()
        && a.metadata.entries.iter().zip(&b.metadata.entries).all(|(x, y)| {
            x.key == y.key && same_value(&x.value, &y.value)
        })
}

#[test]
fn integers_are_little_endian() {
    let mut buf = Vec::new();
    put_u8(&mut buf, 0xab);
    put_u32(&mut buf, 0x0102_0304);
    put_u64(&mut buf, 0x0102_0304_0506_0708);
    put_u128(&mut buf, 1);
    assert_eq!(&buf[0..1], &[0xab]);
    assert_eq!(&buf[1..5], &[4, 3, 2, 1]);
    assert_eq!(&buf[5..13], &[8, 7, 6, 5, 4, 3, 2, 1]);
    assert_eq!(buf[13], 1);
    assert_eq!(buf.len(), 29);
    assert_eq!(take_u8(&buf, 0), Some((0xab, 1)));
    assert_eq!(take_u32(&buf, 1), Some((0x0102_0304, 5)));
    assert_eq!(take_u64(&buf, 5), Some((0x0102_0304_0506_0708, 13)));
    assert_eq!(take_u128(&buf, 13), Some((1, 29)));
    assert_eq!(take_u8(&buf, 29), None);
    assert_eq!(take_u32(&buf, 26), None);
    assert_eq!(take_u64(&buf, 22), None);
    assert_eq!(take_u128(&buf, 14), None);
    assert_eq!(take_u64(&buf, usize::MAX), None);
}

#[test]
fn strings_are_length_prefixed() {
    let mut buf = Vec::new();
    put_bytes(&mut buf, b"abc");
    assert_eq!(buf, vec![3, 0, 0, 0, 0, 0, 0, 0, b'a', b'b', b'c']);
    assert_eq!(take_bytes(&buf, 0), Some((b"abc".to_vec(), 11)));
    assert_eq!(take_bytes(&buf[..10], 0), None);

    let mut signed = Vec::new();
    put_i8s(&mut signed, &vec![-127, -1, 0, 127]);
    assert_eq!(&signed[8..], &[129, 255, 0, 127]);
    assert_eq!(take_i8s(&signed, 0), Some((vec![-127, -1, 0, 127], 12)));

    let mut text = Vec::new();
    put_text(&mut text, &"héllo".to_string());
    assert_eq!(text.len(), 8 + 6);
    assert_eq!(take_text(&text, 0), Some(("héllo".to_string(), 14)));
}

#[test]
fn bytes_that_are_no_utf8_are_no_text() {
    let mut buf = Vec::new();
    put_bytes(&mut buf, &[0xff, 0xfe]);
    assert_eq!(take_bytes(&buf, 0), Some((vec![0xff, 0xfe], 10)));
    assert_eq!(take_text(&buf, 0), None);
    let mut cut = Vec::new();
    put_bytes(&mut cut, &"é".as_bytes()[..1]);
    assert_eq!(take_text(&cut, 0), None);
}

#[test]
fn document_layout() {
    let d = Document::with_id(
        1,
        QuantizedVector::new(vec![-127, 0, 127], 1.0f32.to_bits(), 3.0f32.to_bits()),
        b"hi".to_vec(),
        Metadata::new(),
    );
    let bytes = encode_document(&d);
    let mut expected = vec![1u8];
    expected.extend_from_slice(&[0; 15]);
    expected.extend_from_slice(&1.0f32.to_bits().to_le_bytes());
    expected.extend_from_slice(&3.0f32.to_bits().to_le_bytes());
    expected.extend_from_slice(&3u64.to_le_bytes());
    expected.extend_from_slice(&[129, 0, 127]);
    expected.extend_from_slice(&2u64.to_le_bytes());
    expected.extend_from_slice(b"hi");
    expected.extend_from_slice(&0u64.to_le_bytes());
    assert_eq!(bytes, expected);
    assert_eq!(bytes.len(), 53);
}

#[test]
fn decoding_undoes_encoding() {
    let d = Document::with_id(
        0xa1a2_a3a4_b1b2_c1c2_d1d2_d3d4_d5d6_d7d8,
        QuantizedVector::new(vec![-127, -5, 0, 99, 127], (-1.5f32).to_bits(), 2.5f32.to_bits()),
        vec![0, 255, 10, 13],
        rich_metadata(),
    );
    let back = decode_document(&encode_document(&d)).unwrap();
    assert!(same_document(&d, &back));
    let empty = Document::with_id(0, QuantizedVector::empty(), Vec::new(), Metadata::new());
    let back = decode_document(&encode_document(&empty)).unwrap();
    assert!(same_document(&empty, &back));
    assert_eq!(back.vector.dim(), 0);
}

#[test]
fn damaged_documents_do_not_decode() {
    let d = Document::with_id(
        5,
        QuantizedVector::new(vec![1, 2], 0, 0),
        b"text".to_vec(),
        rich_metadata(),
    );
    let bytes = encode_document(&d);
    assert!(decode_document(&bytes).is_some());
    assert!(decode_document(&bytes[..bytes.len() - 1]).is_none());
    let mut longer = bytes.clone();
    longer.push(0);
    assert!(decode_document(&longer).is_none());
    assert!(decode_document(&[]).is_none());
    // An unknown tag where the first value starts.
    let plain = Document::with_id(5, QuantizedVector::new(vec![1, 2], 0, 0), Vec::new(), {
        let mut m = Metadata::new();
        m.insert("k".to_string(), MetadataValue::Null);
        m
    });
    let mut tagged = encode_document(&plain);
    let last = tagged.len() - 1;
    assert_eq!(tagged[last], 4);
    tagged[last] = 9;
    assert!(decode_document(&tagged).is_none());
    // A truth value that is neither 0 nor 1.
    let truth = Document::with_id(5, QuantizedVector::new(vec![1, 2], 0, 0), Vec::new(), {
        let mut m = Metadata::new();
        m.insert("k".to_string(), MetadataValue::Boolean(true));
        m
    });
    let mut bent = encode_document(&truth);
    let last = bent.len() - 1;
    assert_eq!(bent[last], 1);
    bent[last] = 2;
    assert!(decode_document(&bent).is_none());
}

#[test]
fn fresh_ids_are_version_4() {
    let a = Document::new(QuantizedVector::empty(), Vec::new());
    let b = Document::with_metadata(QuantizedVector::empty(), b"x".to_vec(), rich_metadata());
    assert_eq!(a.id & UUID_V4_MASK, UUID_V4_BITS);
    assert_eq!(b.id & UUID_V4_MASK, UUID_V4_BITS);
    assert_ne!(a.id, b.id);
    assert_eq!(a.metadata.len(), 0);
    assert_eq!(b.metadata.len(), 6);
    assert_eq!(b.text, b"x".to_vec());
}

#[test]
fn metadata_is_a_mapping() {
    let mut m = Metadata::new();
    assert!(m.is_empty());
    m.insert("a".to_string(), MetadataValue::Integer(1));
    m.insert("b".to_string(), MetadataValue::Integer(2));
    m.insert("a".to_string(), MetadataValue::Integer(3));
    assert_eq!(m.len(), 2);
    assert!(matches!(m.get(&"a".to_string()), Some(MetadataValue::Integer(3))));
    assert!(matches!(m.get(&"b".to_string()), Some(MetadataValue::Integer(2))));
    assert!(m.get(&"c".to_string()).is_none());
    let copy = m.duplicate();
    assert_eq!(copy.len(), 2);
    assert!(matches!(copy.get(&"a".to_string()), Some(MetadataValue::Integer(3))));
}

#[test]
fn pointer_table_is_a_mapping() {
    let mut t = PointerTable::new();
    assert!(t.is_empty());
    assert_eq!(t.next_offset(), 0);
    t.insert(7, EntryPointer::new(0, 10));
    t.insert(9, EntryPointer::new(10, 5));
    t.insert(7, EntryPointer::new(15, 20));
    assert_eq!(t.len(), 2);
    assert_eq!(t.get(7), Some(EntryPointer::new(15, 20)));
    assert_eq!(t.get(9), Some(EntryPointer::new(10, 5)));
    assert_eq!(t.get(8), None);
    assert!(t.contains_key(9));
    assert_eq!(t.next_offset(), 35);
    assert_eq!(t.next_offset_without(7), 15);
    assert_eq!(t.ids(), vec![7, 9]);
    assert!(t.remove(7));
    assert!(!t.remove(7));
    assert_eq!(t.next_offset(), 15);
    assert_eq!(t.len(), 1);
    t.clear();
    assert!(t.is_empty());
}

#[test]
fn table_snapshot_round_trip() {
    let mut t = PointerTable::new();
    t.insert(1, EntryPointer::new(0, 53));
    t.insert(u128::MAX, EntryPointer::new(53, u32::MAX));
    let bytes = save_index(&t);
    assert_eq!(bytes.len(), 8 + 2 * 28);
    assert_eq!(&bytes[..8], &2u64.to_le_bytes());
    let back = PointerTable::decode(&bytes).unwrap();
    assert_eq!(back.len(), 2);
    assert_eq!(back.get(1), Some(EntryPointer::new(0, 53)));
    assert_eq!(back.get(u128::MAX), Some(EntryPointer::new(53, u32::MAX)));
    assert!(PointerTable::decode(&bytes[..bytes.len() - 1]).is_none());
    // The same id in two rows is no table.
    let mut twice = Vec::new();
    twice.extend_from_slice(&2u64.to_le_bytes());
    for _ in 0..2 {
        twice.extend_from_slice(&7u128.to_le_bytes());
        twice.extend_from_slice(&0u64.to_le_bytes());
        twice.extend_from_slice(&4u32.to_le_bytes());
    }
    assert!(PointerTable::decode(&twice).is_none());
}

#[test]
fn a_missing_table_is_empty_or_corrupt() {
    let mut t = PointerTable::new();
    t.insert(1, EntryPointer::new(0, 53));
    let bytes = save_index(&t);
    assert_eq!(load_index(Some(&bytes), 5000, 4096).unwrap().len(), 1);
    assert!(load_index(None, 4096, 4096).unwrap().is_empty());
    assert!(load_index(Some(&[1, 2, 3]), 4096, 4096).unwrap().is_empty());
    assert_eq!(
        load_index(None, 4097, 4096).err(),
        Some(PiramidError::CorruptedData(Corruption::PointerTable))
    );
    assert_eq!(
        load_index(Some(&[1, 2, 3]), 4097, 4096).err(),
        Some(PiramidError::CorruptedData(Corruption::PointerTable))
    );
}

#[test]
fn collection_metadata_snapshot() {
    let mut m = CollectionMetadata::new("docs".to_string());
    assert_eq!(m.schema_version, SCHEMA_VERSION);
    assert_eq!(m.dimensions, None);
    m.set_dimensions(4);
    m.set_dimensions(9);
    assert_eq!(m.dimensions, Some(4));
    m.update_vector_count(12);
    let bytes = save_metadata(&m);
    let back = load_metadata(Some(&bytes)).unwrap().unwrap();
    assert_eq!(back.name, "docs");
    assert_eq!(back.dimensions, Some(4));
    assert_eq!(back.vector_count, 12);
    assert!(load_metadata(None).unwrap().is_none());
    assert_eq!(
        load_metadata(Some(&bytes[..bytes.len() - 1])).err(),
        Some(PiramidError::CorruptedData(Corruption::Metadata))
    );
    let mut other = bytes.clone();
    other[0] = 2;
    assert_eq!(
        load_metadata(Some(&other)).err(),
        Some(PiramidError::CorruptedData(Corruption::SchemaVersion))
    );
    assert_eq!(validate_dimensions(4, 4), Ok(()));
    assert_eq!(
        validate_dimensions(3, 4),
        Err(PiramidError::DimensionMismatch { expected: 4, actual: 3 })
    );
}

#[test]
fn sidecar_paths() {
    assert_eq!(get_wal_path("data/docs.db"), "data/docs.db.wal.db");
    assert_eq!(get_metadata_path("data/docs.db"), "data/docs.db.metadata.db");
    assert_eq!(get_index_path("data/docs.db"), "data/docs.db.index.db");
    assert_eq!(wal_meta_path("data/docs.db"), "data/docs.db.wal.meta");
}

#[test]
fn region_grows_to_twice_what_is_asked() {
    let mut region = vec![7u8; 10];
    assert_eq!(grow_mmap_if_needed(&mut region, 10), Ok(()));
    assert_eq!(region.len(), 10);
    assert_eq!(grow_mmap_if_needed(&mut region, 25), Ok(()));
    assert_eq!(region.len(), 50);
    assert_eq!(&region[..10], &[7u8; 10]);
    assert_eq!(ensure_file_size(&mut region, 20), Ok(()));
    assert_eq!(region.len(), 50);
    assert_eq!(ensure_file_size(&mut region, 64), Ok(()));
    assert_eq!(region.len(), 64);
    assert_eq!(&region[..10], &[7u8; 10]);
    write_at(&mut region, 60, &[1, 2, 3, 4]);
    assert_eq!(&region[58..], &[0, 0, 1, 2, 3, 4]);
    assert_eq!(read_window(&region, &EntryPointer::new(60, 4)), Ok(&[1u8, 2, 3, 4][..]));
    assert_eq!(
        read_window(&region, &EntryPointer::new(61, 4)),
        Err(PiramidError::OutOfBounds)
    );
    assert_eq!(
        read_window(&region, &EntryPointer::new(u64::MAX, 1)),
        Err(PiramidError::OutOfBounds)
    );
}

#[test]
fn warming_touches_every_page_and_the_last_byte() {
    assert_eq!(warm_mmap(&[]), 0);
    assert_eq!(warm_mmap(&[0u8; 1]), 2);
    assert_eq!(warm_mmap(&vec![0u8; 4096]), 2);
    assert_eq!(warm_mmap(&vec![0u8; 4097]), 3);
    assert_eq!(warm_mmap(&vec![0u8; 3 * 4096]), 4);
}

#[test]
fn store_appends_behind_the_last_document() {
    let mut store = DocumentStore::new(vec![0u8; 64]);
    assert_eq!(store.len(), 0);
    let a = Document::with_id(1, QuantizedVector::new(vec![1, 2, 3], 0, 0), b"a".to_vec(), Metadata::new());
    let b = Document::with_id(2, QuantizedVector::new(vec![4, 5, 6], 0, 0), b"bb".to_vec(), Metadata::new());
    let pa = store.append(&a).unwrap();
    assert_eq!((pa.offset, pa.length), (0, 52));
    assert_eq!(store.region.len(), 64);
    let pb = store.append(&b).unwrap();
    assert_eq!((pb.offset, pb.length), (52, 53));
    assert_eq!(store.region.len(), 210);
    assert_eq!(store.next_offset(), 105);
    assert!(same_document(&store.get(1).unwrap(), &a));
    assert!(same_document(&store.read(&pb).unwrap(), &b));
    assert_eq!(store.read(&EntryPointer::new(200, 53)).err(), Some(PiramidError::OutOfBounds));
    assert_eq!(
        store.read(&EntryPointer::new(1, 52)).err(),
        Some(PiramidError::CorruptedData(Corruption::Document))
    );
    assert!(store.remove(2));
    assert!(!store.contains(2));
    assert_eq!(store.next_offset(), 52);
    assert_eq!(store.next_offset_without(1), 0);
    // The next document takes the place of the one that was removed.
    let pc = store.append(&b).unwrap();
    assert_eq!(pc.offset, 52);
    assert_eq!(store.reserve(1000), Ok(()));
    assert_eq!(store.region.len(), 2000);
    assert!(same_document(&store.get(2).unwrap(), &b));
}

#[test]
fn the_table_finds_every_row_after_rows_have_left() {
    let mut table = PointerTable::new();
    for id in 1..=6u128 {
        table.insert(id, EntryPointer::new(id as u64 * 10, 10));
    }
    assert!(table.remove(2));
    assert!(!table.remove(2));
    assert!(table.remove(5));
    assert_eq!(table.ids(), vec![1, 3, 4, 6]);
    for id in [1u128, 3, 4, 6] {
        assert_eq!(table.get(id), Some(EntryPointer::new(id as u64 * 10, 10)));
    }
    assert_eq!(table.get(2), None);
    assert!(!table.contains_key(5));
    // An id that comes again takes the last row; one that is there keeps its row.
    table.insert(2, EntryPointer::new(500, 7));
    table.insert(3, EntryPointer::new(600, 8));
    assert_eq!(table.ids(), vec![1, 3, 4, 6, 2]);
    assert_eq!(table.get(3), Some(EntryPointer::new(600, 8)));
    assert_eq!(table.get(2), Some(EntryPointer::new(500, 7)));
    assert_eq!(table.next_offset(), 608);
    let back = PointerTable::decode(&table.encode()).unwrap();
    assert_eq!(back.ids(), table.ids());
    for id in table.ids() {
        assert_eq!(back.get(id), table.get(id));
    }
    table.clear();
    assert!(table.is_empty());
    assert_eq!(table.get(1), None);
}
