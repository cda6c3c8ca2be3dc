//! The collection's own metadata and its snapshot.

use vstd::prelude::*;
use vstd::string::StringExecFns;
use crate::error::{Corruption, PiramidError};
use crate::storage::wire::{
    enc_text, enc_u32, enc_u64, enc_u8, lemma_parse_text, lemma_parse_u32,
    lemma_parse_u64, lemma_parse_u8, parse_text, parse_u32, parse_u64, parse_u8, put_text,
    put_u32, put_u64, put_u8, take_text, take_u32, take_u64, take_u8,
};

verus! {

/// The schema version that this library writes and reads.
pub const SCHEMA_VERSION: u32 = 1;

/// What a collection records about itself.
#[derive(Debug)]
pub struct CollectionMetadata {
    /// The collection's name.
    pub name: String,
    /// The length of every stored vector, once the first one is in.
    pub dimensions: Option<usize>,
    /// The number of stored vectors.
    pub vector_count: usize,
    /// The schema version the snapshot was written under.
    pub schema_version: u32,
}

/// What a `CollectionMetadata` holds.
pub struct CollectionMetadataView {
    pub name: Seq<char>,
    pub dimensions: Option<usize>,
    pub vector_count: usize,
    pub schema_version: u32,
}

impl View for CollectionMetadata {
    type V = CollectionMetadataView;

    open spec fn view(&self) -> CollectionMetadataView {
        CollectionMetadataView {
            name: self.name@,
            dimensions: self.dimensions,
            vector_count: self.vector_count,
            schema_version: self.schema_version,
        }
    }
}

impl CollectionMetadata {
    /// The metadata of a new, empty collection.
    pub fn new(name: String) -> (r: Self)
        ensures
            r@ == (CollectionMetadataView {
                name: name@,
                dimensions: None,
                vector_count: 0,
                schema_version: SCHEMA_VERSION,
            }),
    {
        CollectionMetadata { name, dimensions: None, vector_count: 0, schema_version: SCHEMA_VERSION }
    }

    /// Fix the dimension, unless it is fixed already: the first insert sets
    /// it, and it never changes.
    pub fn set_dimensions(&mut self, dim: usize)
        ensures
            final(self).dimensions == match old(self).dimensions {
                Some(d) => Some(d),
                None => Some(dim),
            },
            final(self).name == old(self).name,
            final(self).vector_count == old(self).vector_count,
            final(self).schema_version == old(self).schema_version,
    {
        if self.dimensions.is_none() {
            self.dimensions = Some(dim);
        }
    }

    pub fn update_vector_count(&mut self, count: usize)
        ensures
            final(self).vector_count == count,
            final(self).name == old(self).name,
            final(self).dimensions == old(self).dimensions,
            final(self).schema_version == old(self).schema_version,
    {
        self.vector_count = count;
    }

    /// A copy of this metadata.
    pub fn duplicate(&self) -> (r: Self)
        ensures
            r@ == self@,
    {
        CollectionMetadata {
            name: self.name.clone(),
            dimensions: self.dimensions,
            vector_count: self.vector_count,
            schema_version: self.schema_version,
        }
    }
}

/// Check a vector's length against the collection's dimension.
pub fn validate_dimensions(actual: usize, expected: usize) -> (r: Result<(), PiramidError>)
    ensures
        r == if actual == expected {
            Ok::<(), PiramidError>(())
        } else {
            Err::<(), PiramidError>(PiramidError::DimensionMismatch { expected, actual })
        },
{
    if actual == expected {
        Ok(())
    } else {
        Err(PiramidError::DimensionMismatch { expected, actual })
    }
}

/// Whether the snapshot can hold this metadata: its counts fit 64 bits.
pub open spec fn metadata_encodable(m: CollectionMetadataView) -> bool {
    vstd::utf8::encode_utf8(m.name).len() <= u64::MAX
}

/// Binary form of the metadata: the schema version, the name, whether a
/// dimension is set and which, and the vector count.
pub open spec fn enc_collection_metadata(m: CollectionMetadataView) -> Seq<u8> {
    enc_u32(m.schema_version) + enc_text(m.name) + (match m.dimensions {
        Some(d) => enc_u8(1) + enc_u64(d as u64),
        None => enc_u8(0) + enc_u64(0),
    }) + enc_u64(m.vector_count as u64)
}

/// The metadata that `b` is the binary form of.
pub open spec fn parse_collection_metadata(b: Seq<u8>) -> Option<CollectionMetadataView> {
    match parse_u32(b, 0) {
        Some((schema_version, p)) => match parse_text(b, p) {
            Some((name, q)) => match parse_u8(b, q) {
                Some((flag, r)) => match parse_u64(b, r) {
                    Some((dim, s)) => match parse_u64(b, s) {
                        Some((count, end)) => if end == b.len() && flag <= 1 && dim <= usize::MAX
                            && count <= usize::MAX && (flag == 0 ==> dim == 0) {
                            Some(
                                CollectionMetadataView {
                                    name,
                                    dimensions: if flag == 1 {
                                        Some(dim as usize)
                                    } else {
                                        None
                                    },
                                    vector_count: count as usize,
                                    schema_version,
                                },
                            )
                        } else {
                            None
                        },
                        None => None,
                    },
                    None => None,
                },
                None => None,
            },
            None => None,
        },
        None => None,
    }
}

/// A metadata snapshot parses back to the metadata.
pub proof fn lemma_metadata_round_trip(m: CollectionMetadataView)
    requires
        metadata_encodable(m),
    ensures
        parse_collection_metadata(enc_collection_metadata(m)) == Some(m),
{
    let b = enc_collection_metadata(m);
    let none = Seq::<u8>::empty();
    let e1 = enc_u32(m.schema_version);
    let e2 = enc_text(m.name);
    let flag: u8 = if m.dimensions is Some { 1 } else { 0 };
    let dim: u64 = match m.dimensions {
        Some(d) => d as u64,
        None => 0,
    };
    let e3 = enc_u8(flag);
    let e4 = enc_u64(dim);
    let e5 = enc_u64(m.vector_count as u64);
    assert(b =~= e1 + e2 + e3 + e4 + e5);
    lemma_parse_u32(none, m.schema_version, e2 + e3 + e4 + e5);
    assert(b =~= none + e1 + (e2 + e3 + e4 + e5));
    lemma_parse_text(e1, m.name, e3 + e4 + e5);
    assert(b =~= e1 + e2 + (e3 + e4 + e5));
    lemma_parse_u8(e1 + e2, flag, e4 + e5);
    assert(b =~= (e1 + e2) + e3 + (e4 + e5));
    lemma_parse_u64(e1 + e2 + e3, dim, e5);
    assert(b =~= (e1 + e2 + e3) + e4 + e5);
    lemma_parse_u64(e1 + e2 + e3 + e4, m.vector_count as u64, none);
    assert(b =~= (e1 + e2 + e3 + e4) + e5 + none);
}

/// What opening finds in the metadata snapshot (`None`: no such file):
/// nothing, the metadata, or a reason to refuse the collection.
pub open spec fn loaded_metadata(snapshot: Option<Seq<u8>>) -> Result<
    Option<CollectionMetadataView>,
    PiramidError,
> {
    match snapshot {
        None => Ok(None),
        Some(b) => match parse_collection_metadata(b) {
            None => Err(PiramidError::CorruptedData(Corruption::Metadata)),
            Some(m) => if m.schema_version != SCHEMA_VERSION {
                Err(PiramidError::CorruptedData(Corruption::SchemaVersion))
            } else {
                Ok(Some(m))
            },
        },
    }
}

/// The snapshot of the metadata, as it is written beside the data file.
pub fn save_metadata(metadata: &CollectionMetadata) -> (r: Vec<u8>)
    ensures
        r@ == enc_collection_metadata(metadata@),
        parse_collection_metadata(r@) == Some(metadata@),
{
    let mut buf: Vec<u8> = Vec::new();
    put_u32(&mut buf, metadata.schema_version);
    put_text(&mut buf, &metadata.name);
    match metadata.dimensions {
        Some(d) => {
            put_u8(&mut buf, 1);
            put_u64(&mut buf, d as u64);
        },
        None => {
            put_u8(&mut buf, 0);
            put_u64(&mut buf, 0);
        },
    }
    put_u64(&mut buf, metadata.vector_count as u64);
    assert(buf@ =~= enc_collection_metadata(metadata@));
    proof {
        lemma_metadata_round_trip(metadata@);
    }
    buf
}

/// Read the metadata snapshot (`None`: no such file).
pub fn load_metadata(snapshot: Option<&[u8]>) -> (r: Result<Option<CollectionMetadata>, PiramidError>)
    ensures
        match r {
            Ok(Some(m)) => loaded_metadata(
                match snapshot {
                    Some(b) => Some(b@),
                    None => None,
                },
            ) == Ok::<Option<CollectionMetadataView>, PiramidError>(Some(m@)),
            Ok(None) => snapshot is None,
            Err(e) => loaded_metadata(
                match snapshot {
                    Some(b) => Some(b@),
                    None => None,
                },
            ) == Err::<Option<CollectionMetadataView>, PiramidError>(e),
        },
{
    let b = match snapshot {
        Some(b) => b,
        None => { return Ok(None); },
    };
    let corrupt = Err(PiramidError::CorruptedData(Corruption::Metadata));
    let (schema_version, p) = match take_u32(b, 0) {
        Some(t) => t,
        None => { return corrupt; },
    };
    let (name, q) = match take_text(b, p) {
        Some(t) => t,
        None => { return corrupt; },
    };
    let (flag, r) = match take_u8(b, q) {
        Some(t) => t,
        None => { return corrupt; },
    };
    let (dim, s) = match take_u64(b, r) {
        Some(t) => t,
        None => { return corrupt; },
    };
    let (count, end) = match take_u64(b, s) {
        Some(t) => t,
        None => { return corrupt; },
    };
    if end != b.len() || flag > 1 || dim > usize::MAX as u64 || count > usize::MAX as u64 || (flag
        == 0 && dim != 0) {
        return corrupt;
    }
    if schema_version != SCHEMA_VERSION {
        return Err(PiramidError::CorruptedData(Corruption::SchemaVersion));
    }
    Ok(
        Some(
            CollectionMetadata {
                name,
                dimensions: if flag == 1 {
                    Some(dim as usize)
                } else {
                    None
                },
                vector_count: count as usize,
                schema_version,
            },
        ),
    )
}

/// Path of the metadata snapshot of the collection at `collection_path`.
pub fn get_metadata_path(collection_path: &str) -> (r: String)
    ensures
        r@ == collection_path@ + ".metadata.db"@,
{
    String::from_str(collection_path).concat(".metadata.db")
}

/// Path of the write-ahead log of the collection at `storage_path`.
pub fn get_wal_path(storage_path: &str) -> (r: String)
    ensures
        r@ == storage_path@ + ".wal.db"@,
{
    String::from_str(storage_path).concat(".wal.db")
}

/// Path of the entry-pointer table snapshot of the collection at `path`.
pub fn get_index_path(path: &str) -> (r: String)
    ensures
        r@ == path@ + ".index.db"@,
{
    String::from_str(path).concat(".index.db")
}

/// Path of the file that records the last checkpoint of the collection at
/// `path`.
pub fn wal_meta_path(path: &str) -> (r: String)
    ensures
        r@ == path@ + ".wal.meta"@,
{
    String::from_str(path).concat(".wal.meta")
}

} // verus!
