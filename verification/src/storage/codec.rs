//! The binary form of a document.
//!
//! A document is written as its id (16 bytes), its vector (the two bounds,
//! four bytes each, then the length-prefixed values), its length-prefixed
//! text, and its metadata: the number of entries, then for each entry the
//! length-prefixed key and the value. A value starts with a tag byte; an
//! array holds its count and then its scalars. All integers are
//! little-endian; all lengths and counts take eight bytes.

use vstd::prelude::*;
use vstd::utf8::*;
use crate::metadata::{
    entry_views, scalar_views, EntryView, Metadata, MetadataEntry, MetadataScalar, MetadataValue,
    ScalarView, ValueView,
};
use crate::quantization::{QuantizedVector, QuantizedVectorView};
use crate::storage::document::{Document, DocumentView};
use crate::storage::wire::{
    enc_bytes, enc_i8s, enc_text, enc_u128, enc_u32, enc_u64, enc_u8, lemma_parse_bytes,
    lemma_parse_i8s, lemma_parse_text, lemma_parse_u128, lemma_parse_u32, lemma_parse_u64,
    lemma_parse_u8, parse_bytes, parse_i8s, parse_text, parse_u128, parse_u32, parse_u64,
    parse_u8, put_bytes, put_i8s, put_text, put_u128, put_u32, put_u64, put_u8, take_bytes,
    take_i8s, take_text, take_u128, take_u32, take_u64, take_u8,
};

verus! {

pub const TAG_TEXT: u8 = 0;

pub const TAG_INTEGER: u8 = 1;

pub const TAG_FLOAT: u8 = 2;

pub const TAG_BOOLEAN: u8 = 3;

pub const TAG_NULL: u8 = 4;

pub const TAG_ARRAY: u8 = 5;

/// Whether a scalar's text is short enough for its length to be written.
pub open spec fn scalar_encodable(v: ScalarView) -> bool {
    v matches ScalarView::Text(s) ==> encode_utf8(s).len() <= u64::MAX
}

pub open spec fn scalars_encodable(s: Seq<ScalarView>) -> bool {
    forall|i: int| 0 <= i < s.len() ==> scalar_encodable(#[trigger] s[i])
}

pub open spec fn value_encodable(v: ValueView) -> bool {
    match v {
        ValueView::Text(s) => encode_utf8(s).len() <= u64::MAX,
        ValueView::Array(a) => a.len() <= u64::MAX && scalars_encodable(a),
        _ => true,
    }
}

pub open spec fn entry_encodable(e: EntryView) -> bool {
    encode_utf8(e.key).len() <= u64::MAX && value_encodable(e.value)
}

pub open spec fn entries_encodable(s: Seq<EntryView>) -> bool {
    forall|i: int| 0 <= i < s.len() ==> entry_encodable(#[trigger] s[i])
}

/// Whether every length in the document fits the eight bytes it is written
/// in. Every document in memory does.
pub open spec fn document_encodable(d: DocumentView) -> bool {
    &&& d.vector.values.len() <= u64::MAX
    &&& d.text.len() <= u64::MAX
    &&& d.metadata.len() <= u64::MAX
    &&& entries_encodable(d.metadata)
}

pub open spec fn enc_bool(b: bool) -> Seq<u8> {
    enc_u8(if b { 1u8 } else { 0u8 })
}

pub open spec fn enc_scalar(v: ScalarView) -> Seq<u8> {
    match v {
        ScalarView::Text(s) => enc_u8(TAG_TEXT) + enc_text(s),
        ScalarView::Integer(i) => enc_u8(TAG_INTEGER) + enc_u64(i as u64),
        ScalarView::Float(f) => enc_u8(TAG_FLOAT) + enc_u64(f),
        ScalarView::Boolean(b) => enc_u8(TAG_BOOLEAN) + enc_bool(b),
        ScalarView::Null => enc_u8(TAG_NULL),
    }
}

pub open spec fn enc_scalars(s: Seq<ScalarView>) -> Seq<u8>
    decreases s.len(),
{
    if s.len() == 0 {
        Seq::<u8>::empty()
    } else {
        enc_scalars(s.drop_last()) + enc_scalar(s.last())
    }
}

pub open spec fn enc_value(v: ValueView) -> Seq<u8> {
    match v {
        ValueView::Text(s) => enc_u8(TAG_TEXT) + enc_text(s),
        ValueView::Integer(i) => enc_u8(TAG_INTEGER) + enc_u64(i as u64),
        ValueView::Float(f) => enc_u8(TAG_FLOAT) + enc_u64(f),
        ValueView::Boolean(b) => enc_u8(TAG_BOOLEAN) + enc_bool(b),
        ValueView::Null => enc_u8(TAG_NULL),
        ValueView::Array(a) => enc_u8(TAG_ARRAY) + enc_u64(a.len() as u64) + enc_scalars(a),
    }
}

pub open spec fn enc_entry(e: EntryView) -> Seq<u8> {
    enc_text(e.key) + enc_value(e.value)
}

pub open spec fn enc_entries(s: Seq<EntryView>) -> Seq<u8>
    decreases s.len(),
{
    if s.len() == 0 {
        Seq::<u8>::empty()
    } else {
        enc_entries(s.drop_last()) + enc_entry(s.last())
    }
}

pub open spec fn enc_metadata(m: Seq<EntryView>) -> Seq<u8> {
    enc_u64(m.len() as u64) + enc_entries(m)
}

pub open spec fn enc_vector(v: QuantizedVectorView) -> Seq<u8> {
    enc_u32(v.min) + enc_u32(v.max) + enc_i8s(v.values)
}

/// The binary form of a document.
pub open spec fn enc_document(d: DocumentView) -> Seq<u8> {
    enc_u128(d.id) + enc_vector(d.vector) + enc_bytes(d.text) + enc_metadata(d.metadata)
}

pub open spec fn parse_bool(b: Seq<u8>, pos: int) -> Option<(bool, int)> {
    match parse_u8(b, pos) {
        Some((x, p)) => if x == 0 {
            Some((false, p))
        } else if x == 1 {
            Some((true, p))
        } else {
            None
        },
        None => None,
    }
}

pub open spec fn parse_scalar(b: Seq<u8>, pos: int) -> Option<(ScalarView, int)> {
    match parse_u8(b, pos) {
        Some((tag, p)) => if tag == TAG_TEXT {
            match parse_text(b, p) {
                Some((s, q)) => Some((ScalarView::Text(s), q)),
                None => None,
            }
        } else if tag == TAG_INTEGER {
            match parse_u64(b, p) {
                Some((x, q)) => Some((ScalarView::Integer(x as i64), q)),
                None => None,
            }
        } else if tag == TAG_FLOAT {
            match parse_u64(b, p) {
                Some((x, q)) => Some((ScalarView::Float(x), q)),
                None => None,
            }
        } else if tag == TAG_BOOLEAN {
            match parse_bool(b, p) {
                Some((x, q)) => Some((ScalarView::Boolean(x), q)),
                None => None,
            }
        } else if tag == TAG_NULL {
            Some((ScalarView::Null, p))
        } else {
            None
        },
        None => None,
    }
}

/// `n` scalars, one behind the other, from `pos` on.
pub open spec fn parse_scalars(b: Seq<u8>, pos: int, n: nat) -> Option<(Seq<ScalarView>, int)>
    decreases n,
{
    if n == 0 {
        Some((Seq::<ScalarView>::empty(), pos))
    } else {
        match parse_scalars(b, pos, (n - 1) as nat) {
            Some((items, p)) => match parse_scalar(b, p) {
                Some((x, q)) => Some((items.push(x), q)),
                None => None,
            },
            None => None,
        }
    }
}

pub open spec fn parse_value(b: Seq<u8>, pos: int) -> Option<(ValueView, int)> {
    match parse_u8(b, pos) {
        Some((tag, p)) => if tag == TAG_ARRAY {
            match parse_u64(b, p) {
                Some((n, q)) => match parse_scalars(b, q, n as nat) {
                    Some((items, r)) => Some((ValueView::Array(items), r)),
                    None => None,
                },
                None => None,
            }
        } else {
            match parse_scalar(b, pos) {
                Some((ScalarView::Text(s), q)) => Some((ValueView::Text(s), q)),
                Some((ScalarView::Integer(i), q)) => Some((ValueView::Integer(i), q)),
                Some((ScalarView::Float(f), q)) => Some((ValueView::Float(f), q)),
                Some((ScalarView::Boolean(x), q)) => Some((ValueView::Boolean(x), q)),
                Some((ScalarView::Null, q)) => Some((ValueView::Null, q)),
                None => None,
            }
        },
        None => None,
    }
}

pub open spec fn parse_entry(b: Seq<u8>, pos: int) -> Option<(EntryView, int)> {
    match parse_text(b, pos) {
        Some((key, p)) => match parse_value(b, p) {
            Some((value, q)) => Some((EntryView { key, value }, q)),
            None => None,
        },
        None => None,
    }
}

/// `n` entries, one behind the other, from `pos` on.
pub open spec fn parse_entries(b: Seq<u8>, pos: int, n: nat) -> Option<(Seq<EntryView>, int)>
    decreases n,
{
    if n == 0 {
        Some((Seq::<EntryView>::empty(), pos))
    } else {
        match parse_entries(b, pos, (n - 1) as nat) {
            Some((items, p)) => match parse_entry(b, p) {
                Some((x, q)) => Some((items.push(x), q)),
                None => None,
            },
            None => None,
        }
    }
}

pub open spec fn parse_metadata(b: Seq<u8>, pos: int) -> Option<(Seq<EntryView>, int)> {
    match parse_u64(b, pos) {
        Some((n, p)) => parse_entries(b, p, n as nat),
        None => None,
    }
}

pub open spec fn parse_vector(b: Seq<u8>, pos: int) -> Option<(QuantizedVectorView, int)> {
    match parse_u32(b, pos) {
        Some((min, p)) => match parse_u32(b, p) {
            Some((max, q)) => match parse_i8s(b, q) {
                Some((values, r)) => Some((QuantizedVectorView { values, min, max }, r)),
                None => None,
            },
            None => None,
        },
        None => None,
    }
}

/// The document that starts at `pos`, and the position behind it.
pub open spec fn parse_document(b: Seq<u8>, pos: int) -> Option<(DocumentView, int)> {
    match parse_u128(b, pos) {
        Some((id, p)) => match parse_vector(b, p) {
            Some((vector, q)) => match parse_bytes(b, q) {
                Some((text, r)) => match parse_metadata(b, r) {
                    Some((metadata, t)) => Some((DocumentView { id, vector, text, metadata }, t)),
                    None => None,
                },
                None => None,
            },
            None => None,
        },
        None => None,
    }
}

/// The document that `b` is the binary form of: `b` holds one document and
/// nothing behind it.
pub open spec fn decoded(b: Seq<u8>) -> Option<DocumentView> {
    match parse_document(b, 0) {
        Some((d, end)) => if end == b.len() {
            Some(d)
        } else {
            None
        },
        None => None,
    }
}


pub proof fn lemma_parse_bool(p: Seq<u8>, x: bool, s: Seq<u8>)
    ensures
        enc_bool(x).len() == 1,
        parse_bool(p + enc_bool(x) + s, p.len() as int) == Some((x, p.len() as int + 1)),
{
    lemma_parse_u8(p, if x { 1u8 } else { 0u8 }, s);
}

pub proof fn lemma_parse_scalar(p: Seq<u8>, x: ScalarView, s: Seq<u8>)
    requires
        scalar_encodable(x),
    ensures
        parse_scalar(p + enc_scalar(x) + s, p.len() as int) == Some(
            (x, p.len() as int + enc_scalar(x).len()),
        ),
{
    let b = p + enc_scalar(x) + s;
    let at = p.len() as int;
    match x {
        ScalarView::Text(t) => {
            lemma_parse_u8(p, TAG_TEXT, enc_text(t) + s);
            assert(b =~= p + enc_u8(TAG_TEXT) + (enc_text(t) + s));
            lemma_parse_text(p + enc_u8(TAG_TEXT), t, s);
            assert(b =~= (p + enc_u8(TAG_TEXT)) + enc_text(t) + s);
        },
        ScalarView::Integer(i) => {
            lemma_parse_u8(p, TAG_INTEGER, enc_u64(i as u64) + s);
            assert(b =~= p + enc_u8(TAG_INTEGER) + (enc_u64(i as u64) + s));
            lemma_parse_u64(p + enc_u8(TAG_INTEGER), i as u64, s);
            assert(b =~= (p + enc_u8(TAG_INTEGER)) + enc_u64(i as u64) + s);
            assert((i as u64) as i64 == i) by (bit_vector);
        },
        ScalarView::Float(f) => {
            lemma_parse_u8(p, TAG_FLOAT, enc_u64(f) + s);
            assert(b =~= p + enc_u8(TAG_FLOAT) + (enc_u64(f) + s));
            lemma_parse_u64(p + enc_u8(TAG_FLOAT), f, s);
            assert(b =~= (p + enc_u8(TAG_FLOAT)) + enc_u64(f) + s);
        },
        ScalarView::Boolean(x0) => {
            lemma_parse_u8(p, TAG_BOOLEAN, enc_bool(x0) + s);
            assert(b =~= p + enc_u8(TAG_BOOLEAN) + (enc_bool(x0) + s));
            lemma_parse_bool(p + enc_u8(TAG_BOOLEAN), x0, s);
            assert(b =~= (p + enc_u8(TAG_BOOLEAN)) + enc_bool(x0) + s);
        },
        ScalarView::Null => {
            lemma_parse_u8(p, TAG_NULL, s);
        },
    }
}

pub proof fn lemma_parse_scalars(p: Seq<u8>, xs: Seq<ScalarView>, s: Seq<u8>)
    requires
        scalars_encodable(xs),
    ensures
        parse_scalars(p + enc_scalars(xs) + s, p.len() as int, xs.len()) == Some(
            (xs, p.len() as int + enc_scalars(xs).len()),
        ),
    decreases xs.len(),
{
    let b = p + enc_scalars(xs) + s;
    if xs.len() == 0 {
        assert(xs =~= Seq::<ScalarView>::empty());
    } else {
        let init = xs.drop_last();
        let last = xs.last();
        lemma_parse_scalars(p, init, enc_scalar(last) + s);
        assert(b =~= p + enc_scalars(init) + (enc_scalar(last) + s));
        lemma_parse_scalar(p + enc_scalars(init), last, s);
        assert(b =~= (p + enc_scalars(init)) + enc_scalar(last) + s);
        assert(init.push(last) =~= xs);
    }
}

pub proof fn lemma_parse_value(p: Seq<u8>, x: ValueView, s: Seq<u8>)
    requires
        value_encodable(x),
    ensures
        parse_value(p + enc_value(x) + s, p.len() as int) == Some(
            (x, p.len() as int + enc_value(x).len()),
        ),
{
    let b = p + enc_value(x) + s;
    match x {
        ValueView::Array(a) => {
            let n = a.len() as u64;
            lemma_parse_u8(p, TAG_ARRAY, enc_u64(n) + enc_scalars(a) + s);
            assert(b =~= p + enc_u8(TAG_ARRAY) + (enc_u64(n) + enc_scalars(a) + s));
            lemma_parse_u64(p + enc_u8(TAG_ARRAY), n, enc_scalars(a) + s);
            assert(b =~= (p + enc_u8(TAG_ARRAY)) + enc_u64(n) + (enc_scalars(a) + s));
            lemma_parse_scalars(p + enc_u8(TAG_ARRAY) + enc_u64(n), a, s);
            assert(b =~= (p + enc_u8(TAG_ARRAY) + enc_u64(n)) + enc_scalars(a) + s);
        },
        ValueView::Text(t) => {
            lemma_parse_scalar(p, ScalarView::Text(t), s);
            lemma_parse_u8(p, TAG_TEXT, enc_text(t) + s);
            assert(b =~= p + enc_u8(TAG_TEXT) + (enc_text(t) + s));
        },
        ValueView::Integer(i) => {
            lemma_parse_scalar(p, ScalarView::Integer(i), s);
            lemma_parse_u8(p, TAG_INTEGER, enc_u64(i as u64) + s);
            assert(b =~= p + enc_u8(TAG_INTEGER) + (enc_u64(i as u64) + s));
        },
        ValueView::Float(f) => {
            lemma_parse_scalar(p, ScalarView::Float(f), s);
            lemma_parse_u8(p, TAG_FLOAT, enc_u64(f) + s);
            assert(b =~= p + enc_u8(TAG_FLOAT) + (enc_u64(f) + s));
        },
        ValueView::Boolean(x0) => {
            lemma_parse_scalar(p, ScalarView::Boolean(x0), s);
            lemma_parse_u8(p, TAG_BOOLEAN, enc_bool(x0) + s);
            assert(b =~= p + enc_u8(TAG_BOOLEAN) + (enc_bool(x0) + s));
        },
        ValueView::Null => {
            lemma_parse_scalar(p, ScalarView::Null, s);
            lemma_parse_u8(p, TAG_NULL, s);
        },
    }
}

pub proof fn lemma_parse_entry(p: Seq<u8>, x: EntryView, s: Seq<u8>)
    requires
        entry_encodable(x),
    ensures
        parse_entry(p + enc_entry(x) + s, p.len() as int) == Some(
            (x, p.len() as int + enc_entry(x).len()),
        ),
{
    let b = p + enc_entry(x) + s;
    lemma_parse_text(p, x.key, enc_value(x.value) + s);
    assert(b =~= p + enc_text(x.key) + (enc_value(x.value) + s));
    lemma_parse_value(p + enc_text(x.key), x.value, s);
    assert(b =~= (p + enc_text(x.key)) + enc_value(x.value) + s);
}

pub proof fn lemma_parse_entries(p: Seq<u8>, xs: Seq<EntryView>, s: Seq<u8>)
    requires
        entries_encodable(xs),
    ensures
        parse_entries(p + enc_entries(xs) + s, p.len() as int, xs.len()) == Some(
            (xs, p.len() as int + enc_entries(xs).len()),
        ),
    decreases xs.len(),
{
    let b = p + enc_entries(xs) + s;
    if xs.len() == 0 {
        assert(xs =~= Seq::<EntryView>::empty());
    } else {
        let init = xs.drop_last();
        let last = xs.last();
        lemma_parse_entries(p, init, enc_entry(last) + s);
        assert(b =~= p + enc_entries(init) + (enc_entry(last) + s));
        lemma_parse_entry(p + enc_entries(init), last, s);
        assert(b =~= (p + enc_entries(init)) + enc_entry(last) + s);
        assert(init.push(last) =~= xs);
    }
}

pub proof fn lemma_parse_metadata(p: Seq<u8>, m: Seq<EntryView>, s: Seq<u8>)
    requires
        m.len() <= u64::MAX,
        entries_encodable(m),
    ensures
        parse_metadata(p + enc_metadata(m) + s, p.len() as int) == Some(
            (m, p.len() as int + enc_metadata(m).len()),
        ),
{
    let b = p + enc_metadata(m) + s;
    let n = m.len() as u64;
    lemma_parse_u64(p, n, enc_entries(m) + s);
    assert(b =~= p + enc_u64(n) + (enc_entries(m) + s));
    lemma_parse_entries(p + enc_u64(n), m, s);
    assert(b =~= (p + enc_u64(n)) + enc_entries(m) + s);
}

pub proof fn lemma_parse_vector(p: Seq<u8>, v: QuantizedVectorView, s: Seq<u8>)
    requires
        v.values.len() <= u64::MAX,
    ensures
        parse_vector(p + enc_vector(v) + s, p.len() as int) == Some(
            (v, p.len() as int + enc_vector(v).len()),
        ),
{
    let b = p + enc_vector(v) + s;
    lemma_parse_u32(p, v.min, enc_u32(v.max) + enc_i8s(v.values) + s);
    assert(b =~= p + enc_u32(v.min) + (enc_u32(v.max) + enc_i8s(v.values) + s));
    lemma_parse_u32(p + enc_u32(v.min), v.max, enc_i8s(v.values) + s);
    assert(b =~= (p + enc_u32(v.min)) + enc_u32(v.max) + (enc_i8s(v.values) + s));
    lemma_parse_i8s(p + enc_u32(v.min) + enc_u32(v.max), v.values, s);
    assert(b =~= (p + enc_u32(v.min) + enc_u32(v.max)) + enc_i8s(v.values) + s);
}

/// A document's binary form, wherever it stands among other bytes, parses
/// back to the document and ends where the form ends.
#[verifier::spinoff_prover]
#[verifier::rlimit(40)]
pub proof fn lemma_parse_document(p: Seq<u8>, d: DocumentView, s: Seq<u8>)
    requires
        document_encodable(d),
    ensures
        parse_document(p + enc_document(d) + s, p.len() as int) == Some(
            (d, p.len() as int + enc_document(d).len()),
        ),
{
    let b = p + enc_document(d) + s;
    let e1 = enc_u128(d.id);
    let e2 = enc_vector(d.vector);
    let e3 = enc_bytes(d.text);
    let e4 = enc_metadata(d.metadata);
    lemma_parse_u128(p, d.id, e2 + e3 + e4 + s);
    assert(b =~= p + e1 + (e2 + e3 + e4 + s));
    lemma_parse_vector(p + e1, d.vector, e3 + e4 + s);
    assert(b =~= (p + e1) + e2 + (e3 + e4 + s));
    lemma_parse_bytes(p + e1 + e2, d.text, e4 + s);
    assert(b =~= (p + e1 + e2) + e3 + (e4 + s));
    lemma_parse_metadata(p + e1 + e2 + e3, d.metadata, s);
    assert(b =~= (p + e1 + e2 + e3) + e4 + s);
}

/// Decoding undoes encoding: the binary form of a document decodes to that
/// document.
pub proof fn lemma_round_trip(d: DocumentView)
    requires
        document_encodable(d),
    ensures
        decoded(enc_document(d)) == Some(d),
{
    let e = enc_document(d);
    lemma_parse_document(Seq::<u8>::empty(), d, Seq::<u8>::empty());
    assert(Seq::<u8>::empty() + e + Seq::<u8>::empty() =~= e);
}


/// Where fewer scalars cannot be parsed, more cannot either.
pub proof fn lemma_parse_scalars_stuck(b: Seq<u8>, pos: int, k: nat, n: nat)
    requires
        k <= n,
        parse_scalars(b, pos, k) is None,
    ensures
        parse_scalars(b, pos, n) is None,
    decreases n,
{
    if k < n {
        lemma_parse_scalars_stuck(b, pos, k, (n - 1) as nat);
    }
}

/// Where fewer entries cannot be parsed, more cannot either.
pub proof fn lemma_parse_entries_stuck(b: Seq<u8>, pos: int, k: nat, n: nat)
    requires
        k <= n,
        parse_entries(b, pos, k) is None,
    ensures
        parse_entries(b, pos, n) is None,
    decreases n,
{
    if k < n {
        lemma_parse_entries_stuck(b, pos, k, (n - 1) as nat);
    }
}

/// Append the encoding of a truth value.
fn put_bool(buf: &mut Vec<u8>, x: bool)
    ensures
        final(buf)@ == old(buf)@ + enc_bool(x),
{
    put_u8(buf, if x { 1u8 } else { 0u8 });
}

/// Append the encoding of a scalar.
pub fn put_scalar(buf: &mut Vec<u8>, v: &MetadataScalar)
    ensures
        final(buf)@ == old(buf)@ + enc_scalar(v@),
        scalar_encodable(v@),
{
    let ghost base = buf@;
    match v {
        MetadataScalar::String(s) => {
            put_u8(buf, TAG_TEXT);
            put_text(buf, s);
            assert(buf@ =~= base + enc_scalar(v@));
        },
        MetadataScalar::Integer(i) => {
            put_u8(buf, TAG_INTEGER);
            put_u64(buf,  #[verifier::truncate] (*i as u64));
            assert(buf@ =~= base + enc_scalar(v@));
        },
        MetadataScalar::Float(f) => {
            put_u8(buf, TAG_FLOAT);
            put_u64(buf, *f);
            assert(buf@ =~= base + enc_scalar(v@));
        },
        MetadataScalar::Boolean(x) => {
            put_u8(buf, TAG_BOOLEAN);
            put_bool(buf, *x);
            assert(buf@ =~= base + enc_scalar(v@));
        },
        MetadataScalar::Null => {
            put_u8(buf, TAG_NULL);
        },
    }
}

/// Append the encoding of a metadata value.
pub fn put_value(buf: &mut Vec<u8>, v: &MetadataValue)
    ensures
        final(buf)@ == old(buf)@ + enc_value(v@),
        value_encodable(v@),
{
    let ghost base = buf@;
    match v {
        MetadataValue::String(s) => {
            put_u8(buf, TAG_TEXT);
            put_text(buf, s);
            assert(buf@ =~= base + enc_value(v@));
        },
        MetadataValue::Integer(i) => {
            put_u8(buf, TAG_INTEGER);
            put_u64(buf,  #[verifier::truncate] (*i as u64));
            assert(buf@ =~= base + enc_value(v@));
        },
        MetadataValue::Float(f) => {
            put_u8(buf, TAG_FLOAT);
            put_u64(buf, *f);
            assert(buf@ =~= base + enc_value(v@));
        },
        MetadataValue::Boolean(x) => {
            put_u8(buf, TAG_BOOLEAN);
            put_bool(buf, *x);
            assert(buf@ =~= base + enc_value(v@));
        },
        MetadataValue::Null => {
            put_u8(buf, TAG_NULL);
        },
        MetadataValue::Array(a) => {
            let ghost items = scalar_views(a@);
            put_u8(buf, TAG_ARRAY);
            put_u64(buf, a.len() as u64);
            let ghost head = buf@;
            assert(head =~= base + (enc_u8(TAG_ARRAY) + enc_u64(a.len() as u64)));
            let mut i: usize = 0;
            assert(items.take(0) =~= Seq::<ScalarView>::empty());
            while i < a.len()
                invariant
                    i <= a.len(),
                    items == scalar_views(a@),
                    buf@ == head + enc_scalars(items.take(i as int)),
                    scalars_encodable(items.take(i as int)),
                decreases a.len() - i,
            {
                put_scalar(buf, &a[i]);
                proof {
                    let next = items.take(i + 1);
                    assert(next.drop_last() =~= items.take(i as int));
                    assert(next.last() == a[i as int]@);
                    assert(buf@ =~= head + enc_scalars(next));
                    assert forall|j: int| 0 <= j < next.len() implies scalar_encodable(
                        #[trigger] next[j],
                    ) by {
                        if j < i {
                            assert(next[j] == items.take(i as int)[j]);
                        }
                    }
                }
                i += 1;
            }
            assert(items.take(a.len() as int) =~= items);
            assert(buf@ =~= base + enc_value(v@));
        },
    }
}

/// Append the encoding of a document's metadata.
pub fn put_metadata(buf: &mut Vec<u8>, m: &Metadata)
    ensures
        final(buf)@ == old(buf)@ + enc_metadata(m@),
        m@.len() <= u64::MAX,
        entries_encodable(m@),
{
    let ghost base = buf@;
    let ghost items = m@;
    put_u64(buf, m.entries.len() as u64);
    let ghost head = buf@;
    let mut i: usize = 0;
    assert(items.take(0) =~= Seq::<EntryView>::empty());
    while i < m.entries.len()
        invariant
            i <= m.entries.len(),
            items == m@,
            buf@ == head + enc_entries(items.take(i as int)),
            entries_encodable(items.take(i as int)),
        decreases m.entries.len() - i,
    {
        let ghost before = buf@;
        put_text(buf, &m.entries[i].key);
        put_value(buf, &m.entries[i].value);
        proof {
            let next = items.take(i + 1);
            assert(next.drop_last() =~= items.take(i as int));
            assert(next.last() == m.entries[i as int]@);
            assert(buf@ =~= before + enc_entry(next.last()));
            assert(buf@ =~= head + enc_entries(next));
            assert forall|j: int| 0 <= j < next.len() implies entry_encodable(
                #[trigger] next[j],
            ) by {
                if j < i {
                    assert(next[j] == items.take(i as int)[j]);
                }
            }
        }
        i += 1;
    }
    assert(items.take(m.entries.len() as int) =~= items);
    assert(buf@ =~= base + enc_metadata(m@));
}

/// Append the encoding of a quantized vector.
pub fn put_vector(buf: &mut Vec<u8>, v: &QuantizedVector)
    ensures
        final(buf)@ == old(buf)@ + enc_vector(v@),
{
    let ghost base = buf@;
    put_u32(buf, v.min);
    put_u32(buf, v.max);
    put_i8s(buf, &v.values);
    assert(buf@ =~= base + enc_vector(v@));
}

/// The binary form of a document.
pub fn encode_document(d: &Document) -> (r: Vec<u8>)
    ensures
        r@ == enc_document(d@),
        document_encodable(d@),
        decoded(r@) == Some(d@),
{
    let mut buf: Vec<u8> = Vec::new();
    put_u128(&mut buf, d.id);
    put_vector(&mut buf, &d.vector);
    put_bytes(&mut buf, d.text.as_slice());
    put_metadata(&mut buf, &d.metadata);
    assert(buf@ =~= enc_document(d@));
    proof {
        assert(d.vector.values.len() <= usize::MAX);
        assert(d.text.len() <= usize::MAX);
        lemma_round_trip(d@);
    }
    buf
}

/// Read a truth value.
fn take_bool(b: &[u8], pos: usize) -> (r: Option<(bool, usize)>)
    ensures
        match r {
            Some((x, next)) => parse_bool(b@, pos as int) == Some((x, next as int)),
            None => parse_bool(b@, pos as int) is None,
        },
{
    match take_u8(b, pos) {
        Some((x, next)) => if x == 0 {
            Some((false, next))
        } else if x == 1 {
            Some((true, next))
        } else {
            None
        },
        None => None,
    }
}

/// Read the scalar at `pos`.
pub fn take_scalar(b: &[u8], pos: usize) -> (r: Option<(MetadataScalar, usize)>)
    ensures
        match r {
            Some((x, next)) => parse_scalar(b@, pos as int) == Some((x@, next as int)),
            None => parse_scalar(b@, pos as int) is None,
        },
{
    let (tag, p) = match take_u8(b, pos) {
        Some(t) => t,
        None => { return None; },
    };
    if tag == TAG_TEXT {
        match take_text(b, p) {
            Some((s, q)) => Some((MetadataScalar::String(s), q)),
            None => None,
        }
    } else if tag == TAG_INTEGER {
        match take_u64(b, p) {
            Some((x, q)) => Some((MetadataScalar::Integer( #[verifier::truncate] (x as i64)), q)),
            None => None,
        }
    } else if tag == TAG_FLOAT {
        match take_u64(b, p) {
            Some((x, q)) => Some((MetadataScalar::Float(x), q)),
            None => None,
        }
    } else if tag == TAG_BOOLEAN {
        match take_bool(b, p) {
            Some((x, q)) => Some((MetadataScalar::Boolean(x), q)),
            None => None,
        }
    } else if tag == TAG_NULL {
        Some((MetadataScalar::Null, p))
    } else {
        None
    }
}

/// Read `n` scalars from `pos` on.
fn take_scalars(b: &[u8], pos: usize, n: u64) -> (r: Option<(Vec<MetadataScalar>, usize)>)
    ensures
        match r {
            Some((x, next)) => parse_scalars(b@, pos as int, n as nat) == Some(
                (scalar_views(x@), next as int),
            ),
            None => parse_scalars(b@, pos as int, n as nat) is None,
        },
{
    let mut out: Vec<MetadataScalar> = Vec::new();
    let mut p: usize = pos;
    let mut i: u64 = 0;
    assert(scalar_views(out@) =~= Seq::<ScalarView>::empty());
    while i < n
        invariant
            i <= n,
            parse_scalars(b@, pos as int, i as nat) == Some((scalar_views(out@), p as int)),
        decreases n - i,
    {
        match take_scalar(b, p) {
            Some((x, q)) => {
                let ghost before = scalar_views(out@);
                let ghost xv = x@;
                out.push(x);
                assert(scalar_views(out@) =~= before.push(xv));
                p = q;
            },
            None => {
                proof {
                    lemma_parse_scalars_stuck(b@, pos as int, (i + 1) as nat, n as nat);
                }
                return None;
            },
        }
        i += 1;
    }
    Some((out, p))
}

/// Read the metadata value at `pos`.
pub fn take_value(b: &[u8], pos: usize) -> (r: Option<(MetadataValue, usize)>)
    ensures
        match r {
            Some((x, next)) => parse_value(b@, pos as int) == Some((x@, next as int)),
            None => parse_value(b@, pos as int) is None,
        },
{
    let (tag, p) = match take_u8(b, pos) {
        Some(t) => t,
        None => { return None; },
    };
    if tag == TAG_ARRAY {
        match take_u64(b, p) {
            Some((n, q)) => match take_scalars(b, q, n) {
                Some((items, r)) => Some((MetadataValue::Array(items), r)),
                None => None,
            },
            None => None,
        }
    } else {
        match take_scalar(b, pos) {
            Some((MetadataScalar::String(s), q)) => Some((MetadataValue::String(s), q)),
            Some((MetadataScalar::Integer(i), q)) => Some((MetadataValue::Integer(i), q)),
            Some((MetadataScalar::Float(f), q)) => Some((MetadataValue::Float(f), q)),
            Some((MetadataScalar::Boolean(x), q)) => Some((MetadataValue::Boolean(x), q)),
            Some((MetadataScalar::Null, q)) => Some((MetadataValue::Null, q)),
            None => None,
        }
    }
}

/// Read a document's metadata at `pos`.
pub fn take_metadata(b: &[u8], pos: usize) -> (r: Option<(Metadata, usize)>)
    ensures
        match r {
            Some((x, next)) => parse_metadata(b@, pos as int) == Some((x@, next as int)),
            None => parse_metadata(b@, pos as int) is None,
        },
{
    let (n, start) = match take_u64(b, pos) {
        Some(t) => t,
        None => { return None; },
    };
    let mut out: Vec<MetadataEntry> = Vec::new();
    let mut p: usize = start;
    let mut i: u64 = 0;
    assert(entry_views(out@) =~= Seq::<EntryView>::empty());
    while i < n
        invariant
            i <= n,
            parse_u64(b@, pos as int) == Some((n, start as int)),
            parse_entries(b@, start as int, i as nat) == Some((entry_views(out@), p as int)),
        decreases n - i,
    {
        let ghost before = entry_views(out@);
        let entry = match take_text(b, p) {
            Some((key, q)) => match take_value(b, q) {
                Some((value, r)) => Some((MetadataEntry { key, value }, r)),
                None => None,
            },
            None => None,
        };
        match entry {
            Some((e, r)) => {
                let ghost ev = e@;
                out.push(e);
                assert(entry_views(out@) =~= before.push(ev));
                p = r;
            },
            None => {
                proof {
                    assert(parse_entry(b@, p as int) is None);
                    assert(parse_entries(b@, start as int, (i + 1) as nat) is None);
                    lemma_parse_entries_stuck(b@, start as int, (i + 1) as nat, n as nat);
                }
                return None;
            },
        }
        i += 1;
    }
    Some((Metadata { entries: out }, p))
}

/// Read the quantized vector at `pos`.
pub fn take_vector(b: &[u8], pos: usize) -> (r: Option<(QuantizedVector, usize)>)
    ensures
        match r {
            Some((x, next)) => parse_vector(b@, pos as int) == Some((x@, next as int)),
            None => parse_vector(b@, pos as int) is None,
        },
{
    match take_u32(b, pos) {
        Some((min, p)) => match take_u32(b, p) {
            Some((max, q)) => match take_i8s(b, q) {
                Some((values, r)) => Some((QuantizedVector { values, min, max }, r)),
                None => None,
            },
            None => None,
        },
        None => None,
    }
}

/// The document that `b` is the binary form of, or nothing where `b` is not
/// the binary form of a document.
pub fn decode_document(b: &[u8]) -> (r: Option<Document>)
    ensures
        match r {
            Some(d) => decoded(b@) == Some(d@),
            None => decoded(b@) is None,
        },
{
    let (id, p) = match take_u128(b, 0) {
        Some(t) => t,
        None => { return None; },
    };
    let (vector, q) = match take_vector(b, p) {
        Some(t) => t,
        None => { return None; },
    };
    let (text, r) = match take_bytes(b, q) {
        Some(t) => t,
        None => { return None; },
    };
    let (metadata, end) = match take_metadata(b, r) {
        Some(t) => t,
        None => { return None; },
    };
    if end == b.len() {
        Some(Document { id, vector, text, metadata })
    } else {
        None
    }
}

} // verus!
