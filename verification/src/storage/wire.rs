//! The primitives of the binary formats: little-endian integers and
//! length-prefixed byte strings, each with its encoder, its parser and the
//! proof that the parser undoes the encoder wherever the encoding stands.

use vstd::prelude::*;
use vstd::bytes::*;
use vstd::slice::*;
use vstd::utf8::*;
use vstd::string::*;

verus! {

/// Encoding of a byte.
pub open spec fn enc_u8(x: u8) -> Seq<u8> {
    seq![x]
}

/// Encoding of a 32-bit integer: four bytes, least significant first.
pub open spec fn enc_u32(x: u32) -> Seq<u8> {
    spec_u32_to_le_bytes(x)
}

/// Encoding of a 64-bit integer: eight bytes, least significant first.
pub open spec fn enc_u64(x: u64) -> Seq<u8> {
    spec_u64_to_le_bytes(x)
}

/// Encoding of a 128-bit integer: sixteen bytes, least significant first.
pub open spec fn enc_u128(x: u128) -> Seq<u8> {
    spec_u128_to_le_bytes(x)
}

/// Encoding of a byte string: its length as a 64-bit integer, then the bytes.
pub open spec fn enc_bytes(s: Seq<u8>) -> Seq<u8> {
    enc_u64(s.len() as u64) + s
}

/// The bytes that stand for signed 8-bit values.
pub open spec fn as_unsigned(s: Seq<i8>) -> Seq<u8> {
    Seq::new(s.len(), |i: int| s[i] as u8)
}

/// The signed 8-bit values that bytes stand for.
pub open spec fn as_signed(s: Seq<u8>) -> Seq<i8> {
    Seq::new(s.len(), |i: int| s[i] as i8)
}

/// Encoding of signed 8-bit values: as the byte string of their bit patterns.
pub open spec fn enc_i8s(s: Seq<i8>) -> Seq<u8> {
    enc_bytes(as_unsigned(s))
}

/// Encoding of a text: as the byte string of its UTF-8 form.
pub open spec fn enc_text(s: Seq<char>) -> Seq<u8> {
    enc_bytes(encode_utf8(s))
}

/// The byte at `pos`, and the position behind it.
pub open spec fn parse_u8(b: Seq<u8>, pos: int) -> Option<(u8, int)> {
    if 0 <= pos < b.len() {
        Some((b[pos], pos + 1))
    } else {
        None
    }
}

/// The 32-bit integer at `pos`, and the position behind it.
pub open spec fn parse_u32(b: Seq<u8>, pos: int) -> Option<(u32, int)> {
    if 0 <= pos && pos + 4 <= b.len() {
        Some((spec_u32_from_le_bytes(b.subrange(pos, pos + 4)), pos + 4))
    } else {
        None
    }
}

/// The 64-bit integer at `pos`, and the position behind it.
pub open spec fn parse_u64(b: Seq<u8>, pos: int) -> Option<(u64, int)> {
    if 0 <= pos && pos + 8 <= b.len() {
        Some((spec_u64_from_le_bytes(b.subrange(pos, pos + 8)), pos + 8))
    } else {
        None
    }
}

/// The 128-bit integer at `pos`, and the position behind it.
pub open spec fn parse_u128(b: Seq<u8>, pos: int) -> Option<(u128, int)> {
    if 0 <= pos && pos + 16 <= b.len() {
        Some((spec_u128_from_le_bytes(b.subrange(pos, pos + 16)), pos + 16))
    } else {
        None
    }
}

/// The length-prefixed byte string at `pos`, and the position behind it.
pub open spec fn parse_bytes(b: Seq<u8>, pos: int) -> Option<(Seq<u8>, int)> {
    match parse_u64(b, pos) {
        Some((n, p)) => if p + n <= b.len() {
            Some((b.subrange(p, p + n), p + n))
        } else {
            None
        },
        None => None,
    }
}

/// The length-prefixed signed values at `pos`, and the position behind them.
pub open spec fn parse_i8s(b: Seq<u8>, pos: int) -> Option<(Seq<i8>, int)> {
    match parse_bytes(b, pos) {
        Some((raw, p)) => Some((as_signed(raw), p)),
        None => None,
    }
}

/// The length-prefixed text at `pos`, and the position behind it. Bytes that
/// are not UTF-8 are no text.
pub open spec fn parse_text(b: Seq<u8>, pos: int) -> Option<(Seq<char>, int)> {
    match parse_bytes(b, pos) {
        Some((raw, p)) => if valid_utf8(raw) {
            Some((decode_utf8(raw), p))
        } else {
            None
        },
        None => None,
    }
}

pub proof fn lemma_parse_u8(p: Seq<u8>, x: u8, s: Seq<u8>)
    ensures
        parse_u8(p + enc_u8(x) + s, p.len() as int) == Some((x, p.len() as int + 1)),
{
}

pub proof fn lemma_parse_u32(p: Seq<u8>, x: u32, s: Seq<u8>)
    ensures
        enc_u32(x).len() == 4,
        parse_u32(p + enc_u32(x) + s, p.len() as int) == Some((x, p.len() as int + 4)),
{
    lemma_auto_spec_u32_to_from_le_bytes();
    let b = p + enc_u32(x) + s;
    let at = p.len() as int;
    assert(b.subrange(at, at + 4) =~= enc_u32(x));
}

pub proof fn lemma_parse_u64(p: Seq<u8>, x: u64, s: Seq<u8>)
    ensures
        enc_u64(x).len() == 8,
        parse_u64(p + enc_u64(x) + s, p.len() as int) == Some((x, p.len() as int + 8)),
{
    lemma_auto_spec_u64_to_from_le_bytes();
    let b = p + enc_u64(x) + s;
    let at = p.len() as int;
    assert(b.subrange(at, at + 8) =~= enc_u64(x));
}

pub proof fn lemma_parse_u128(p: Seq<u8>, x: u128, s: Seq<u8>)
    ensures
        enc_u128(x).len() == 16,
        parse_u128(p + enc_u128(x) + s, p.len() as int) == Some((x, p.len() as int + 16)),
{
    lemma_auto_spec_u128_to_from_le_bytes();
    let b = p + enc_u128(x) + s;
    let at = p.len() as int;
    assert(b.subrange(at, at + 16) =~= enc_u128(x));
}

pub proof fn lemma_parse_bytes(p: Seq<u8>, x: Seq<u8>, s: Seq<u8>)
    requires
        x.len() <= u64::MAX,
    ensures
        enc_bytes(x).len() == 8 + x.len(),
        parse_bytes(p + enc_bytes(x) + s, p.len() as int) == Some((x, p.len() as int + 8 + x.len())),
{
    let n = x.len() as u64;
    let b = p + enc_bytes(x) + s;
    lemma_parse_u64(p, n, x + s);
    assert(b =~= p + enc_u64(n) + (x + s));
    let at = p.len() as int;
    assert(b.subrange(at + 8, at + 8 + x.len()) =~= x);
}

pub proof fn lemma_signed_unsigned(x: Seq<i8>)
    ensures
        as_signed(as_unsigned(x)) == x,
{
    assert forall|i: int| 0 <= i < x.len() implies as_signed(as_unsigned(x))[i] == x[i] by {
        let v = x[i];
        assert((v as u8) as i8 == v) by (bit_vector);
    }
    assert(as_signed(as_unsigned(x)) =~= x);
}

pub proof fn lemma_parse_i8s(p: Seq<u8>, x: Seq<i8>, s: Seq<u8>)
    requires
        x.len() <= u64::MAX,
    ensures
        enc_i8s(x).len() == 8 + x.len(),
        parse_i8s(p + enc_i8s(x) + s, p.len() as int) == Some((x, p.len() as int + 8 + x.len())),
{
    lemma_parse_bytes(p, as_unsigned(x), s);
    lemma_signed_unsigned(x);
}

pub proof fn lemma_parse_text(p: Seq<u8>, x: Seq<char>, s: Seq<u8>)
    requires
        encode_utf8(x).len() <= u64::MAX,
    ensures
        enc_text(x).len() == 8 + encode_utf8(x).len(),
        parse_text(p + enc_text(x) + s, p.len() as int) == Some(
            (x, p.len() as int + 8 + encode_utf8(x).len()),
        ),
{
    lemma_parse_bytes(p, encode_utf8(x), s);
    encode_utf8_valid_utf8(x);
    encode_utf8_decode_utf8(x);
}

/// Append the encoding of a byte.
pub fn put_u8(buf: &mut Vec<u8>, x: u8)
    ensures
        final(buf)@ == old(buf)@ + enc_u8(x),
{
    buf.push(x);
    assert(buf@ =~= old(buf)@ + enc_u8(x));
}

/// Append the encoding of a 32-bit integer.
pub fn put_u32(buf: &mut Vec<u8>, x: u32)
    ensures
        final(buf)@ == old(buf)@ + enc_u32(x),
{
    let mut bytes = u32_to_le_bytes(x);
    buf.append(&mut bytes);
}

/// Append the encoding of a 64-bit integer.
pub fn put_u64(buf: &mut Vec<u8>, x: u64)
    ensures
        final(buf)@ == old(buf)@ + enc_u64(x),
{
    let mut bytes = u64_to_le_bytes(x);
    buf.append(&mut bytes);
}

/// Append the encoding of a 128-bit integer.
pub fn put_u128(buf: &mut Vec<u8>, x: u128)
    ensures
        final(buf)@ == old(buf)@ + enc_u128(x),
{
    let mut bytes = u128_to_le_bytes(x);
    buf.append(&mut bytes);
}

/// Append the encoding of a byte string.
pub fn put_bytes(buf: &mut Vec<u8>, s: &[u8])
    ensures
        final(buf)@ == old(buf)@ + enc_bytes(s@),
{
    put_u64(buf, s.len() as u64);
    let ghost base = buf@;
    let mut i: usize = 0;
    while i < s.len()
        invariant
            i <= s.len(),
            buf@ == base + s@.take(i as int),
        decreases s.len() - i,
    {
        buf.push(s[i]);
        assert(s@.take(i + 1) =~= s@.take(i as int).push(s@[i as int]));
        assert(buf@ =~= base + s@.take(i + 1));
        i += 1;
    }
    assert(s@.take(s.len() as int) =~= s@);
    assert(buf@ =~= old(buf)@ + enc_bytes(s@));
}

/// Append the encoding of signed 8-bit values.
pub fn put_i8s(buf: &mut Vec<u8>, s: &Vec<i8>)
    ensures
        final(buf)@ == old(buf)@ + enc_i8s(s@),
{
    put_u64(buf, s.len() as u64);
    let ghost base = buf@;
    let ghost raw = as_unsigned(s@);
    let mut i: usize = 0;
    while i < s.len()
        invariant
            i <= s.len(),
            raw == as_unsigned(s@),
            buf@ == base + raw.take(i as int),
        decreases s.len() - i,
    {
        let v: i8 = s[i];
        let byte: u8 =  #[verifier::truncate] (v as u8);
        buf.push(byte);
        assert(raw.take(i + 1) =~= raw.take(i as int).push(raw[i as int]));
        assert(buf@ =~= base + raw.take(i + 1));
        i += 1;
    }
    assert(raw.take(s.len() as int) =~= raw);
    assert(buf@ =~= old(buf)@ + enc_i8s(s@));
}

/// Append the encoding of a text.
pub fn put_text(buf: &mut Vec<u8>, s: &String)
    ensures
        final(buf)@ == old(buf)@ + enc_text(s@),
        encode_utf8(s@).len() <= usize::MAX,
{
    let bytes = s.as_str().as_bytes();
    let n: usize = bytes.len();
    assert(encode_utf8(s@).len() == n);
    put_bytes(buf, bytes);
}

/// Read the byte at `pos`.
pub fn take_u8(b: &[u8], pos: usize) -> (r: Option<(u8, usize)>)
    ensures
        match r {
            Some((x, next)) => parse_u8(b@, pos as int) == Some((x, next as int)),
            None => parse_u8(b@, pos as int) is None,
        },
{
    if pos < b.len() {
        Some((b[pos], pos + 1))
    } else {
        None
    }
}

/// Read the 32-bit integer at `pos`.
pub fn take_u32(b: &[u8], pos: usize) -> (r: Option<(u32, usize)>)
    ensures
        match r {
            Some((x, next)) => parse_u32(b@, pos as int) == Some((x, next as int)),
            None => parse_u32(b@, pos as int) is None,
        },
{
    if pos <= b.len() && b.len() - pos >= 4 {
        let x = u32_from_le_bytes(slice_subrange(b, pos, pos + 4));
        Some((x, pos + 4))
    } else {
        None
    }
}

/// Read the 64-bit integer at `pos`.
pub fn take_u64(b: &[u8], pos: usize) -> (r: Option<(u64, usize)>)
    ensures
        match r {
            Some((x, next)) => parse_u64(b@, pos as int) == Some((x, next as int)),
            None => parse_u64(b@, pos as int) is None,
        },
{
    if pos <= b.len() && b.len() - pos >= 8 {
        let x = u64_from_le_bytes(slice_subrange(b, pos, pos + 8));
        Some((x, pos + 8))
    } else {
        None
    }
}

/// Read the 128-bit integer at `pos`.
pub fn take_u128(b: &[u8], pos: usize) -> (r: Option<(u128, usize)>)
    ensures
        match r {
            Some((x, next)) => parse_u128(b@, pos as int) == Some((x, next as int)),
            None => parse_u128(b@, pos as int) is None,
        },
{
    if pos <= b.len() && b.len() - pos >= 16 {
        let x = u128_from_le_bytes(slice_subrange(b, pos, pos + 16));
        Some((x, pos + 16))
    } else {
        None
    }
}

/// Read the length-prefixed byte string at `pos`.
pub fn take_bytes(b: &[u8], pos: usize) -> (r: Option<(Vec<u8>, usize)>)
    ensures
        match r {
            Some((x, next)) => parse_bytes(b@, pos as int) == Some((x@, next as int)),
            None => parse_bytes(b@, pos as int) is None,
        },
{
    match take_u64(b, pos) {
        Some((n, p)) => {
            if n <= (b.len() - p) as u64 {
                let len: usize = n as usize;
                let out = slice_to_vec(slice_subrange(b, p, p + len));
                Some((out, p + len))
            } else {
                None
            }
        },
        None => None,
    }
}

/// Read the length-prefixed signed values at `pos`.
pub fn take_i8s(b: &[u8], pos: usize) -> (r: Option<(Vec<i8>, usize)>)
    ensures
        match r {
            Some((x, next)) => parse_i8s(b@, pos as int) == Some((x@, next as int)),
            None => parse_i8s(b@, pos as int) is None,
        },
{
    match take_bytes(b, pos) {
        Some((raw, next)) => {
            let mut out: Vec<i8> = Vec::new();
            let mut i: usize = 0;
            while i < raw.len()
                invariant
                    i <= raw.len(),
                    out@ == as_signed(raw@).take(i as int),
                decreases raw.len() - i,
            {
                let byte: u8 = raw[i];
                let v: i8 =  #[verifier::truncate] (byte as i8);
                out.push(v);
                assert(as_signed(raw@).take(i + 1) =~= as_signed(raw@).take(i as int).push(
                    as_signed(raw@)[i as int],
                ));
                i += 1;
            }
            assert(as_signed(raw@).take(raw.len() as int) =~= as_signed(raw@));
            Some((out, next))
        },
        None => None,
    }
}

/// `String::from_utf8`: the string whose UTF-8 form is `bytes`, or nothing
/// where `bytes` is not valid UTF-8.
#[verifier::external_body]
fn string_from_utf8(bytes: Vec<u8>) -> (r: Option<String>)
    ensures
        match r {
            Some(s) => valid_utf8(bytes@) && encode_utf8(s@) == bytes@,
            None => !valid_utf8(bytes@),
        },
{
    String::from_utf8(bytes).ok()
}

/// Read the length-prefixed text at `pos`.
pub fn take_text(b: &[u8], pos: usize) -> (r: Option<(String, usize)>)
    ensures
        match r {
            Some((x, next)) => parse_text(b@, pos as int) == Some((x@, next as int)),
            None => parse_text(b@, pos as int) is None,
        },
{
    match take_bytes(b, pos) {
        Some((raw, next)) => {
            let ghost raw_view = raw@;
            match string_from_utf8(raw) {
                Some(s) => {
                    proof {
                        encode_utf8_decode_utf8(s@);
                    }
                    Some((s, next))
                },
                None => None,
            }
        },
        None => None,
    }
}

} // verus!
