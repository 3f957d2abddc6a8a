//! Primitive wire fields: big-endian 32-bit integers and length-prefixed
//! byte strings.

use vstd::prelude::*;
use vstd::slice::slice_subrange;
use vstd::slice::slice_to_vec;
use vstd::utf8::decode_utf8;
use vstd::utf8::encode_utf8;
use vstd::utf8::valid_utf8;

verus! {

/// Why a byte sequence could not be read as the field that was expected.
#[derive(Debug, Clone, PartialEq, Eq)]
pub enum ProtocolError {
    /// The field needs `need` more bytes than the `have` that remain.
    NotEnoughBytes { field: FieldKind, need: u64, have: u64 },
    /// A length prefix was negative.
    NegativeLength { field: FieldKind, len: i32 },
    /// A string field does not hold valid UTF-8.
    InvalidUtf8,
    /// A boolean field held a byte other than 0 or 1.
    InvalidFlag { value: u8 },
    /// The leading tag byte names no known variant.
    UnknownTag { tag: u8 },
    /// Bytes were left over after a complete message.
    TrailingBytes { count: u64 },
}

/// The kind of field that was being read when decoding failed.
#[derive(Debug, Clone, Copy, PartialEq, Eq)]
pub enum FieldKind {
    Tag,
    Int,
    Str,
    Bytes,
    Flag,
}

/// The four big-endian bytes of `v`.
pub open spec fn u32_be(v: u32) -> Seq<u8> {
    seq![(v >> 24u32) as u8, (v >> 16u32) as u8, (v >> 8u32) as u8, v as u8]
}

/// The value of four big-endian bytes.
pub open spec fn u32_of_be(b0: u8, b1: u8, b2: u8, b3: u8) -> u32 {
    ((b0 as u32) << 24u32) | ((b1 as u32) << 16u32) | ((b2 as u32) << 8u32) | (b3 as u32)
}

/// The value of the first four bytes of `b`, read big-endian.
pub open spec fn u32_at(b: Seq<u8>) -> u32
    recommends
        b.len() >= 4,
{
    u32_of_be(b[0], b[1], b[2], b[3])
}

/// The four big-endian bytes of the two's-complement form of `v`.
pub open spec fn i32_be(v: i32) -> Seq<u8> {
    u32_be(v as u32)
}

/// The signed value of the first four bytes of `b`, read big-endian.
pub open spec fn i32_at(b: Seq<u8>) -> i32
    recommends
        b.len() >= 4,
{
    u32_at(b) as i32
}

/// A byte string on the wire: its length as a 32-bit prefix, then its bytes.
pub open spec fn bytes_field(b: Seq<u8>) -> Seq<u8> {
    i32_be(b.len() as i32) + b
}

/// A string on the wire: the length prefix of its UTF-8 bytes, then those bytes.
pub open spec fn str_field(s: Seq<char>) -> Seq<u8> {
    bytes_field(encode_utf8(s))
}

/// A byte string that a length prefix can describe.
pub open spec fn fits_prefix(b: Seq<u8>) -> bool {
    b.len() <= i32::MAX
}

/// A string whose UTF-8 form a length prefix can describe.
pub open spec fn str_fits(s: Seq<char>) -> bool {
    fits_prefix(encode_utf8(s))
}

/// Reading the four bytes of a `u32` gives the `u32` back.
pub proof fn lemma_u32_round_trip(v: u32)
    ensures
        u32_at(u32_be(v)) == v,
{
    let b = u32_be(v);
    assert(u32_of_be((v >> 24u32) as u8, (v >> 16u32) as u8, (v >> 8u32) as u8, v as u8) == v)
        by (bit_vector);
}

/// Reading the four bytes of an `i32` gives the `i32` back.
pub proof fn lemma_i32_round_trip(v: i32)
    ensures
        i32_at(i32_be(v)) == v,
{
    lemma_u32_round_trip(v as u32);
    assert(((v as u32) as i32) == v) by (bit_vector);
}

/// Two length-prefixed byte strings followed by anything are equal only when
/// the strings and what follows them are equal.
pub proof fn lemma_bytes_field_unique(a: Seq<u8>, ta: Seq<u8>, b: Seq<u8>, tb: Seq<u8>)
    requires
        fits_prefix(a),
        fits_prefix(b),
        bytes_field(a) + ta == bytes_field(b) + tb,
    ensures
        a == b,
        ta == tb,
{
    let x = bytes_field(a) + ta;
    let y = bytes_field(b) + tb;
    lemma_i32_round_trip(a.len() as i32);
    lemma_i32_round_trip(b.len() as i32);
    assert(x.take(4) == i32_be(a.len() as i32));
    assert(y.take(4) == i32_be(b.len() as i32));
    assert(a.len() == b.len());
    assert(a == x.subrange(4, 4 + a.len() as int));
    assert(b == y.subrange(4, 4 + b.len() as int));
    assert(ta == x.skip(4 + a.len() as int));
    assert(tb == y.skip(4 + b.len() as int));
}

/// Two string fields followed by anything are equal only when the strings and
/// what follows them are equal.
pub proof fn lemma_str_field_unique(a: Seq<char>, ta: Seq<u8>, b: Seq<char>, tb: Seq<u8>)
    requires
        str_fits(a),
        str_fits(b),
        str_field(a) + ta == str_field(b) + tb,
    ensures
        a == b,
        ta == tb,
{
    lemma_bytes_field_unique(encode_utf8(a), ta, encode_utf8(b), tb);
    vstd::utf8::encode_utf8_decode_utf8(a);
    vstd::utf8::encode_utf8_decode_utf8(b);
}

/// Reads a big-endian `i32` from the front of `bytes`, returning it with the
/// bytes after it.
pub fn read_i32(bytes: &[u8]) -> (r: Result<(i32, &[u8]), ProtocolError>)
    ensures
        match r {
            Ok((v, rest)) => bytes@.len() >= 4 && bytes@ == i32_be(v) + rest@ && v == i32_at(bytes@),
            Err(e) => bytes@.len() < 4 && e == (ProtocolError::NotEnoughBytes {
                field: FieldKind::Int,
                need: 4,
                have: bytes@.len() as u64,
            }),
        },
{
    if bytes.len() < 4 {
        return Err(ProtocolError::NotEnoughBytes {
            field: FieldKind::Int,
            need: 4,
            have: bytes.len() as u64,
        });
    }
    let b0 = bytes[0];
    let b1 = bytes[1];
    let b2 = bytes[2];
    let b3 = bytes[3];
    let u: u32 = ((b0 as u32) << 24u32) | ((b1 as u32) << 16u32) | ((b2 as u32) << 8u32) | (b3 as u32);
    let v = u as i32;
    let rest = slice_subrange(bytes, 4, bytes.len());
    proof {
        assert(u32_be(u32_of_be(b0, b1, b2, b3)) == seq![b0, b1, b2, b3]) by {
            assert((u32_of_be(b0, b1, b2, b3) >> 24u32) as u8 == b0
                && (u32_of_be(b0, b1, b2, b3) >> 16u32) as u8 == b1
                && (u32_of_be(b0, b1, b2, b3) >> 8u32) as u8 == b2
                && u32_of_be(b0, b1, b2, b3) as u8 == b3) by (bit_vector);
        }
        assert((u as i32) as u32 == u) by (bit_vector);
        assert(bytes@ == i32_be(v) + rest@);
    }
    Ok((v, rest))
}

/// Reads a length-prefixed byte string from the front of `bytes`, returning
/// it with the bytes after it; an error names `field`.
fn read_prefixed(bytes: &[u8], field: FieldKind) -> (r: Result<(Vec<u8>, &[u8]), ProtocolError>)
    ensures
        match r {
            Ok((b, rest)) => bytes@ == bytes_field(b@) + rest@ && fits_prefix(b@),
            Err(e) => !bytes_field_ok(bytes@) && prefix_error(bytes@, field, e),
        },
{
    let (len, rest) = match read_i32(bytes) {
        Ok(x) => x,
        Err(e) => {
            return Err(ProtocolError::NotEnoughBytes { field, need: 4, have: bytes.len() as u64 });
        },
    };
    if len < 0 {
        return Err(ProtocolError::NegativeLength { field, len });
    }
    if rest.len() < len as usize {
        return Err(ProtocolError::NotEnoughBytes { field, need: len as u64, have: rest.len() as u64 });
    }
    let body = slice_subrange(rest, 0, len as usize);
    let tail = slice_subrange(rest, len as usize, rest.len());
    let v = slice_to_vec(body);
    proof {
        lemma_i32_round_trip(len);
        assert(rest@ == body@ + tail@);
        assert(bytes@ == bytes_field(v@) + tail@);
    }
    Ok((v, tail))
}

/// Reads a length-prefixed byte string from the front of `bytes`, returning
/// it with the bytes after it.
pub fn read_bytes(bytes: &[u8]) -> (r: Result<(Vec<u8>, &[u8]), ProtocolError>)
    ensures
        match r {
            Ok((b, rest)) => bytes@ == bytes_field(b@) + rest@ && fits_prefix(b@),
            Err(e) => !bytes_field_ok(bytes@) && prefix_error(bytes@, FieldKind::Bytes, e),
        },
{
    read_prefixed(bytes, FieldKind::Bytes)
}

/// Whether `b` starts with a complete length-prefixed byte string.
pub open spec fn bytes_field_ok(b: Seq<u8>) -> bool {
    b.len() >= 4 && i32_at(b) >= 0 && b.len() - 4 >= i32_at(b)
}

/// The error that reading a length-prefixed `field` from `b` reports when
/// its prefix is short, negative, or longer than what follows.
pub open spec fn prefix_error(b: Seq<u8>, field: FieldKind, e: ProtocolError) -> bool {
    if b.len() < 4 {
        e == (ProtocolError::NotEnoughBytes { field, need: 4, have: b.len() as u64 })
    } else if i32_at(b) < 0 {
        e == (ProtocolError::NegativeLength { field, len: i32_at(b) })
    } else {
        e == (ProtocolError::NotEnoughBytes {
            field,
            need: i32_at(b) as u64,
            have: (b.len() - 4) as u64,
        })
    }
}

/// Whether `b` starts with a complete string field.
pub open spec fn str_field_ok(b: Seq<u8>) -> bool {
    bytes_field_ok(b) && valid_utf8(b.subrange(4, 4 + i32_at(b)))
}

/// The error that reading a string field from `b` reports.
pub open spec fn str_field_error(b: Seq<u8>, e: ProtocolError) -> bool {
    if bytes_field_ok(b) {
        e == ProtocolError::InvalidUtf8
    } else {
        prefix_error(b, FieldKind::Str, e)
    }
}

/// Relies on `String::from_utf8`: it accepts exactly the byte sequences that
/// are valid UTF-8, and gives the characters they encode.
#[verifier::external_body]
fn string_from_utf8(b: Vec<u8>) -> (r: Option<String>)
    ensures
        match r {
            Some(s) => valid_utf8(b@) && s@ == decode_utf8(b@),
            None => !valid_utf8(b@),
        },
{
    String::from_utf8(b).ok()
}

/// Reads a length-prefixed UTF-8 string from the front of `bytes`, returning
/// it with the bytes after it.
pub fn read_string(bytes: &[u8]) -> (r: Result<(String, &[u8]), ProtocolError>)
    ensures
        match r {
            Ok((s, rest)) => str_field_ok(bytes@) && bytes@ == str_field(s@) + rest@ && str_fits(s@),
            Err(e) => !str_field_ok(bytes@) && str_field_error(bytes@, e),
        },
{
    let (raw, rest) = match read_prefixed(bytes, FieldKind::Str) {
        Ok(x) => x,
        Err(e) => {
            return Err(e);
        },
    };
    let ghost raw_view = raw@;
    proof {
        lemma_i32_round_trip(raw_view.len() as i32);
        assert(bytes@.take(4) == i32_be(raw_view.len() as i32));
        assert(bytes@.subrange(4, 4 + i32_at(bytes@)) == raw_view);
    }
    match string_from_utf8(raw) {
        Some(s) => {
            proof {
                vstd::utf8::decode_utf8_encode_utf8(raw_view);
            }
            Ok((s, rest))
        },
        None => Err(ProtocolError::InvalidUtf8),
    }
}

/// Appends the bytes of `src` to `buf`.
pub fn append_bytes(buf: &mut Vec<u8>, src: &[u8])
    ensures
        final(buf)@ == old(buf)@ + src@,
{
    let mut i: usize = 0;
    while i < src.len()
        invariant
            i <= src@.len(),
            buf@ == old(buf)@ + src@.take(i as int),
        decreases src@.len() - i,
    {
        buf.push(src[i]);
        i = i + 1;
        assert(src@.take(i as int) == src@.take(i - 1) + seq![src@[i - 1]]);
    }
    assert(src@.take(src@.len() as int) == src@);
}

/// Appends the four big-endian bytes of `value` to `buf`.
pub fn push_i32(buf: &mut Vec<u8>, value: i32)
    ensures
        final(buf)@ == old(buf)@ + i32_be(value),
{
    let u = value as u32;
    buf.push((u >> 24u32) as u8);
    buf.push((u >> 16u32) as u8);
    buf.push((u >> 8u32) as u8);
    buf.push(u as u8);
}

/// Appends the big-endian bytes of `value` to `buf`.
pub fn push_u32(buf: &mut Vec<u8>, value: u32)
    ensures
        final(buf)@ == old(buf)@ + u32_be(value),
{
    buf.push((value >> 24u32) as u8);
    buf.push((value >> 16u32) as u8);
    buf.push((value >> 8u32) as u8);
    buf.push(value as u8);
}

/// Appends `value` to `buf` as a length-prefixed byte string.
pub fn push_bytes(buf: &mut Vec<u8>, value: &[u8])
    requires
        fits_prefix(value@),
    ensures
        final(buf)@ == old(buf)@ + bytes_field(value@),
{
    push_i32(buf, value.len() as i32);
    append_bytes(buf, value);
}

/// Appends `value` to `buf` as a length-prefixed UTF-8 string.
pub fn push_string(buf: &mut Vec<u8>, value: &str)
    requires
        str_fits(value@),
    ensures
        final(buf)@ == old(buf)@ + str_field(value@),
{
    let bytes = value.as_bytes();
    push_bytes(buf, bytes);
}

/// A string field followed by anything satisfies [`str_field_ok`].
pub proof fn lemma_str_field_ok(s: Seq<char>, t: Seq<u8>)
    requires
        str_fits(s),
    ensures
        str_field_ok(str_field(s) + t),
{
    let e = encode_utf8(s);
    let b = str_field(s) + t;
    lemma_i32_round_trip(e.len() as i32);
    assert(b.take(4) == i32_be(e.len() as i32));
    assert(i32_at(b) == i32_at(b.take(4)));
    assert(b.subrange(4, 4 + e.len() as int) == e);
    vstd::utf8::encode_utf8_valid_utf8(s);
}

/// A byte string field followed by anything satisfies [`bytes_field_ok`].
pub proof fn lemma_bytes_field_ok(x: Seq<u8>, t: Seq<u8>)
    requires
        fits_prefix(x),
    ensures
        bytes_field_ok(bytes_field(x) + t),
{
    let b = bytes_field(x) + t;
    lemma_i32_round_trip(x.len() as i32);
    assert(b.take(4) == i32_be(x.len() as i32));
    assert(i32_at(b) == i32_at(b.take(4)));
}

/// Two integers followed by anything are equal only when the integers and
/// what follows them are equal.
pub proof fn lemma_i32_unique(a: i32, ta: Seq<u8>, b: i32, tb: Seq<u8>)
    requires
        i32_be(a) + ta == i32_be(b) + tb,
    ensures
        a == b,
        ta == tb,
{
    let x = i32_be(a) + ta;
    let y = i32_be(b) + tb;
    assert(x.take(4) == i32_be(a));
    assert(y.take(4) == i32_be(b));
    lemma_i32_round_trip(a);
    lemma_i32_round_trip(b);
    assert(ta == x.skip(4));
    assert(tb == y.skip(4));
}

} // verus!
