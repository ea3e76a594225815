//! The building blocks of the stored layout: fixed-width little-endian
//! integers, and texts as a length followed by UTF-8 bytes.
//!
//! Every `parse_*` function reads one value from the front of a byte
//! sequence and gives it back with the bytes that follow.

use vstd::prelude::*;
use vstd::bytes::*;
use vstd::slice::*;
use vstd::string::*;
use vstd::utf8::*;

verus! {

/// The value that a parser read, where it read one.
pub open spec fn item_of<T>(r: Option<(T, Seq<u8>)>) -> T {
    (r->0).0
}

/// The bytes that follow what a parser read, where it read anything.
pub open spec fn rest_of<T>(r: Option<(T, Seq<u8>)>) -> Seq<u8> {
    (r->0).1
}

/// The stored layout of an unsigned 64-bit number.
pub open spec fn wire_u64(v: u64) -> Seq<u8> {
    spec_u64_to_le_bytes(v)
}

/// Reads an unsigned 64-bit number from the front of `s`.
pub open spec fn parse_u64(s: Seq<u8>) -> Option<(u64, Seq<u8>)> {
    if s.len() >= 8 {
        Some((spec_u64_from_le_bytes(s.take(8)), s.skip(8)))
    } else {
        None
    }
}

/// The stored layout of an unsigned 128-bit number.
pub open spec fn wire_u128(v: u128) -> Seq<u8> {
    spec_u128_to_le_bytes(v)
}

/// Reads an unsigned 128-bit number from the front of `s`.
pub open spec fn parse_u128(s: Seq<u8>) -> Option<(u128, Seq<u8>)> {
    if s.len() >= 16 {
        Some((spec_u128_from_le_bytes(s.take(16)), s.skip(16)))
    } else {
        None
    }
}

/// A signed value is laid out as the unsigned value with the same bits.
pub open spec fn wire_i32(v: i32) -> Seq<u8> {
    spec_u32_to_le_bytes(v as u32)
}

/// Reads a signed 32-bit number from the front of `s`.
pub open spec fn parse_i32(s: Seq<u8>) -> Option<(i32, Seq<u8>)> {
    if s.len() >= 4 {
        Some((spec_u32_from_le_bytes(s.take(4)) as i32, s.skip(4)))
    } else {
        None
    }
}

/// Whether the UTF-8 form of `t` has a length that the layout can hold.
pub open spec fn text_fits(t: Seq<char>) -> bool {
    encode_utf8(t).len() <= u64::MAX
}

/// The stored layout of a text.
pub open spec fn wire_text(t: Seq<char>) -> Seq<u8> {
    wire_u64(encode_utf8(t).len() as u64) + encode_utf8(t)
}

/// Reads a text from the front of `s`.
pub open spec fn parse_text(s: Seq<u8>) -> Option<(Seq<char>, Seq<u8>)> {
    match parse_u64(s) {
        Some((n, rest)) => {
            if n <= rest.len() && valid_utf8(rest.take(n as int)) {
                Some((decode_utf8(rest.take(n as int)), rest.skip(n as int)))
            } else {
                None
            }
        },
        None => None,
    }
}

/// An unsigned 64-bit number that is laid out and read back is the same.
pub proof fn lemma_u64_round_trip(v: u64, rest: Seq<u8>)
    ensures
        wire_u64(v).len() == 8,
        parse_u64(wire_u64(v) + rest) == Some((v, rest)),
{
    lemma_auto_spec_u64_to_from_le_bytes();
    let s = wire_u64(v) + rest;
    assert(s.take(8) =~= wire_u64(v));
    assert(s.skip(8) =~= rest);
}

/// An unsigned 128-bit number that is laid out and read back is the same.
pub proof fn lemma_u128_round_trip(v: u128, rest: Seq<u8>)
    ensures
        wire_u128(v).len() == 16,
        parse_u128(wire_u128(v) + rest) == Some((v, rest)),
{
    lemma_auto_spec_u128_to_from_le_bytes();
    let s = wire_u128(v) + rest;
    assert(s.take(16) =~= wire_u128(v));
    assert(s.skip(16) =~= rest);
}

/// A signed 32-bit number that is laid out and read back is the same.
pub proof fn lemma_i32_round_trip(v: i32, rest: Seq<u8>)
    ensures
        wire_i32(v).len() == 4,
        parse_i32(wire_i32(v) + rest) == Some((v, rest)),
{
    lemma_auto_spec_u32_to_from_le_bytes();
    let s = wire_i32(v) + rest;
    assert(s.take(4) =~= wire_i32(v));
    assert(s.skip(4) =~= rest);
    assert((v as u32) as i32 == v) by (bit_vector);
}

/// A text that is laid out and read back is the same.
pub proof fn lemma_text_round_trip(t: Seq<char>, rest: Seq<u8>)
    requires
        text_fits(t),
    ensures
        parse_text(wire_text(t) + rest) == Some((t, rest)),
{
    let body = encode_utf8(t);
    let n = body.len() as u64;
    lemma_u64_round_trip(n, body + rest);
    assert(wire_text(t) + rest =~= wire_u64(n) + (body + rest));
    assert((body + rest).take(n as int) =~= body);
    assert((body + rest).skip(n as int) =~= rest);
    encode_utf8_valid_utf8(t);
    encode_utf8_decode_utf8(t);
}

/// What was read is laid out in one way only: as the bytes it was read from.
pub proof fn lemma_u64_canonical(s: Seq<u8>)
    requires
        parse_u64(s) is Some,
    ensures
        s == wire_u64(item_of(parse_u64(s))) + rest_of(parse_u64(s)),
{
    lemma_auto_spec_u64_to_from_le_bytes();
    assert(s.take(8).len() == 8);
    assert(s =~= s.take(8) + s.skip(8));
}

/// Bytes that are read as an unsigned 128-bit number are the layout of what was read.
pub proof fn lemma_u128_canonical(s: Seq<u8>)
    requires
        parse_u128(s) is Some,
    ensures
        s == wire_u128(item_of(parse_u128(s))) + rest_of(parse_u128(s)),
{
    lemma_auto_spec_u128_to_from_le_bytes();
    assert(s.take(16).len() == 16);
    assert(s =~= s.take(16) + s.skip(16));
}

/// Bytes that are read as a signed 32-bit number are the layout of what was read.
pub proof fn lemma_i32_canonical(s: Seq<u8>)
    requires
        parse_i32(s) is Some,
    ensures
        s == wire_i32(item_of(parse_i32(s))) + rest_of(parse_i32(s)),
{
    lemma_auto_spec_u32_to_from_le_bytes();
    assert(s.take(4).len() == 4);
    let u = spec_u32_from_le_bytes(s.take(4));
    assert((u as i32) as u32 == u) by (bit_vector);
    assert(s =~= s.take(4) + s.skip(4));
}

/// Bytes that are read as a text are the layout of what was read.
pub proof fn lemma_text_canonical(s: Seq<u8>)
    requires
        parse_text(s) is Some,
    ensures
        s == wire_text(item_of(parse_text(s))) + rest_of(parse_text(s)),
        text_fits(item_of(parse_text(s))),
{
    lemma_u64_canonical(s);
    let n = item_of(parse_u64(s));
    let after = rest_of(parse_u64(s));
    let body = after.take(n as int);
    decode_utf8_encode_utf8(body);
    assert(after =~= body + after.skip(n as int));
    assert(s =~= wire_text(decode_utf8(body)) + after.skip(n as int));
}

/// Appends the bytes of `src` to `out`.
pub fn put_bytes(out: &mut Vec<u8>, src: &[u8])
    ensures
        final(out)@ == old(out)@ + src@,
{
    let mut i: usize = 0;
    while i < src.len()
        invariant
            i <= src@.len(),
            out@ == old(out)@ + src@.take(i as int),
        decreases src@.len() - i,
    {
        out.push(src[i]);
        i += 1;
        assert(out@ =~= old(out)@ + src@.take(i as int));
    }
    assert(src@.take(i as int) =~= src@);
}

/// Appends the layout of an unsigned 64-bit number to `out`.
pub fn put_u64(out: &mut Vec<u8>, v: u64)
    ensures
        final(out)@ == old(out)@ + wire_u64(v),
{
    let b = u64_to_le_bytes(v);
    put_bytes(out, b.as_slice());
}

/// Appends the layout of an unsigned 128-bit number to `out`.
pub fn put_u128(out: &mut Vec<u8>, v: u128)
    ensures
        final(out)@ == old(out)@ + wire_u128(v),
{
    let b = u128_to_le_bytes(v);
    put_bytes(out, b.as_slice());
}

/// Appends the layout of a signed 32-bit number to `out`.
pub fn put_i32(out: &mut Vec<u8>, v: i32)
    ensures
        final(out)@ == old(out)@ + wire_i32(v),
{
    let b = u32_to_le_bytes(#[verifier::truncate] (v as u32));
    put_bytes(out, b.as_slice());
}

/// Appends the layout of a text to `out`.
pub fn put_text(out: &mut Vec<u8>, t: &str)
    ensures
        final(out)@ == old(out)@ + wire_text(t@),
        text_fits(t@),
{
    let body = t.as_bytes();
    put_u64(out, body.len() as u64);
    put_bytes(out, body);
    assert(out@ =~= old(out)@ + wire_text(t@));
}

/// `String::from_utf8` of std, with its error dropped. std accepts exactly
/// the well-formed UTF-8 byte strings, and the text it gives back has the
/// given bytes as its UTF-8 form.
#[verifier::external_body]
pub(crate) fn text_from_utf8(bytes: Vec<u8>) -> (r: Option<String>)
    ensures
        match r {
            Some(t) => valid_utf8(bytes@) && t@ == decode_utf8(bytes@),
            None => !valid_utf8(bytes@),
        },
{
    String::from_utf8(bytes).ok()
}

/// Reads a `u64` at `pos`; gives the value and the position behind it.
pub fn take_u64(bytes: &[u8], pos: usize) -> (r: Option<(u64, usize)>)
    requires
        pos <= bytes@.len(),
    ensures
        match r {
            Some((v, next)) => pos <= next <= bytes@.len() && parse_u64(bytes@.skip(pos as int))
                == Some((v, bytes@.skip(next as int))),
            None => parse_u64(bytes@.skip(pos as int)) is None,
        },
{
    if bytes.len() - pos < 8 {
        return None;
    }
    let v = u64_from_le_bytes(slice_subrange(bytes, pos, pos + 8));
    proof {
        let s = bytes@.skip(pos as int);
        assert(s.take(8) =~= bytes@.subrange(pos as int, pos + 8));
        assert(s.skip(8) =~= bytes@.skip(pos + 8));
    }
    Some((v, pos + 8))
}

/// Reads an unsigned 128-bit number at `pos`; gives it and the position behind it.
pub fn take_u128(bytes: &[u8], pos: usize) -> (r: Option<(u128, usize)>)
    requires
        pos <= bytes@.len(),
    ensures
        match r {
            Some((v, next)) => pos <= next <= bytes@.len() && parse_u128(bytes@.skip(pos as int))
                == Some((v, bytes@.skip(next as int))),
            None => parse_u128(bytes@.skip(pos as int)) is None,
        },
{
    if bytes.len() - pos < 16 {
        return None;
    }
    let v = u128_from_le_bytes(slice_subrange(bytes, pos, pos + 16));
    proof {
        let s = bytes@.skip(pos as int);
        assert(s.take(16) =~= bytes@.subrange(pos as int, pos + 16));
        assert(s.skip(16) =~= bytes@.skip(pos + 16));
    }
    Some((v, pos + 16))
}

/// Reads a signed 32-bit number at `pos`; gives it and the position behind it.
pub fn take_i32(bytes: &[u8], pos: usize) -> (r: Option<(i32, usize)>)
    requires
        pos <= bytes@.len(),
    ensures
        match r {
            Some((v, next)) => pos <= next <= bytes@.len() && parse_i32(bytes@.skip(pos as int))
                == Some((v, bytes@.skip(next as int))),
            None => parse_i32(bytes@.skip(pos as int)) is None,
        },
{
    if bytes.len() - pos < 4 {
        return None;
    }
    let u = u32_from_le_bytes(slice_subrange(bytes, pos, pos + 4));
    proof {
        let s = bytes@.skip(pos as int);
        assert(s.take(4) =~= bytes@.subrange(pos as int, pos + 4));
        assert(s.skip(4) =~= bytes@.skip(pos + 4));
    }
    Some((#[verifier::truncate] (u as i32), pos + 4))
}

/// Reads a text at `pos`; gives it and the position behind it.
pub fn take_text(bytes: &[u8], pos: usize) -> (r: Option<(String, usize)>)
    requires
        pos <= bytes@.len(),
    ensures
        match r {
            Some((t, next)) => pos <= next <= bytes@.len() && parse_text(bytes@.skip(pos as int))
                == Some((t@, bytes@.skip(next as int))),
            None => parse_text(bytes@.skip(pos as int)) is None,
        },
{
    let (n, start) = match take_u64(bytes, pos) {
        Some(p) => p,
        None => { return None; },
    };
    if n > (bytes.len() - start) as u64 {
        return None;
    }
    let end = start + n as usize;
    let body = slice_to_vec(slice_subrange(bytes, start, end));
    proof {
        let rest = bytes@.skip(start as int);
        assert(rest.take(n as int) =~= body@);
        assert(rest.skip(n as int) =~= bytes@.skip(end as int));
    }
    match text_from_utf8(body) {
        Some(t) => Some((t, end)),
        None => None,
    }
}

} // verus!
