//! Wire primitives: the byte-level building blocks of the message
//! encoding.
//!
//! Every scalar is little-endian and fixed-width; strings and byte blocks
//! are length-prefixed with a 64-bit count; a list of lines is a 64-bit
//! count followed by its length-prefixed items. Each `take_*` reader is
//! exact: it succeeds if and only if a well-formed record starts at the
//! given position, and what it consumed re-encodes to those very bytes.

use vstd::bytes::{
    spec_u32_to_le_bytes, spec_u64_from_le_bytes, spec_u64_to_le_bytes,
    u32_from_le_bytes, u32_to_le_bytes, u64_from_le_bytes, u64_to_le_bytes,
};
use vstd::prelude::*;
use vstd::slice::slice_subrange;
use vstd::utf8::{decode_utf8, encode_utf8, valid_utf8};

verus! {

/// The two's-complement image of an `i64` in a `u64`.
pub open spec fn spec_u64_of_i64(x: i64) -> u64 {
    if x >= 0 {
        x as u64
    } else {
        (x + 0x1_0000_0000_0000_0000) as u64
    }
}

/// Inverse of [`spec_u64_of_i64`].
pub open spec fn spec_i64_of_u64(u: u64) -> i64 {
    if u < 0x8000_0000_0000_0000 {
        u as i64
    } else {
        (u - 0x1_0000_0000_0000_0000) as i64
    }
}

/// The two's-complement image of an `i32` in a `u32`.
pub open spec fn spec_u32_of_i32(x: i32) -> u32 {
    if x >= 0 {
        x as u32
    } else {
        (x + 0x1_0000_0000) as u32
    }
}

/// Inverse of [`spec_u32_of_i32`].
pub open spec fn spec_i32_of_u32(u: u32) -> i32 {
    if u < 0x8000_0000 {
        u as i32
    } else {
        (u - 0x1_0000_0000) as i32
    }
}

pub fn i64_to_u64_repr(x: i64) -> (r: u64)
    ensures
        r == spec_u64_of_i64(x),
{
    if x >= 0 {
        x as u64
    } else {
        let m: u64 = (-(x + 1)) as u64;
        u64::MAX - m
    }
}

pub fn u64_to_i64_repr(u: u64) -> (r: i64)
    ensures
        r == spec_i64_of_u64(u),
{
    if u < 0x8000_0000_0000_0000 {
        u as i64
    } else {
        let m: u64 = u64::MAX - u;
        -(m as i64) - 1
    }
}

pub fn i32_to_u32_repr(x: i32) -> (r: u32)
    ensures
        r == spec_u32_of_i32(x),
{
    if x >= 0 {
        x as u32
    } else {
        let m: u32 = (-(x + 1)) as u32;
        u32::MAX - m
    }
}

pub fn u32_to_i32_repr(u: u32) -> (r: i32)
    ensures
        r == spec_i32_of_u32(u),
{
    if u < 0x8000_0000 {
        u as i32
    } else {
        let m: u32 = u32::MAX - u;
        -(m as i32) - 1
    }
}

/// Relies on `String::from_utf8`: it succeeds exactly on valid UTF-8 and
/// returns the string those bytes encode.
#[verifier::external_body]
fn string_from_utf8(bytes: Vec<u8>) -> (r: Option<String>)
    ensures
        r is Some <==> valid_utf8(bytes@),
        r matches Some(s) ==> s@ == decode_utf8(bytes@),
{
    match String::from_utf8(bytes) {
        Ok(s) => Some(s),
        Err(_) => None,
    }
}

/// A length-prefixed byte block: 64-bit count, then the bytes themselves.
pub open spec fn spec_encode_bytes(b: Seq<u8>) -> Seq<u8> {
    spec_u64_to_le_bytes(b.len() as u64) + b
}

/// A length-prefixed string: its UTF-8 bytes as a byte block.
pub open spec fn spec_encode_str(s: Seq<char>) -> Seq<u8> {
    spec_encode_bytes(encode_utf8(s))
}

/// Append the little-endian bytes of `x` to `out`.
pub fn write_u64(out: &mut Vec<u8>, x: u64)
    ensures
        final(out)@ == old(out)@ + spec_u64_to_le_bytes(x),
{
    let mut tail = u64_to_le_bytes(x);
    out.append(&mut tail);
}

/// Append the little-endian bytes of `x` to `out`.
pub fn write_u32(out: &mut Vec<u8>, x: u32)
    ensures
        final(out)@ == old(out)@ + spec_u32_to_le_bytes(x),
{
    let mut tail = u32_to_le_bytes(x);
    out.append(&mut tail);
}

/// Append a length-prefixed byte block to `out`.
pub fn write_bytes(out: &mut Vec<u8>, b: &[u8])
    ensures
        final(out)@ == old(out)@ + spec_encode_bytes(b@),
{
    write_u64(out, b.len() as u64);
    let mut tail = vstd::slice::slice_to_vec(b);
    out.append(&mut tail);
    proof {
        assert(out@ =~= old(out)@ + spec_encode_bytes(b@));
    }
}

/// Append a length-prefixed string to `out`.
pub fn write_str(out: &mut Vec<u8>, s: &str)
    ensures
        final(out)@ == old(out)@ + spec_encode_str(s@),
{
    write_bytes(out, s.as_bytes());
}

/// True when a well-formed 64-bit scalar starts at `pos`.
pub open spec fn u64_at(bytes: Seq<u8>, pos: int) -> bool {
    0 <= pos && pos + 8 <= bytes.len()
}

/// Read a 64-bit scalar at `pos`; succeeds exactly when 8 bytes remain.
pub fn take_u64(bytes: &[u8], pos: usize) -> (r: Option<(u64, usize)>)
    requires
        pos <= bytes@.len(),
    ensures
        r is Some <==> u64_at(bytes@, pos as int),
        r matches Some((x, p2)) ==> p2 == pos + 8 && bytes@.subrange(pos as int, p2 as int)
            == spec_u64_to_le_bytes(x),
{
    proof {
        vstd::bytes::lemma_auto_spec_u64_to_from_le_bytes();
    }
    if bytes.len() - pos < 8 {
        return None;
    }
    let field = slice_subrange(bytes, pos, pos + 8);
    let x = u64_from_le_bytes(field);
    Some((x, pos + 8))
}

/// True when a well-formed 32-bit scalar starts at `pos`.
pub open spec fn u32_at(bytes: Seq<u8>, pos: int) -> bool {
    0 <= pos && pos + 4 <= bytes.len()
}

/// Read a 32-bit scalar at `pos`; succeeds exactly when 4 bytes remain.
pub fn take_u32(bytes: &[u8], pos: usize) -> (r: Option<(u32, usize)>)
    requires
        pos <= bytes@.len(),
    ensures
        r is Some <==> u32_at(bytes@, pos as int),
        r matches Some((x, p2)) ==> p2 == pos + 4 && bytes@.subrange(pos as int, p2 as int)
            == spec_u32_to_le_bytes(x),
{
    proof {
        vstd::bytes::lemma_auto_spec_u32_to_from_le_bytes();
    }
    if bytes.len() - pos < 4 {
        return None;
    }
    let field = slice_subrange(bytes, pos, pos + 4);
    let x = u32_from_le_bytes(field);
    Some((x, pos + 4))
}

/// True when a well-formed byte block starts at `pos`: a length field
/// whose count of content bytes remains.
pub open spec fn bytes_at(bytes: Seq<u8>, pos: int) -> bool {
    &&& u64_at(bytes, pos)
    &&& pos + 8 + spec_u64_from_le_bytes(bytes.subrange(pos, pos + 8)) <= bytes.len()
}

/// Position just past the byte block starting at `pos`.
pub open spec fn bytes_at_end(bytes: Seq<u8>, pos: int) -> int {
    pos + 8 + spec_u64_from_le_bytes(bytes.subrange(pos, pos + 8))
}

/// Read a length-prefixed byte block at `pos`.
pub fn take_bytes(bytes: &[u8], pos: usize) -> (r: Option<(Vec<u8>, usize)>)
    requires
        pos <= bytes@.len(),
    ensures
        r is Some <==> bytes_at(bytes@, pos as int),
        r matches Some((b, p2)) ==> p2 == bytes_at_end(bytes@, pos as int) && pos < p2 <= bytes@.len()
            && bytes@.subrange(pos as int, p2 as int) == spec_encode_bytes(b@),
{
    proof {
        vstd::bytes::lemma_auto_spec_u64_to_from_le_bytes();
    }
    let (n, p1) = match take_u64(bytes, pos) {
        Some(r) => r,
        None => {
            return None;
        },
    };
    if n > (bytes.len() - p1) as u64 {
        return None;
    }
    let p2 = p1 + (n as usize);
    let content = slice_subrange(bytes, p1, p2);
    let b = vstd::slice::slice_to_vec(content);
    proof {
        assert(bytes@.subrange(pos as int, p2 as int) =~= spec_u64_to_le_bytes(n) + b@);
    }
    Some((b, p2))
}

/// True when a well-formed string record starts at `pos`: a byte block
/// whose content is valid UTF-8.
pub open spec fn str_at(bytes: Seq<u8>, pos: int) -> bool {
    &&& bytes_at(bytes, pos)
    &&& valid_utf8(bytes.subrange(pos + 8, bytes_at_end(bytes, pos)))
}

/// Read a length-prefixed string at `pos`.
pub fn take_str(bytes: &[u8], pos: usize) -> (r: Option<(String, usize)>)
    requires
        pos <= bytes@.len(),
    ensures
        r is Some <==> str_at(bytes@, pos as int),
        r matches Some((s, p2)) ==> p2 == bytes_at_end(bytes@, pos as int) && pos < p2
            <= bytes@.len() && bytes@.subrange(pos as int, p2 as int) == spec_encode_str(s@),
{
    proof {
        vstd::bytes::lemma_auto_spec_u64_to_from_le_bytes();
    }
    let (b, p2) = match take_bytes(bytes, pos) {
        Some(r) => r,
        None => {
            return None;
        },
    };
    proof {
        assert(b@ =~= bytes@.subrange(pos as int + 8, p2 as int)) by {
            let enc = spec_encode_bytes(b@);
            assert(enc.len() == 8 + b@.len());
            assert forall|i: int| 0 <= i < b@.len() implies b@[i] == bytes@.subrange(
                pos as int + 8,
                p2 as int,
            )[i] by {
                assert(bytes@.subrange(pos as int, p2 as int)[8 + i] == enc[8 + i]);
            }
        }
    }
    let ghost content = b@;
    let s = match string_from_utf8(b) {
        Some(s) => s,
        None => {
            return None;
        },
    };
    proof {
        broadcast use vstd::utf8::decode_utf8_encode_utf8;

        assert(encode_utf8(s@) == content);
    }
    Some((s, p2))
}

/// The bytes of `enc` stand at `pos` in `bytes`.
pub open spec fn region_at(bytes: Seq<u8>, pos: int, enc: Seq<u8>) -> bool {
    &&& 0 <= pos
    &&& pos + enc.len() <= bytes.len()
    &&& bytes.subrange(pos, pos + enc.len()) == enc
}

/// When an encoded string stands at `pos`, reading a string there
/// succeeds and recovers exactly it.
pub proof fn lemma_str_at_encoded(bytes: Seq<u8>, pos: int, s: Seq<char>)
    requires
        region_at(bytes, pos, spec_encode_str(s)),
        bytes.len() <= usize::MAX,
    ensures
        str_at(bytes, pos),
        bytes_at_end(bytes, pos) == pos + spec_encode_str(s).len(),
        bytes.subrange(pos + 8, bytes_at_end(bytes, pos)) == encode_utf8(s),
        decode_utf8(bytes.subrange(pos + 8, bytes_at_end(bytes, pos))) == s,
{
    vstd::bytes::lemma_auto_spec_u64_to_from_le_bytes();
    broadcast use vstd::utf8::encode_utf8_valid_utf8;
    broadcast use vstd::utf8::encode_utf8_decode_utf8;

    let enc = spec_encode_str(s);
    let utf8 = encode_utf8(s);
    assert(enc.len() == 8 + utf8.len());
    assert(utf8.len() <= usize::MAX);
    assert forall|j: int| 0 <= j < enc.len() implies bytes[pos + j] == enc[j] by {
        assert(bytes.subrange(pos, pos + enc.len() as int)[j] == enc[j]);
    }
    assert(bytes.subrange(pos, pos + 8) =~= spec_u64_to_le_bytes(utf8.len() as u64));
    assert(spec_u64_from_le_bytes(bytes.subrange(pos, pos + 8)) == utf8.len() as u64);
    assert(bytes.subrange(pos + 8, pos + 8 + utf8.len()) =~= utf8) by {
        assert forall|i: int| 0 <= i < utf8.len() implies bytes.subrange(
            pos + 8,
            pos + 8 + utf8.len(),
        )[i] == utf8[i] by {
            assert(bytes.subrange(pos, pos + enc.len() as int)[8 + i] == enc[8 + i]);
        }
    }
}

/// When an encoded byte block stands at `pos`, reading a block there
/// succeeds and recovers exactly it.
pub proof fn lemma_bytes_at_encoded(bytes: Seq<u8>, pos: int, b: Seq<u8>)
    requires
        region_at(bytes, pos, spec_encode_bytes(b)),
        bytes.len() <= usize::MAX,
    ensures
        bytes_at(bytes, pos),
        bytes_at_end(bytes, pos) == pos + spec_encode_bytes(b).len(),
        bytes.subrange(pos + 8, bytes_at_end(bytes, pos)) == b,
{
    vstd::bytes::lemma_auto_spec_u64_to_from_le_bytes();
    let enc = spec_encode_bytes(b);
    assert(enc.len() == 8 + b.len());
    assert forall|j: int| 0 <= j < enc.len() implies bytes[pos + j] == enc[j] by {
        assert(bytes.subrange(pos, pos + enc.len() as int)[j] == enc[j]);
    }
    assert(bytes.subrange(pos, pos + 8) =~= spec_u64_to_le_bytes(b.len() as u64));
    assert(spec_u64_from_le_bytes(bytes.subrange(pos, pos + 8)) == b.len() as u64);
    assert(bytes.subrange(pos + 8, pos + 8 + b.len()) =~= b) by {
        assert forall|i: int| 0 <= i < b.len() implies bytes.subrange(pos + 8, pos + 8 + b.len())[i]
            == b[i] by {
            assert(bytes.subrange(pos, pos + enc.len() as int)[8 + i] == enc[8 + i]);
        }
    }
}

/// Encoding a string is injective: the UTF-8 bytes pin the characters.
pub proof fn lemma_encode_str_injective(a: Seq<char>, b: Seq<char>)
    requires
        spec_encode_str(a) == spec_encode_str(b),
    ensures
        a == b,
{
    broadcast use vstd::utf8::encode_utf8_decode_utf8;

    vstd::bytes::lemma_auto_spec_u64_to_from_le_bytes();
    assert(spec_encode_str(a).subrange(8, spec_encode_str(a).len() as int) =~= encode_utf8(a));
    assert(spec_encode_str(b).subrange(8, spec_encode_str(b).len() as int) =~= encode_utf8(b));
    assert(encode_utf8(a) == encode_utf8(b));
    assert(decode_utf8(encode_utf8(a)) == a && decode_utf8(encode_utf8(b)) == b);
}

} // verus!
