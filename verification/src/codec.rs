//! Encoding of a single [`Value`] on the wire: one tag byte naming the
//! kind, then the kind's fixed-width scalar or length-prefixed content.
//!
//! `take_value` is exact: it succeeds if and only if a well-formed value
//! record starts at the given position, and the value it returns
//! re-encodes to precisely the bytes consumed. Together with
//! [`lemma_encode_value_injective`] this pins the decoder down: decoding
//! an encoded value can only yield the original.

use crate::value::{Value, ValueV};
use crate::wire::{
    bytes_at, bytes_at_end, lemma_bytes_at_encoded, lemma_str_at_encoded, region_at,
    spec_encode_bytes, spec_encode_str, spec_i32_of_u32, spec_i64_of_u64, spec_u32_of_i32,
    spec_u64_of_i64, str_at, take_bytes, take_str, take_u32, take_u64, u32_at, u32_to_i32_repr,
    u64_at, u64_to_i64_repr, i32_to_u32_repr, i64_to_u64_repr, write_bytes, write_str, write_u32,
    write_u64,
};
use vstd::bytes::{spec_u32_to_le_bytes, spec_u64_to_le_bytes};
use vstd::prelude::*;

verus! {

pub const TAG_STR: u8 = 1;

pub const TAG_INT32: u8 = 2;

pub const TAG_INT64: u8 = 3;

pub const TAG_UINT32: u8 = 4;

pub const TAG_UINT64: u8 = 5;

pub const TAG_BOOL: u8 = 6;

pub const TAG_DOUBLE: u8 = 7;

pub const TAG_FLOAT: u8 = 8;

pub const TAG_BYTES: u8 = 9;

/// The bytes of one encoded value: its kind's tag, then its payload.
pub open spec fn spec_encode_value(v: ValueV) -> Seq<u8> {
    match v {
        ValueV::Str(s) => seq![TAG_STR] + spec_encode_str(s),
        ValueV::Int32(x) => seq![TAG_INT32] + spec_u32_to_le_bytes(spec_u32_of_i32(x)),
        ValueV::Int64(x) => seq![TAG_INT64] + spec_u64_to_le_bytes(spec_u64_of_i64(x)),
        ValueV::Uint32(x) => seq![TAG_UINT32] + spec_u32_to_le_bytes(x),
        ValueV::Uint64(x) => seq![TAG_UINT64] + spec_u64_to_le_bytes(x),
        ValueV::Bool(b) => seq![TAG_BOOL, if b { 1u8 } else { 0u8 }],
        ValueV::DoubleBits(x) => seq![TAG_DOUBLE] + spec_u64_to_le_bytes(x),
        ValueV::FloatBits(x) => seq![TAG_FLOAT] + spec_u32_to_le_bytes(x),
        ValueV::Bytes(b) => seq![TAG_BYTES] + spec_encode_bytes(b),
    }
}

/// True when a well-formed value record starts at `pos`.
pub open spec fn value_at(bytes: Seq<u8>, pos: int) -> bool {
    &&& 0 <= pos && pos + 1 <= bytes.len()
    &&& {
        let tag = bytes[pos];
        ||| (tag == TAG_STR && str_at(bytes, pos + 1))
        ||| ((tag == TAG_INT32 || tag == TAG_UINT32 || tag == TAG_FLOAT) && u32_at(bytes, pos + 1))
        ||| ((tag == TAG_INT64 || tag == TAG_UINT64 || tag == TAG_DOUBLE) && u64_at(bytes, pos + 1))
        ||| (tag == TAG_BOOL && pos + 2 <= bytes.len() && (bytes[pos + 1] == 0 || bytes[pos + 1]
            == 1))
        ||| (tag == TAG_BYTES && bytes_at(bytes, pos + 1))
    }
}

/// Position just past the value record starting at `pos`.
pub open spec fn value_at_end(bytes: Seq<u8>, pos: int) -> int {
    let tag = bytes[pos];
    if tag == TAG_STR || tag == TAG_BYTES {
        bytes_at_end(bytes, pos + 1)
    } else if tag == TAG_BOOL {
        pos + 2
    } else if tag == TAG_INT32 || tag == TAG_UINT32 || tag == TAG_FLOAT {
        pos + 5
    } else {
        pos + 9
    }
}

/// Append the encoding of `v` to `out`.
pub fn write_value(out: &mut Vec<u8>, v: &Value)
    ensures
        final(out)@ == old(out)@ + spec_encode_value(v@),
{
    match v {
        Value::Str(s) => {
            out.push(TAG_STR);
            write_str(out, s.as_str());
        },
        Value::Int32(x) => {
            out.push(TAG_INT32);
            write_u32(out, i32_to_u32_repr(*x));
        },
        Value::Int64(x) => {
            out.push(TAG_INT64);
            write_u64(out, i64_to_u64_repr(*x));
        },
        Value::Uint32(x) => {
            out.push(TAG_UINT32);
            write_u32(out, *x);
        },
        Value::Uint64(x) => {
            out.push(TAG_UINT64);
            write_u64(out, *x);
        },
        Value::Bool(b) => {
            out.push(TAG_BOOL);
            out.push(if *b { 1u8 } else { 0u8 });
        },
        Value::DoubleBits(x) => {
            out.push(TAG_DOUBLE);
            write_u64(out, *x);
        },
        Value::FloatBits(x) => {
            out.push(TAG_FLOAT);
            write_u32(out, *x);
        },
        Value::Bytes(b) => {
            out.push(TAG_BYTES);
            write_bytes(out, b.as_slice());
        },
    }
    proof {
        assert(out@ =~= old(out)@ + spec_encode_value(v@));
    }
}

/// A region's first byte and the rest, seen separately.
proof fn lemma_region_tail(bytes: Seq<u8>, pos: int, enc: Seq<u8>)
    requires
        region_at(bytes, pos, enc),
        enc.len() >= 1,
    ensures
        bytes[pos] == enc[0],
        region_at(bytes, pos + 1, enc.drop_first()),
    decreases enc.len(),
{
    assert(bytes.subrange(pos, pos + enc.len() as int)[0] == enc[0]);
    assert forall|i: int| 0 <= i < enc.len() - 1 implies bytes.subrange(
        pos + 1,
        pos + enc.len() as int,
    )[i] == enc.drop_first()[i] by {
        assert(bytes.subrange(pos, pos + enc.len() as int)[i + 1] == enc[i + 1]);
    }
    assert(bytes.subrange(pos + 1, pos + enc.len() as int) =~= enc.drop_first());
}

/// When an encoded value stands at `pos`, a well-formed value record
/// starts there and ends exactly at the encoding's end.
pub proof fn lemma_value_at_encoded(bytes: Seq<u8>, pos: int, v: ValueV)
    requires
        region_at(bytes, pos, spec_encode_value(v)),
        bytes.len() <= usize::MAX,
    ensures
        value_at(bytes, pos),
        value_at_end(bytes, pos) == pos + spec_encode_value(v).len(),
{
    vstd::bytes::lemma_auto_spec_u64_to_from_le_bytes();
    vstd::bytes::lemma_auto_spec_u32_to_from_le_bytes();
    let enc = spec_encode_value(v);
    lemma_region_tail(bytes, pos, enc);
    match v {
        ValueV::Str(s) => {
            assert(enc.drop_first() =~= spec_encode_str(s));
            lemma_str_at_encoded(bytes, pos + 1, s);
        },
        ValueV::Bytes(b) => {
            assert(enc.drop_first() =~= spec_encode_bytes(b));
            lemma_bytes_at_encoded(bytes, pos + 1, b);
        },
        ValueV::Bool(b) => {
            assert(bytes.subrange(pos, pos + 2)[1] == enc[1]);
        },
        _ => {},
    }
}

/// Read one value record at `pos`.
pub fn take_value(bytes: &[u8], pos: usize) -> (r: Option<(Value, usize)>)
    requires
        pos <= bytes@.len(),
    ensures
        r is Some <==> value_at(bytes@, pos as int),
        r matches Some((v, p2)) ==> p2 == value_at_end(bytes@, pos as int) && pos < p2
            <= bytes@.len() && bytes@.subrange(pos as int, p2 as int) == spec_encode_value(v@),
{
    proof {
        vstd::bytes::lemma_auto_spec_u64_to_from_le_bytes();
        vstd::bytes::lemma_auto_spec_u32_to_from_le_bytes();
    }
    if bytes.len() - pos < 1 {
        return None;
    }
    let tag = bytes[pos];
    if tag == TAG_STR {
        match take_str(bytes, pos + 1) {
            Some((s, p2)) => {
                proof {
                    assert(bytes@.subrange(pos as int, p2 as int) =~= seq![TAG_STR]
                        + spec_encode_str(s@)) by {
                        lemma_split_value_region(bytes@, pos as int, p2 as int);
                    }
                }
                Some((Value::Str(s), p2))
            },
            None => None,
        }
    } else if tag == TAG_INT32 {
        match take_u32(bytes, pos + 1) {
            Some((u, p2)) => {
                let x = u32_to_i32_repr(u);
                proof {
                    lemma_u32_i32_round_trip(u);
                    lemma_split_value_region(bytes@, pos as int, p2 as int);
                }
                Some((Value::Int32(x), p2))
            },
            None => None,
        }
    } else if tag == TAG_INT64 {
        match take_u64(bytes, pos + 1) {
            Some((u, p2)) => {
                let x = u64_to_i64_repr(u);
                proof {
                    lemma_u64_i64_round_trip(u);
                    lemma_split_value_region(bytes@, pos as int, p2 as int);
                }
                Some((Value::Int64(x), p2))
            },
            None => None,
        }
    } else if tag == TAG_UINT32 {
        match take_u32(bytes, pos + 1) {
            Some((u, p2)) => {
                proof {
                    lemma_split_value_region(bytes@, pos as int, p2 as int);
                }
                Some((Value::Uint32(u), p2))
            },
            None => None,
        }
    } else if tag == TAG_UINT64 {
        match take_u64(bytes, pos + 1) {
            Some((u, p2)) => {
                proof {
                    lemma_split_value_region(bytes@, pos as int, p2 as int);
                }
                Some((Value::Uint64(u), p2))
            },
            None => None,
        }
    } else if tag == TAG_BOOL {
        if bytes.len() - pos < 2 {
            return None;
        }
        let byte = bytes[pos + 1];
        if byte == 0 || byte == 1 {
            proof {
                assert(bytes@.subrange(pos as int, pos as int + 2) =~= seq![
                    TAG_BOOL,
                    if byte == 1 {
                        1u8
                    } else {
                        0u8
                    },
                ]);
            }
            Some((Value::Bool(byte == 1), pos + 2))
        } else {
            None
        }
    } else if tag == TAG_DOUBLE {
        match take_u64(bytes, pos + 1) {
            Some((u, p2)) => {
                proof {
                    lemma_split_value_region(bytes@, pos as int, p2 as int);
                }
                Some((Value::DoubleBits(u), p2))
            },
            None => None,
        }
    } else if tag == TAG_FLOAT {
        match take_u32(bytes, pos + 1) {
            Some((u, p2)) => {
                proof {
                    lemma_split_value_region(bytes@, pos as int, p2 as int);
                }
                Some((Value::FloatBits(u), p2))
            },
            None => None,
        }
    } else if tag == TAG_BYTES {
        match take_bytes(bytes, pos + 1) {
            Some((b, p2)) => {
                proof {
                    lemma_split_value_region(bytes@, pos as int, p2 as int);
                }
                Some((Value::Bytes(b), p2))
            },
            None => None,
        }
    } else {
        None
    }
}

/// A region from `pos` whose tail from `pos + 1` is known equals the
/// one-byte tag followed by that tail.
proof fn lemma_split_value_region(bytes: Seq<u8>, pos: int, p2: int)
    requires
        0 <= pos < p2 <= bytes.len(),
    ensures
        bytes.subrange(pos, p2) =~= seq![bytes[pos]] + bytes.subrange(pos + 1, p2),
{
    assert forall|i: int| 0 <= i < p2 - pos implies bytes.subrange(pos, p2)[i] == (seq![bytes[pos]]
        + bytes.subrange(pos + 1, p2))[i] by {
        if i > 0 {
            assert(bytes.subrange(pos + 1, p2)[i - 1] == bytes[pos + i]);
        }
    }
}

pub proof fn lemma_u64_i64_round_trip(u: u64)
    ensures
        spec_u64_of_i64(spec_i64_of_u64(u)) == u,
{
}

pub proof fn lemma_u32_i32_round_trip(u: u32)
    ensures
        spec_u32_of_i32(spec_i32_of_u32(u)) == u,
{
}

/// Law: encoding then decoding any value kind — empty strings and byte
/// sequences included — yields the original. A buffer holding exactly
/// `v`'s encoding carries a value record spanning it whole, so
/// `take_value` succeeds there; its result re-encodes to those bytes,
/// and `v` is the only value that does.
pub proof fn lemma_value_round_trip(bytes: Seq<u8>, v: ValueV)
    requires
        bytes == spec_encode_value(v),
        bytes.len() <= usize::MAX,
    ensures
        value_at(bytes, 0),
        value_at_end(bytes, 0) == bytes.len(),
        forall|w: ValueV| bytes == spec_encode_value(w) ==> w == v,
{
    assert(bytes.subrange(0, bytes.len() as int) =~= bytes);
    lemma_value_at_encoded(bytes, 0, v);
    assert forall|w: ValueV| bytes == spec_encode_value(w) implies w == v by {
        lemma_encode_value_injective(w, v);
    }
}

/// Law: encoding values is injective — no two distinct values share an
/// encoding, so decoding an encoded value can only yield the original.
pub proof fn lemma_encode_value_injective(a: ValueV, b: ValueV)
    requires
        spec_encode_value(a) == spec_encode_value(b),
    ensures
        a == b,
{
    vstd::bytes::lemma_auto_spec_u64_to_from_le_bytes();
    vstd::bytes::lemma_auto_spec_u32_to_from_le_bytes();
    let ea = spec_encode_value(a);
    let eb = spec_encode_value(b);
    assert(ea[0] == eb[0]);
    let ta = ea.drop_first();
    let tb = eb.drop_first();
    assert(ta == tb);
    match (a, b) {
        (ValueV::Str(x), ValueV::Str(y)) => {
            assert(ta =~= spec_encode_str(x));
            assert(tb =~= spec_encode_str(y));
            crate::wire::lemma_encode_str_injective(x, y);
        },
        (ValueV::Int32(x), ValueV::Int32(y)) => {
            assert(ta =~= spec_u32_to_le_bytes(spec_u32_of_i32(x)));
            assert(tb =~= spec_u32_to_le_bytes(spec_u32_of_i32(y)));
            assert(spec_u32_of_i32(x) == spec_u32_of_i32(y));
        },
        (ValueV::Int64(x), ValueV::Int64(y)) => {
            assert(ta =~= spec_u64_to_le_bytes(spec_u64_of_i64(x)));
            assert(tb =~= spec_u64_to_le_bytes(spec_u64_of_i64(y)));
            assert(spec_u64_of_i64(x) == spec_u64_of_i64(y));
        },
        (ValueV::Uint32(x), ValueV::Uint32(y)) => {
            assert(ta =~= spec_u32_to_le_bytes(x));
            assert(tb =~= spec_u32_to_le_bytes(y));
        },
        (ValueV::Uint64(x), ValueV::Uint64(y)) => {
            assert(ta =~= spec_u64_to_le_bytes(x));
            assert(tb =~= spec_u64_to_le_bytes(y));
        },
        (ValueV::Bool(x), ValueV::Bool(y)) => {
            assert(ea[1] == eb[1]);
        },
        (ValueV::DoubleBits(x), ValueV::DoubleBits(y)) => {
            assert(ta =~= spec_u64_to_le_bytes(x));
            assert(tb =~= spec_u64_to_le_bytes(y));
        },
        (ValueV::FloatBits(x), ValueV::FloatBits(y)) => {
            assert(ta =~= spec_u32_to_le_bytes(x));
            assert(tb =~= spec_u32_to_le_bytes(y));
        },
        (ValueV::Bytes(x), ValueV::Bytes(y)) => {
            assert(ta =~= spec_encode_bytes(x));
            assert(tb =~= spec_encode_bytes(y));
            assert(x.len() == y.len());
            assert(x =~= y) by {
                assert forall|i: int| 0 <= i < x.len() implies x[i] == y[i] by {
                    assert(spec_encode_bytes(x)[8 + i] == spec_encode_bytes(y)[8 + i]);
                }
            }
        },
        _ => {},
    }
}

} // verus!
