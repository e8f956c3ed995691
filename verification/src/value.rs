//! The value model: a tagged variant of primitive kinds, the unit of data
//! cached and transmitted on channels.
//!
//! Floating-point values travel as their IEEE 754 bit patterns
//! (`DoubleBits`, `FloatBits`); callers convert with `to_bits`/`from_bits`
//! at the boundary, which loses nothing.

use vstd::prelude::*;
use vstd::slice::slice_to_vec;

verus! {

/// The mathematical shape of a [`Value`]: each variant over its view.
pub enum ValueV {
    Str(Seq<char>),
    Int32(i32),
    Int64(i64),
    Uint32(u32),
    Uint64(u64),
    Bool(bool),
    DoubleBits(u64),
    FloatBits(u32),
    Bytes(Seq<u8>),
}

/// A typed value carried on a channel. Immutable once built; structural
/// equality per variant.
#[derive(Debug, PartialEq, Eq)]
pub enum Value {
    Str(String),
    Int32(i32),
    Int64(i64),
    Uint32(u32),
    Uint64(u64),
    Bool(bool),
    DoubleBits(u64),
    FloatBits(u32),
    Bytes(Vec<u8>),
}

impl View for Value {
    type V = ValueV;

    open spec fn view(&self) -> ValueV {
        match self {
            Value::Str(s) => ValueV::Str(s@),
            Value::Int32(x) => ValueV::Int32(*x),
            Value::Int64(x) => ValueV::Int64(*x),
            Value::Uint32(x) => ValueV::Uint32(*x),
            Value::Uint64(x) => ValueV::Uint64(*x),
            Value::Bool(b) => ValueV::Bool(*b),
            Value::DoubleBits(x) => ValueV::DoubleBits(*x),
            Value::FloatBits(x) => ValueV::FloatBits(*x),
            Value::Bytes(b) => ValueV::Bytes(b@),
        }
    }
}

impl Clone for Value {
    fn clone(&self) -> (res: Self)
        ensures
            res@ == self@,
    {
        match self {
            Value::Str(s) => Value::Str(s.clone()),
            Value::Int32(x) => Value::Int32(*x),
            Value::Int64(x) => Value::Int64(*x),
            Value::Uint32(x) => Value::Uint32(*x),
            Value::Uint64(x) => Value::Uint64(*x),
            Value::Bool(b) => Value::Bool(*b),
            Value::DoubleBits(x) => Value::DoubleBits(*x),
            Value::FloatBits(x) => Value::FloatBits(*x),
            Value::Bytes(b) => Value::Bytes(slice_to_vec(b.as_slice())),
        }
    }
}

/// The reserved string denoting "this channel has never been written".
pub open spec fn spec_no_data_sentinel() -> Seq<char> {
    "XTABLES_INTERNAL_NO_DATA_AVAILABLE"@
}

/// The sentinel value a query returns for a channel with no data.
pub fn no_data_sentinel() -> (r: Value)
    ensures
        r@ == ValueV::Str(spec_no_data_sentinel()),
{
    Value::Str("XTABLES_INTERNAL_NO_DATA_AVAILABLE".to_owned())
}

impl Value {
    /// Whether this value is the reserved "no data available" sentinel.
    pub fn is_no_data_sentinel(&self) -> (r: bool)
        ensures
            r == (self@ == ValueV::Str(spec_no_data_sentinel())),
    {
        match self {
            Value::Str(s) => {
                let sentinel = "XTABLES_INTERNAL_NO_DATA_AVAILABLE".to_owned();
                *s == sentinel
            },
            _ => false,
        }
    }
}

} // verus!
