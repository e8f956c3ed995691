//! The versioned wire envelopes: each message is a version byte, a
//! payload discriminant, and one payload variant.
//!
//! - `Push`: a publish command from a producer (channel, value).
//! - `Publish`: a broadcast, either one channel's value or a batch of
//!   log lines.
//! - `Request`: a query, either get-latest for a channel or get-logs.
//! - `Reply`: the answer, either a value or the retained log lines.
//!
//! Every decoder is exact: it succeeds if and only if its `*_at`
//! predicate holds of the whole input, and the message it returns
//! re-encodes to exactly those bytes; the `lemma_*_injective` laws then
//! pin each decoder's result down to the original message.

use crate::codec::{
    lemma_encode_value_injective, lemma_value_at_encoded, spec_encode_value, take_value, value_at,
    value_at_end, write_value,
};
use crate::value::{Value, ValueV};
use crate::wire::{
    bytes_at_end, lemma_encode_str_injective, lemma_str_at_encoded, region_at, spec_encode_str,
    str_at, take_str, take_u64, u64_at, write_str, write_u64,
};
use vstd::bytes::{spec_u64_from_le_bytes, spec_u64_to_le_bytes};
use vstd::prelude::*;

verus! {

pub const WIRE_VERSION: u8 = 1;

pub const MSG_PUSH_SEND: u8 = 1;

pub const MSG_PUBLISH_DATA: u8 = 1;

pub const MSG_PUBLISH_LOGS: u8 = 2;

pub const MSG_REQUEST_GET: u8 = 1;

pub const MSG_REQUEST_LOGS: u8 = 2;

pub const MSG_REPLY_DATA: u8 = 1;

pub const MSG_REPLY_LOGS: u8 = 2;

// ------------------------------------------------------------------
// Lists of log lines: a 64-bit count, then each line length-prefixed.
// ------------------------------------------------------------------
/// The items of a line list, encoded in order.
pub open spec fn spec_encode_lines_items(ls: Seq<Seq<char>>) -> Seq<u8>
    decreases ls.len(),
{
    if ls.len() == 0 {
        Seq::empty()
    } else {
        spec_encode_str(ls.first()) + spec_encode_lines_items(ls.drop_first())
    }
}

/// A line list: its count, then its items.
pub open spec fn spec_encode_lines(ls: Seq<Seq<char>>) -> Seq<u8> {
    spec_u64_to_le_bytes(ls.len() as u64) + spec_encode_lines_items(ls)
}

/// True when `count` well-formed string records stand in sequence at `pos`.
pub open spec fn lines_items_at(bytes: Seq<u8>, pos: int, count: nat) -> bool
    decreases count,
{
    if count == 0 {
        true
    } else {
        str_at(bytes, pos) && lines_items_at(bytes, bytes_at_end(bytes, pos), (count - 1) as nat)
    }
}

/// Position just past `count` string records starting at `pos`.
pub open spec fn lines_items_end(bytes: Seq<u8>, pos: int, count: nat) -> int
    decreases count,
{
    if count == 0 {
        pos
    } else {
        lines_items_end(bytes, bytes_at_end(bytes, pos), (count - 1) as nat)
    }
}

/// True when a well-formed line list starts at `pos`.
pub open spec fn lines_at(bytes: Seq<u8>, pos: int) -> bool {
    &&& u64_at(bytes, pos)
    &&& lines_items_at(
        bytes,
        pos + 8,
        spec_u64_from_le_bytes(bytes.subrange(pos, pos + 8)) as nat,
    )
}

/// Position just past the line list starting at `pos`.
pub open spec fn lines_at_end(bytes: Seq<u8>, pos: int) -> int {
    lines_items_end(bytes, pos + 8, spec_u64_from_le_bytes(bytes.subrange(pos, pos + 8)) as nat)
}

/// Appending one line extends the encoded items by that line's record.
proof fn lemma_lines_items_snoc(ls: Seq<Seq<char>>, i: int)
    requires
        0 <= i < ls.len(),
    ensures
        spec_encode_lines_items(ls.take(i + 1)) == spec_encode_lines_items(ls.take(i))
            + spec_encode_str(ls[i]),
    decreases i,
{
    if i == 0 {
        assert(ls.take(1).first() == ls[0]);
        assert(ls.take(1).drop_first() =~= Seq::<Seq<char>>::empty());
        assert(ls.take(0) =~= Seq::<Seq<char>>::empty());
        assert(spec_encode_lines_items(ls.take(1)) =~= spec_encode_lines_items(ls.take(0))
            + spec_encode_str(ls[0]));
    } else {
        lemma_lines_items_snoc(ls.drop_first(), i - 1);
        assert(ls.take(i + 1).first() == ls.first());
        assert(ls.take(i).first() == ls.first());
        assert(ls.take(i + 1).drop_first() =~= ls.drop_first().take(i));
        assert(ls.take(i).drop_first() =~= ls.drop_first().take(i - 1));
        assert(ls.drop_first()[i - 1] == ls[i]);
        assert(spec_encode_str(ls.first()) + (spec_encode_lines_items(ls.drop_first().take(i - 1))
            + spec_encode_str(ls[i])) =~= (spec_encode_str(ls.first())
            + spec_encode_lines_items(ls.drop_first().take(i - 1))) + spec_encode_str(ls[i]));
    }
}

/// Append the encoding of a line list to `out`.
pub fn write_lines(out: &mut Vec<u8>, lines: &Vec<String>)
    ensures
        final(out)@ == old(out)@ + spec_encode_lines(lines.deep_view()),
{
    let ghost dv = lines.deep_view();
    write_u64(out, lines.len() as u64);
    proof {
        assert(dv.take(0) =~= Seq::<Seq<char>>::empty());
    }
    let n = lines.len();
    let mut i: usize = 0;
    while i < n
        invariant
            i <= n,
            n == lines@.len(),
            dv == lines.deep_view(),
            out@ == old(out)@ + spec_u64_to_le_bytes(dv.len() as u64) + spec_encode_lines_items(
                dv.take(i as int),
            ),
        decreases n - i,
    {
        write_str(out, lines[i].as_str());
        proof {
            lemma_lines_items_snoc(dv, i as int);
            assert(dv[i as int] == lines@[i as int]@);
            assert(out@ =~= old(out)@ + spec_u64_to_le_bytes(dv.len() as u64)
                + spec_encode_lines_items(dv.take(i + 1)));
        }
        i = i + 1;
    }
    proof {
        assert(dv.take(n as int) =~= dv);
        assert(out@ =~= old(out)@ + spec_encode_lines(dv));
    }
}

/// Read `count` string records at `pos`.
fn take_lines_items(bytes: &[u8], pos: usize, count: u64) -> (r: Option<(Vec<String>, usize)>)
    requires
        pos <= bytes@.len(),
    ensures
        r is Some <==> lines_items_at(bytes@, pos as int, count as nat),
        r matches Some((ls, p2)) ==> ls@.len() == count && pos <= p2 <= bytes@.len() && p2
            == lines_items_end(bytes@, pos as int, count as nat) && bytes@.subrange(
            pos as int,
            p2 as int,
        ) == spec_encode_lines_items(ls.deep_view()),
    decreases count,
{
    if count == 0 {
        let ls: Vec<String> = Vec::new();
        proof {
            assert(bytes@.subrange(pos as int, pos as int) =~= Seq::<u8>::empty());
            assert(ls.deep_view() =~= Seq::<Seq<char>>::empty());
        }
        return Some((ls, pos));
    }
    let (s, p1) = match take_str(bytes, pos) {
        Some(x) => x,
        None => {
            return None;
        },
    };
    let (rest, p2) = match take_lines_items(bytes, p1, count - 1) {
        Some(x) => x,
        None => {
            return None;
        },
    };
    let ghost rdv = rest.deep_view();
    let ghost rv = rest@;
    let mut ls = rest;
    ls.insert(0, s);
    proof {
        assert(ls.deep_view() =~= seq![s@] + rdv) by {
            assert forall|j: int| 0 <= j < ls.deep_view().len() implies ls.deep_view()[j] == (
            seq![s@] + rdv)[j] by {
                if j > 0 {
                    assert(ls@[j] == rv[j - 1]);
                    assert(rdv[j - 1] == rv[j - 1]@);
                }
            }
        }
        let dv = seq![s@] + rdv;
        assert(dv.first() == s@);
        assert(dv.drop_first() =~= rdv);
        assert(bytes@.subrange(pos as int, p2 as int) =~= spec_encode_str(s@)
            + spec_encode_lines_items(rdv)) by {
            assert forall|j: int| 0 <= j < p2 - pos implies bytes@.subrange(pos as int, p2 as int)[j]
                == (spec_encode_str(s@) + spec_encode_lines_items(rdv))[j] by {
                if j < p1 - pos {
                    assert(bytes@.subrange(pos as int, p1 as int)[j] == spec_encode_str(s@)[j]);
                } else {
                    assert(bytes@.subrange(p1 as int, p2 as int)[j - (p1 - pos)]
                        == spec_encode_lines_items(rdv)[j - (p1 - pos)]);
                }
            }
        }
    }
    Some((ls, p2))
}

/// Read a line list at `pos`.
pub fn take_lines(bytes: &[u8], pos: usize) -> (r: Option<(Vec<String>, usize)>)
    requires
        pos <= bytes@.len(),
    ensures
        r is Some <==> lines_at(bytes@, pos as int),
        r matches Some((ls, p2)) ==> pos <= p2 <= bytes@.len() && p2 == lines_at_end(
            bytes@,
            pos as int,
        ) && bytes@.subrange(pos as int, p2 as int) == spec_encode_lines(ls.deep_view()),
{
    proof {
        vstd::bytes::lemma_auto_spec_u64_to_from_le_bytes();
    }
    let (n, p1) = match take_u64(bytes, pos) {
        Some(x) => x,
        None => {
            return None;
        },
    };
    let (ls, p2) = match take_lines_items(bytes, p1, n) {
        Some(x) => x,
        None => {
            return None;
        },
    };
    proof {
        assert(bytes@.subrange(pos as int, p2 as int) =~= spec_encode_lines(ls.deep_view())) by {
            assert(spec_encode_lines(ls.deep_view()) == spec_u64_to_le_bytes(n)
                + spec_encode_lines_items(ls.deep_view()));
            assert forall|j: int| 0 <= j < p2 - pos implies bytes@.subrange(pos as int, p2 as int)[j]
                == (spec_u64_to_le_bytes(n) + spec_encode_lines_items(ls.deep_view()))[j] by {
                if j < 8 {
                    assert(bytes@.subrange(pos as int, p1 as int)[j] == spec_u64_to_le_bytes(n)[j]);
                } else {
                    assert(bytes@.subrange(p1 as int, p2 as int)[j - 8] == spec_encode_lines_items(
                        ls.deep_view(),
                    )[j - 8]);
                }
            }
        }
    }
    Some((ls, p2))
}

/// Each encoded item takes at least its 8-byte length field.
proof fn lemma_lines_items_min_len(ls: Seq<Seq<char>>)
    ensures
        spec_encode_lines_items(ls).len() >= 8 * ls.len(),
    decreases ls.len(),
{
    vstd::bytes::lemma_auto_spec_u64_to_from_le_bytes();
    if ls.len() > 0 {
        lemma_lines_items_min_len(ls.drop_first());
    }
}

/// A region holding two encodings in sequence holds each at its place.
proof fn lemma_region_split(bytes: Seq<u8>, pos: int, e1: Seq<u8>, e2: Seq<u8>)
    requires
        region_at(bytes, pos, e1 + e2),
    ensures
        region_at(bytes, pos, e1),
        region_at(bytes, pos + e1.len(), e2),
{
    let e = e1 + e2;
    assert forall|j: int| 0 <= j < e1.len() implies bytes.subrange(pos, pos + e1.len() as int)[j]
        == e1[j] by {
        assert(bytes.subrange(pos, pos + e.len() as int)[j] == e[j]);
    }
    assert(bytes.subrange(pos, pos + e1.len() as int) =~= e1);
    assert forall|j: int| 0 <= j < e2.len() implies bytes.subrange(
        pos + e1.len(),
        pos + e.len() as int,
    )[j] == e2[j] by {
        assert(bytes.subrange(pos, pos + e.len() as int)[e1.len() + j] == e[e1.len() + j]);
    }
    assert(bytes.subrange(pos + e1.len(), pos + e.len() as int) =~= e2);
}

/// When encoded line items stand at `pos`, that many well-formed string
/// records stand there, ending at the encoding's end.
pub proof fn lemma_lines_items_at_encoded(bytes: Seq<u8>, pos: int, ls: Seq<Seq<char>>)
    requires
        region_at(bytes, pos, spec_encode_lines_items(ls)),
        bytes.len() <= usize::MAX,
    ensures
        lines_items_at(bytes, pos, ls.len()),
        lines_items_end(bytes, pos, ls.len()) == pos + spec_encode_lines_items(ls).len(),
    decreases ls.len(),
{
    if ls.len() > 0 {
        let e1 = spec_encode_str(ls.first());
        let e2 = spec_encode_lines_items(ls.drop_first());
        lemma_region_split(bytes, pos, e1, e2);
        lemma_str_at_encoded(bytes, pos, ls.first());
        lemma_lines_items_at_encoded(bytes, pos + e1.len(), ls.drop_first());
    }
}

/// When an encoded line list stands at `pos`, a well-formed line list
/// starts there, ending at the encoding's end.
pub proof fn lemma_lines_at_encoded(bytes: Seq<u8>, pos: int, ls: Seq<Seq<char>>)
    requires
        region_at(bytes, pos, spec_encode_lines(ls)),
        bytes.len() <= usize::MAX,
    ensures
        lines_at(bytes, pos),
        lines_at_end(bytes, pos) == pos + spec_encode_lines(ls).len(),
{
    vstd::bytes::lemma_auto_spec_u64_to_from_le_bytes();
    lemma_lines_items_min_len(ls);
    let cnt = spec_u64_to_le_bytes(ls.len() as u64);
    let items = spec_encode_lines_items(ls);
    lemma_region_split(bytes, pos, cnt, items);
    assert(bytes.subrange(pos, pos + 8) == cnt);
    assert(spec_u64_from_le_bytes(cnt) == ls.len() as u64);
    lemma_lines_items_at_encoded(bytes, pos + 8, ls);
}

/// Encoding a line list is injective.
pub proof fn lemma_encode_lines_injective(a: Seq<Seq<char>>, b: Seq<Seq<char>>, bound: int)
    requires
        spec_encode_lines(a) == spec_encode_lines(b),
        spec_encode_lines(a).len() <= bound <= usize::MAX,
    ensures
        a == b,
{
    vstd::bytes::lemma_auto_spec_u64_to_from_le_bytes();
    lemma_lines_items_min_len(a);
    lemma_lines_items_min_len(b);
    let ca = spec_u64_to_le_bytes(a.len() as u64);
    let cb = spec_u64_to_le_bytes(b.len() as u64);
    assert(spec_encode_lines(a).subrange(0, 8) =~= ca);
    assert(spec_encode_lines(b).subrange(0, 8) =~= cb);
    assert(a.len() == b.len());
    let ia = spec_encode_lines_items(a);
    let ib = spec_encode_lines_items(b);
    assert(ia =~= spec_encode_lines(a).subrange(8, spec_encode_lines(a).len() as int));
    assert(ib =~= spec_encode_lines(b).subrange(8, spec_encode_lines(b).len() as int));
    lemma_encode_lines_items_injective(a, b);
}

/// Item lists of equal length with equal encodings are equal.
proof fn lemma_encode_lines_items_injective(a: Seq<Seq<char>>, b: Seq<Seq<char>>)
    requires
        a.len() == b.len(),
        spec_encode_lines_items(a) == spec_encode_lines_items(b),
        spec_encode_lines_items(a).len() <= usize::MAX,
    ensures
        a == b,
    decreases a.len(),
{
    vstd::bytes::lemma_auto_spec_u64_to_from_le_bytes();
    if a.len() == 0 {
        assert(a =~= b);
    } else {
        let e = spec_encode_lines_items(a);
        let e1a = spec_encode_str(a.first());
        let e1b = spec_encode_str(b.first());
        assert(e.subrange(0, 8) =~= spec_u64_to_le_bytes(
            vstd::utf8::encode_utf8(a.first()).len() as u64,
        ));
        assert(e.subrange(0, 8) =~= spec_u64_to_le_bytes(
            vstd::utf8::encode_utf8(b.first()).len() as u64,
        ));
        assert(vstd::utf8::encode_utf8(a.first()).len() <= usize::MAX);
        assert(vstd::utf8::encode_utf8(b.first()).len() <= usize::MAX);
        assert(vstd::utf8::encode_utf8(a.first()).len() == vstd::utf8::encode_utf8(
            b.first(),
        ).len());
        assert(e1a.len() == e1b.len());
        assert(e1a =~= e.subrange(0, e1a.len() as int));
        assert(e1b =~= e.subrange(0, e1b.len() as int));
        lemma_encode_str_injective(a.first(), b.first());
        assert(spec_encode_lines_items(a.drop_first()) =~= e.subrange(
            e1a.len() as int,
            e.len() as int,
        ));
        assert(spec_encode_lines_items(b.drop_first()) =~= e.subrange(
            e1b.len() as int,
            e.len() as int,
        ));
        lemma_encode_lines_items_injective(a.drop_first(), b.drop_first());
        assert(a =~= b) by {
            assert forall|i: int| 0 <= i < a.len() implies a[i] == b[i] by {
                if i > 0 {
                    assert(a.drop_first()[i - 1] == b.drop_first()[i - 1]);
                }
            }
        }
    }
}

// ------------------------------------------------------------------
// Shared helpers for the envelopes.
// ------------------------------------------------------------------
/// A whole buffer made of a two-byte header and two encoded parts,
/// recovered from its decoded pieces.
proof fn lemma_envelope_assembled(bytes: Seq<u8>, h0: u8, h1: u8, e1: Seq<u8>, e2: Seq<u8>)
    requires
        bytes.len() == 2 + e1.len() + e2.len(),
        bytes[0] == h0,
        bytes[1] == h1,
        bytes.subrange(2, 2 + e1.len() as int) == e1,
        bytes.subrange(2 + e1.len() as int, bytes.len() as int) == e2,
    ensures
        bytes =~= seq![h0, h1] + e1 + e2,
{
    assert forall|j: int| 0 <= j < bytes.len() implies bytes[j] == (seq![h0, h1] + e1 + e2)[j] by {
        if 2 <= j < 2 + e1.len() {
            assert(bytes.subrange(2, 2 + e1.len() as int)[j - 2] == e1[j - 2]);
        } else if j >= 2 + e1.len() {
            assert(bytes.subrange(2 + e1.len() as int, bytes.len() as int)[j - 2 - e1.len()] == e2[j - 2
                - e1.len()]);
        }
    }
}

/// A whole encoded envelope is a region covering itself; its header
/// bytes and two parts stand at their places.
proof fn lemma_envelope_parts(bytes: Seq<u8>, e1: Seq<u8>, e2: Seq<u8>)
    requires
        bytes == seq![bytes[0], bytes[1]] + e1 + e2,
    ensures
        region_at(bytes, 2, e1),
        region_at(bytes, 2 + e1.len() as int, e2),
    decreases bytes.len(),
{
    assert(bytes.subrange(0, bytes.len() as int) =~= bytes);
    lemma_region_split(bytes, 0, seq![bytes[0], bytes[1]] + e1, e2);
    lemma_region_split(bytes, 0, seq![bytes[0], bytes[1]], e1);
}

// ------------------------------------------------------------------
// Push: a producer's publish command.
// ------------------------------------------------------------------
/// The shape of a [`PushMessage`]: channel and value as views.
pub struct PushV {
    pub channel: Seq<char>,
    pub value: ValueV,
}

/// A publish command sent to the broker's intake: set `channel` to
/// `value`.
#[derive(Debug, PartialEq, Eq)]
pub struct PushMessage {
    pub channel: String,
    pub value: Value,
}

impl View for PushMessage {
    type V = PushV;

    open spec fn view(&self) -> PushV {
        PushV { channel: self.channel@, value: self.value@ }
    }
}

pub open spec fn spec_encode_push(m: PushV) -> Seq<u8> {
    seq![WIRE_VERSION, MSG_PUSH_SEND] + spec_encode_str(m.channel) + spec_encode_value(m.value)
}

/// True when the whole buffer is one well-formed push envelope.
pub open spec fn push_at(bytes: Seq<u8>) -> bool {
    &&& bytes.len() >= 2 && bytes[0] == WIRE_VERSION && bytes[1] == MSG_PUSH_SEND
    &&& str_at(bytes, 2)
    &&& value_at(bytes, bytes_at_end(bytes, 2))
    &&& value_at_end(bytes, bytes_at_end(bytes, 2)) == bytes.len()
}

pub fn encode_push(m: &PushMessage) -> (out: Vec<u8>)
    ensures
        out@ == spec_encode_push(m@),
{
    let mut out: Vec<u8> = Vec::new();
    out.push(WIRE_VERSION);
    out.push(MSG_PUSH_SEND);
    proof {
        assert(out@ =~= seq![WIRE_VERSION, MSG_PUSH_SEND]);
    }
    write_str(&mut out, m.channel.as_str());
    write_value(&mut out, &m.value);
    proof {
        assert(out@ =~= spec_encode_push(m@));
    }
    out
}

pub fn decode_push(bytes: &[u8]) -> (r: Option<PushMessage>)
    ensures
        r is Some <==> push_at(bytes@),
        r matches Some(m) ==> bytes@ == spec_encode_push(m@),
{
    if bytes.len() < 2 {
        return None;
    }
    if bytes[0] != WIRE_VERSION || bytes[1] != MSG_PUSH_SEND {
        return None;
    }
    let (channel, p1) = match take_str(bytes, 2) {
        Some(x) => x,
        None => {
            return None;
        },
    };
    let (value, p2) = match take_value(bytes, p1) {
        Some(x) => x,
        None => {
            return None;
        },
    };
    if p2 != bytes.len() {
        return None;
    }
    proof {
        lemma_envelope_assembled(
            bytes@,
            WIRE_VERSION,
            MSG_PUSH_SEND,
            spec_encode_str(channel@),
            spec_encode_value(value@),
        );
    }
    Some(PushMessage { channel, value })
}

/// When an encoded push envelope fills the buffer, decoding succeeds.
pub proof fn lemma_push_at_encoded(bytes: Seq<u8>, m: PushV)
    requires
        bytes == spec_encode_push(m),
        bytes.len() <= usize::MAX,
    ensures
        push_at(bytes),
{
    let e1 = spec_encode_str(m.channel);
    let e2 = spec_encode_value(m.value);
    lemma_envelope_parts(bytes, e1, e2);
    lemma_str_at_encoded(bytes, 2, m.channel);
    lemma_value_at_encoded(bytes, 2 + e1.len() as int, m.value);
}

/// Law: encoding push envelopes of feasible size is injective.
pub proof fn lemma_encode_push_injective(a: PushV, b: PushV)
    requires
        spec_encode_push(a) == spec_encode_push(b),
        spec_encode_push(a).len() <= usize::MAX,
    ensures
        a == b,
{
    vstd::bytes::lemma_auto_spec_u64_to_from_le_bytes();
    let bytes = spec_encode_push(a);
    let e1a = spec_encode_str(a.channel);
    let e1b = spec_encode_str(b.channel);
    let e2a = spec_encode_value(a.value);
    let e2b = spec_encode_value(b.value);
    lemma_envelope_parts(bytes, e1a, e2a);
    lemma_envelope_parts(bytes, e1b, e2b);
    let la = vstd::utf8::encode_utf8(a.channel).len();
    let lb = vstd::utf8::encode_utf8(b.channel).len();
    assert(bytes.subrange(2, 10) =~= spec_u64_to_le_bytes(la as u64)) by {
        assert forall|j: int| 0 <= j < 8 implies bytes.subrange(2, 10)[j] == e1a[j] by {
            assert(bytes.subrange(2, 2 + e1a.len() as int)[j] == e1a[j]);
        }
        assert(e1a.subrange(0, 8) =~= spec_u64_to_le_bytes(la as u64));
        assert(bytes.subrange(2, 10) =~= e1a.subrange(0, 8));
    }
    assert(bytes.subrange(2, 10) =~= spec_u64_to_le_bytes(lb as u64)) by {
        assert forall|j: int| 0 <= j < 8 implies bytes.subrange(2, 10)[j] == e1b[j] by {
            assert(bytes.subrange(2, 2 + e1b.len() as int)[j] == e1b[j]);
        }
        assert(e1b.subrange(0, 8) =~= spec_u64_to_le_bytes(lb as u64));
        assert(bytes.subrange(2, 10) =~= e1b.subrange(0, 8));
    }
    assert(la as u64 == lb as u64);
    assert(la <= usize::MAX && lb <= usize::MAX);
    assert(la == lb);
    assert(e1a =~= bytes.subrange(2, 2 + e1a.len() as int));
    assert(e1b =~= bytes.subrange(2, 2 + e1b.len() as int));
    lemma_encode_str_injective(a.channel, b.channel);
    assert(e2a =~= bytes.subrange(2 + e1a.len() as int, bytes.len() as int));
    assert(e2b =~= bytes.subrange(2 + e1b.len() as int, bytes.len() as int));
    lemma_encode_value_injective(a.value, b.value);
}

// ------------------------------------------------------------------
// Publish: the broker's broadcast.
// ------------------------------------------------------------------
/// The shape of a [`PublishMessage`].
pub enum PublishV {
    Data { channel: Seq<char>, value: ValueV },
    Logs { lines: Seq<Seq<char>> },
}

/// A broadcast from the broker: one channel's new value, or a batch of
/// freshly recorded log lines.
#[derive(Debug, PartialEq, Eq)]
pub enum PublishMessage {
    Data { channel: String, value: Value },
    Logs { lines: Vec<String> },
}

impl View for PublishMessage {
    type V = PublishV;

    open spec fn view(&self) -> PublishV {
        match self {
            PublishMessage::Data { channel, value } => PublishV::Data {
                channel: channel@,
                value: value@,
            },
            PublishMessage::Logs { lines } => PublishV::Logs { lines: lines.deep_view() },
        }
    }
}

pub open spec fn spec_encode_publish(m: PublishV) -> Seq<u8> {
    match m {
        PublishV::Data { channel, value } => seq![WIRE_VERSION, MSG_PUBLISH_DATA]
            + spec_encode_str(channel) + spec_encode_value(value),
        PublishV::Logs { lines } => seq![WIRE_VERSION, MSG_PUBLISH_LOGS] + spec_encode_lines(lines),
    }
}

/// True when the whole buffer is one well-formed publish envelope.
pub open spec fn publish_at(bytes: Seq<u8>) -> bool {
    &&& bytes.len() >= 2 && bytes[0] == WIRE_VERSION
    &&& {
        ||| (bytes[1] == MSG_PUBLISH_DATA && str_at(bytes, 2) && value_at(
            bytes,
            bytes_at_end(bytes, 2),
        ) && value_at_end(bytes, bytes_at_end(bytes, 2)) == bytes.len())
        ||| (bytes[1] == MSG_PUBLISH_LOGS && lines_at(bytes, 2) && lines_at_end(bytes, 2)
            == bytes.len())
    }
}

pub fn encode_publish(m: &PublishMessage) -> (out: Vec<u8>)
    ensures
        out@ == spec_encode_publish(m@),
{
    let mut out: Vec<u8> = Vec::new();
    out.push(WIRE_VERSION);
    match m {
        PublishMessage::Data { channel, value } => {
            out.push(MSG_PUBLISH_DATA);
            proof {
                assert(out@ =~= seq![WIRE_VERSION, MSG_PUBLISH_DATA]);
            }
            write_str(&mut out, channel.as_str());
            write_value(&mut out, value);
        },
        PublishMessage::Logs { lines } => {
            out.push(MSG_PUBLISH_LOGS);
            proof {
                assert(out@ =~= seq![WIRE_VERSION, MSG_PUBLISH_LOGS]);
            }
            write_lines(&mut out, lines);
        },
    }
    proof {
        assert(out@ =~= spec_encode_publish(m@));
    }
    out
}

pub fn decode_publish(bytes: &[u8]) -> (r: Option<PublishMessage>)
    ensures
        r is Some <==> publish_at(bytes@),
        r matches Some(m) ==> bytes@ == spec_encode_publish(m@),
{
    if bytes.len() < 2 {
        return None;
    }
    if bytes[0] != WIRE_VERSION {
        return None;
    }
    if bytes[1] == MSG_PUBLISH_DATA {
        let (channel, p1) = match take_str(bytes, 2) {
            Some(x) => x,
            None => {
                return None;
            },
        };
        let (value, p2) = match take_value(bytes, p1) {
            Some(x) => x,
            None => {
                return None;
            },
        };
        if p2 != bytes.len() {
            return None;
        }
        proof {
            lemma_envelope_assembled(
                bytes@,
                WIRE_VERSION,
                MSG_PUBLISH_DATA,
                spec_encode_str(channel@),
                spec_encode_value(value@),
            );
        }
        Some(PublishMessage::Data { channel, value })
    } else if bytes[1] == MSG_PUBLISH_LOGS {
        let (lines, p2) = match take_lines(bytes, 2) {
            Some(x) => x,
            None => {
                return None;
            },
        };
        if p2 != bytes.len() {
            return None;
        }
        proof {
            assert(bytes@.subrange(bytes@.len() as int, bytes@.len() as int) =~= Seq::<u8>::empty());
            lemma_envelope_assembled(
                bytes@,
                WIRE_VERSION,
                MSG_PUBLISH_LOGS,
                spec_encode_lines(lines.deep_view()),
                Seq::<u8>::empty(),
            );
            assert(bytes@ =~= seq![WIRE_VERSION, MSG_PUBLISH_LOGS] + spec_encode_lines(
                lines.deep_view(),
            ));
        }
        Some(PublishMessage::Logs { lines })
    } else {
        None
    }
}

/// When an encoded publish envelope fills the buffer, decoding succeeds.
pub proof fn lemma_publish_at_encoded(bytes: Seq<u8>, m: PublishV)
    requires
        bytes == spec_encode_publish(m),
        bytes.len() <= usize::MAX,
    ensures
        publish_at(bytes),
{
    match m {
        PublishV::Data { channel, value } => {
            let e1 = spec_encode_str(channel);
            let e2 = spec_encode_value(value);
            lemma_envelope_parts(bytes, e1, e2);
            lemma_str_at_encoded(bytes, 2, channel);
            lemma_value_at_encoded(bytes, 2 + e1.len() as int, value);
        },
        PublishV::Logs { lines } => {
            let e1 = spec_encode_lines(lines);
            assert(bytes =~= seq![bytes[0], bytes[1]] + e1 + Seq::<u8>::empty());
            lemma_envelope_parts(bytes, e1, Seq::<u8>::empty());
            lemma_lines_at_encoded(bytes, 2, lines);
        },
    }
}

/// Law: encoding publish envelopes of feasible size is injective.
pub proof fn lemma_encode_publish_injective(a: PublishV, b: PublishV)
    requires
        spec_encode_publish(a) == spec_encode_publish(b),
        spec_encode_publish(a).len() <= usize::MAX,
    ensures
        a == b,
{
    vstd::bytes::lemma_auto_spec_u64_to_from_le_bytes();
    let bytes = spec_encode_publish(a);
    assert(spec_encode_publish(a)[1] == spec_encode_publish(b)[1]);
    match (a, b) {
        (
            PublishV::Data { channel: ca, value: va },
            PublishV::Data { channel: cb, value: vb },
        ) => {
            let e1a = spec_encode_str(ca);
            let e1b = spec_encode_str(cb);
            let e2a = spec_encode_value(va);
            let e2b = spec_encode_value(vb);
            lemma_envelope_parts(bytes, e1a, e2a);
            lemma_envelope_parts(bytes, e1b, e2b);
            let la = vstd::utf8::encode_utf8(ca).len();
            let lb = vstd::utf8::encode_utf8(cb).len();
            assert(bytes.subrange(2, 10) =~= spec_u64_to_le_bytes(la as u64)) by {
                assert forall|j: int| 0 <= j < 8 implies bytes.subrange(2, 10)[j] == e1a[j] by {
                    assert(bytes.subrange(2, 2 + e1a.len() as int)[j] == e1a[j]);
                }
                assert(e1a.subrange(0, 8) =~= spec_u64_to_le_bytes(la as u64));
                assert(bytes.subrange(2, 10) =~= e1a.subrange(0, 8));
            }
            assert(bytes.subrange(2, 10) =~= spec_u64_to_le_bytes(lb as u64)) by {
                assert forall|j: int| 0 <= j < 8 implies bytes.subrange(2, 10)[j] == e1b[j] by {
                    assert(bytes.subrange(2, 2 + e1b.len() as int)[j] == e1b[j]);
                }
                assert(e1b.subrange(0, 8) =~= spec_u64_to_le_bytes(lb as u64));
                assert(bytes.subrange(2, 10) =~= e1b.subrange(0, 8));
            }
            assert(la as u64 == lb as u64);
            assert(la <= usize::MAX && lb <= usize::MAX);
            assert(la == lb);
            assert(e1a =~= bytes.subrange(2, 2 + e1a.len() as int));
            assert(e1b =~= bytes.subrange(2, 2 + e1b.len() as int));
            lemma_encode_str_injective(ca, cb);
            assert(e2a =~= bytes.subrange(2 + e1a.len() as int, bytes.len() as int));
            assert(e2b =~= bytes.subrange(2 + e1b.len() as int, bytes.len() as int));
            lemma_encode_value_injective(va, vb);
        },
        (PublishV::Logs { lines: xa }, PublishV::Logs { lines: xb }) => {
            let ea = spec_encode_lines(xa);
            let eb = spec_encode_lines(xb);
            assert(ea =~= bytes.subrange(2, bytes.len() as int));
            assert(eb =~= bytes.subrange(2, bytes.len() as int));
            lemma_encode_lines_injective(xa, xb, bytes.len() as int);
        },
        _ => {
            assert(false) by {
                lemma_publish_tag(a);
                lemma_publish_tag(b);
            }
        },
    }
}

/// The discriminant byte of an encoded publish envelope names its variant.
proof fn lemma_publish_tag(m: PublishV)
    ensures
        spec_encode_publish(m)[1] == (if m is Data {
            MSG_PUBLISH_DATA
        } else {
            MSG_PUBLISH_LOGS
        }),
{
    match m {
        PublishV::Data { channel, value } => {
            let h = seq![WIRE_VERSION, MSG_PUBLISH_DATA];
            assert((h + spec_encode_str(channel))[1] == h[1]);
            assert((h + spec_encode_str(channel) + spec_encode_value(value))[1] == (h
                + spec_encode_str(channel))[1]);
        },
        PublishV::Logs { lines } => {
            let h = seq![WIRE_VERSION, MSG_PUBLISH_LOGS];
            assert((h + spec_encode_lines(lines))[1] == h[1]);
        },
    }
}

// ------------------------------------------------------------------
// Request: a synchronous query.
// ------------------------------------------------------------------
/// The shape of a [`RequestMessage`].
pub enum RequestV {
    Get { channel: Seq<char> },
    GetLogs,
}

/// A query to the broker: the latest value of one channel, or the
/// retained log history.
#[derive(Debug, PartialEq, Eq)]
pub enum RequestMessage {
    Get { channel: String },
    GetLogs,
}

impl View for RequestMessage {
    type V = RequestV;

    open spec fn view(&self) -> RequestV {
        match self {
            RequestMessage::Get { channel } => RequestV::Get { channel: channel@ },
            RequestMessage::GetLogs => RequestV::GetLogs,
        }
    }
}

pub open spec fn spec_encode_request(m: RequestV) -> Seq<u8> {
    match m {
        RequestV::Get { channel } => seq![WIRE_VERSION, MSG_REQUEST_GET] + spec_encode_str(channel),
        RequestV::GetLogs => seq![WIRE_VERSION, MSG_REQUEST_LOGS],
    }
}

/// True when the whole buffer is one well-formed request envelope.
pub open spec fn request_at(bytes: Seq<u8>) -> bool {
    &&& bytes.len() >= 2 && bytes[0] == WIRE_VERSION
    &&& {
        ||| (bytes[1] == MSG_REQUEST_GET && str_at(bytes, 2) && bytes_at_end(bytes, 2)
            == bytes.len())
        ||| (bytes[1] == MSG_REQUEST_LOGS && bytes.len() == 2)
    }
}

pub fn encode_request(m: &RequestMessage) -> (out: Vec<u8>)
    ensures
        out@ == spec_encode_request(m@),
{
    let mut out: Vec<u8> = Vec::new();
    out.push(WIRE_VERSION);
    match m {
        RequestMessage::Get { channel } => {
            out.push(MSG_REQUEST_GET);
            proof {
                assert(out@ =~= seq![WIRE_VERSION, MSG_REQUEST_GET]);
            }
            write_str(&mut out, channel.as_str());
        },
        RequestMessage::GetLogs => {
            out.push(MSG_REQUEST_LOGS);
            proof {
                assert(out@ =~= seq![WIRE_VERSION, MSG_REQUEST_LOGS]);
            }
        },
    }
    proof {
        assert(out@ =~= spec_encode_request(m@));
    }
    out
}

pub fn decode_request(bytes: &[u8]) -> (r: Option<RequestMessage>)
    ensures
        r is Some <==> request_at(bytes@),
        r matches Some(m) ==> bytes@ == spec_encode_request(m@),
{
    if bytes.len() < 2 {
        return None;
    }
    if bytes[0] != WIRE_VERSION {
        return None;
    }
    if bytes[1] == MSG_REQUEST_GET {
        let (channel, p1) = match take_str(bytes, 2) {
            Some(x) => x,
            None => {
                return None;
            },
        };
        if p1 != bytes.len() {
            return None;
        }
        proof {
            assert(bytes@.subrange(bytes@.len() as int, bytes@.len() as int) =~= Seq::<u8>::empty());
            lemma_envelope_assembled(
                bytes@,
                WIRE_VERSION,
                MSG_REQUEST_GET,
                spec_encode_str(channel@),
                Seq::<u8>::empty(),
            );
            assert(bytes@ =~= seq![WIRE_VERSION, MSG_REQUEST_GET] + spec_encode_str(channel@));
        }
        Some(RequestMessage::Get { channel })
    } else if bytes[1] == MSG_REQUEST_LOGS {
        if bytes.len() != 2 {
            return None;
        }
        proof {
            assert(bytes@ =~= seq![WIRE_VERSION, MSG_REQUEST_LOGS]);
        }
        Some(RequestMessage::GetLogs)
    } else {
        None
    }
}

/// When an encoded request envelope fills the buffer, decoding succeeds.
pub proof fn lemma_request_at_encoded(bytes: Seq<u8>, m: RequestV)
    requires
        bytes == spec_encode_request(m),
        bytes.len() <= usize::MAX,
    ensures
        request_at(bytes),
{
    match m {
        RequestV::Get { channel } => {
            let e1 = spec_encode_str(channel);
            assert(bytes =~= seq![bytes[0], bytes[1]] + e1 + Seq::<u8>::empty());
            lemma_envelope_parts(bytes, e1, Seq::<u8>::empty());
            lemma_str_at_encoded(bytes, 2, channel);
        },
        RequestV::GetLogs => {},
    }
}

/// Law: encoding request envelopes of feasible size is injective.
pub proof fn lemma_encode_request_injective(a: RequestV, b: RequestV)
    requires
        spec_encode_request(a) == spec_encode_request(b),
        spec_encode_request(a).len() <= usize::MAX,
    ensures
        a == b,
{
    let bytes = spec_encode_request(a);
    assert(spec_encode_request(a)[1] == spec_encode_request(b)[1]);
    match (a, b) {
        (RequestV::Get { channel: ca }, RequestV::Get { channel: cb }) => {
            assert(spec_encode_str(ca) =~= bytes.subrange(2, bytes.len() as int));
            assert(spec_encode_str(cb) =~= bytes.subrange(2, bytes.len() as int));
            lemma_encode_str_injective(ca, cb);
        },
        _ => {},
    }
}

// ------------------------------------------------------------------
// Reply: the broker's answer to a request.
// ------------------------------------------------------------------
/// The shape of a [`ReplyMessage`].
pub enum ReplyV {
    Data { value: ValueV },
    Logs { lines: Seq<Seq<char>> },
}

/// The broker's reply: the queried channel's latest value (or the
/// sentinel), or the retained log history.
#[derive(Debug, PartialEq, Eq)]
pub enum ReplyMessage {
    Data { value: Value },
    Logs { lines: Vec<String> },
}

impl View for ReplyMessage {
    type V = ReplyV;

    open spec fn view(&self) -> ReplyV {
        match self {
            ReplyMessage::Data { value } => ReplyV::Data { value: value@ },
            ReplyMessage::Logs { lines } => ReplyV::Logs { lines: lines.deep_view() },
        }
    }
}

pub open spec fn spec_encode_reply(m: ReplyV) -> Seq<u8> {
    match m {
        ReplyV::Data { value } => seq![WIRE_VERSION, MSG_REPLY_DATA] + spec_encode_value(value),
        ReplyV::Logs { lines } => seq![WIRE_VERSION, MSG_REPLY_LOGS] + spec_encode_lines(lines),
    }
}

/// True when the whole buffer is one well-formed reply envelope.
pub open spec fn reply_at(bytes: Seq<u8>) -> bool {
    &&& bytes.len() >= 2 && bytes[0] == WIRE_VERSION
    &&& {
        ||| (bytes[1] == MSG_REPLY_DATA && value_at(bytes, 2) && value_at_end(bytes, 2)
            == bytes.len())
        ||| (bytes[1] == MSG_REPLY_LOGS && lines_at(bytes, 2) && lines_at_end(bytes, 2)
            == bytes.len())
    }
}

pub fn encode_reply(m: &ReplyMessage) -> (out: Vec<u8>)
    ensures
        out@ == spec_encode_reply(m@),
{
    let mut out: Vec<u8> = Vec::new();
    out.push(WIRE_VERSION);
    match m {
        ReplyMessage::Data { value } => {
            out.push(MSG_REPLY_DATA);
            proof {
                assert(out@ =~= seq![WIRE_VERSION, MSG_REPLY_DATA]);
            }
            write_value(&mut out, value);
        },
        ReplyMessage::Logs { lines } => {
            out.push(MSG_REPLY_LOGS);
            proof {
                assert(out@ =~= seq![WIRE_VERSION, MSG_REPLY_LOGS]);
            }
            write_lines(&mut out, lines);
        },
    }
    proof {
        assert(out@ =~= spec_encode_reply(m@));
    }
    out
}

pub fn decode_reply(bytes: &[u8]) -> (r: Option<ReplyMessage>)
    ensures
        r is Some <==> reply_at(bytes@),
        r matches Some(m) ==> bytes@ == spec_encode_reply(m@),
{
    if bytes.len() < 2 {
        return None;
    }
    if bytes[0] != WIRE_VERSION {
        return None;
    }
    if bytes[1] == MSG_REPLY_DATA {
        let (value, p2) = match take_value(bytes, 2) {
            Some(x) => x,
            None => {
                return None;
            },
        };
        if p2 != bytes.len() {
            return None;
        }
        proof {
            assert(bytes@.subrange(bytes@.len() as int, bytes@.len() as int) =~= Seq::<u8>::empty());
            lemma_envelope_assembled(
                bytes@,
                WIRE_VERSION,
                MSG_REPLY_DATA,
                spec_encode_value(value@),
                Seq::<u8>::empty(),
            );
            assert(bytes@ =~= seq![WIRE_VERSION, MSG_REPLY_DATA] + spec_encode_value(value@));
        }
        Some(ReplyMessage::Data { value })
    } else if bytes[1] == MSG_REPLY_LOGS {
        let (lines, p2) = match take_lines(bytes, 2) {
            Some(x) => x,
            None => {
                return None;
            },
        };
        if p2 != bytes.len() {
            return None;
        }
        proof {
            assert(bytes@.subrange(bytes@.len() as int, bytes@.len() as int) =~= Seq::<u8>::empty());
            lemma_envelope_assembled(
                bytes@,
                WIRE_VERSION,
                MSG_REPLY_LOGS,
                spec_encode_lines(lines.deep_view()),
                Seq::<u8>::empty(),
            );
            assert(bytes@ =~= seq![WIRE_VERSION, MSG_REPLY_LOGS] + spec_encode_lines(
                lines.deep_view(),
            ));
        }
        Some(ReplyMessage::Logs { lines })
    } else {
        None
    }
}

/// When an encoded reply envelope fills the buffer, decoding succeeds.
pub proof fn lemma_reply_at_encoded(bytes: Seq<u8>, m: ReplyV)
    requires
        bytes == spec_encode_reply(m),
        bytes.len() <= usize::MAX,
    ensures
        reply_at(bytes),
{
    match m {
        ReplyV::Data { value } => {
            let e1 = spec_encode_value(value);
            assert(bytes =~= seq![bytes[0], bytes[1]] + e1 + Seq::<u8>::empty());
            lemma_envelope_parts(bytes, e1, Seq::<u8>::empty());
            lemma_value_at_encoded(bytes, 2, value);
        },
        ReplyV::Logs { lines } => {
            let e1 = spec_encode_lines(lines);
            assert(bytes =~= seq![bytes[0], bytes[1]] + e1 + Seq::<u8>::empty());
            lemma_envelope_parts(bytes, e1, Seq::<u8>::empty());
            lemma_lines_at_encoded(bytes, 2, lines);
        },
    }
}

/// Law: encoding reply envelopes of feasible size is injective.
pub proof fn lemma_encode_reply_injective(a: ReplyV, b: ReplyV)
    requires
        spec_encode_reply(a) == spec_encode_reply(b),
        spec_encode_reply(a).len() <= usize::MAX,
    ensures
        a == b,
{
    let bytes = spec_encode_reply(a);
    assert(spec_encode_reply(a)[1] == spec_encode_reply(b)[1]);
    match (a, b) {
        (ReplyV::Data { value: va }, ReplyV::Data { value: vb }) => {
            assert(spec_encode_value(va) =~= bytes.subrange(2, bytes.len() as int));
            assert(spec_encode_value(vb) =~= bytes.subrange(2, bytes.len() as int));
            lemma_encode_value_injective(va, vb);
        },
        (ReplyV::Logs { lines: xa }, ReplyV::Logs { lines: xb }) => {
            assert(spec_encode_lines(xa) =~= bytes.subrange(2, bytes.len() as int));
            assert(spec_encode_lines(xb) =~= bytes.subrange(2, bytes.len() as int));
            lemma_encode_lines_injective(xa, xb, bytes.len() as int);
        },
        _ => {
            assert(false) by {
                lemma_reply_tag(a);
                lemma_reply_tag(b);
            }
        },
    }
}

/// The discriminant byte of an encoded reply envelope names its variant.
proof fn lemma_reply_tag(m: ReplyV)
    ensures
        spec_encode_reply(m)[1] == (if m is Data {
            MSG_REPLY_DATA
        } else {
            MSG_REPLY_LOGS
        }),
{
    match m {
        ReplyV::Data { value } => {
            let h = seq![WIRE_VERSION, MSG_REPLY_DATA];
            assert((h + spec_encode_value(value))[1] == h[1]);
        },
        ReplyV::Logs { lines } => {
            let h = seq![WIRE_VERSION, MSG_REPLY_LOGS];
            assert((h + spec_encode_lines(lines))[1] == h[1]);
        },
    }
}

} // verus!
