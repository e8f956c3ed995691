//! The broker's decision logic: what each of its three loops does with
//! one inbound message, between a blocking receive and the sends.
//!
//! The loops themselves — sockets, threads, the stop flag's polling —
//! live outside and are thin: each iteration hands the received bytes to
//! one step function here and performs the sends it returns, holding the
//! store's lock across the whole step so that a value is always cached
//! before it is broadcast.

use crate::log_feed::XTablesLogger;
use crate::messages::{
    encode_publish, lemma_encode_push_injective, lemma_encode_request_injective,
    lemma_push_at_encoded, lemma_request_at_encoded, push_at, request_at,
    spec_encode_publish, spec_encode_push, spec_encode_reply, spec_encode_request, decode_push,
    decode_request, write_lines, PublishMessage, PublishV, PushMessage, PushV, ReplyMessage,
    ReplyV, RequestMessage, RequestV, MSG_REPLY_LOGS, WIRE_VERSION,
};
use crate::store::{ChannelStore, CHANNEL_CAPACITY};
use crate::ring_buffer::push_model;
use crate::value::{spec_no_data_sentinel, no_data_sentinel, Value, ValueV};
use vstd::prelude::*;

verus! {

/// The reserved routing prefix for log broadcasts.
pub open spec fn spec_log_channel() -> Seq<char> {
    "XTABLES_INTERNAL_LOG"@
}

/// The reserved routing prefix for log broadcasts.
pub fn log_channel() -> (r: &'static str)
    ensures
        r@ == spec_log_channel(),
{
    "XTABLES_INTERNAL_LOG"
}

/// A payload the broker could not decode: fatal to the loop that met it.
#[derive(Clone, Copy, Debug, PartialEq, Eq, Structural)]
pub enum BrokerStepError {
    MalformedPayload,
}

/// What a query's reply carries for `channel`: its latest value, or the
/// "no data available" sentinel when the channel was never written.
pub open spec fn reply_value_for(store: ChannelStore, channel: Seq<char>) -> ValueV {
    match store.spec_get(channel) {
        Some(s) => if s.len() > 0 {
            s.last()
        } else {
            ValueV::Str(spec_no_data_sentinel())
        },
        None => ValueV::Str(spec_no_data_sentinel()),
    }
}

/// One iteration of the ingest loop, after the blocking receive: decode
/// the publish command, cache its value under its channel — created on
/// first write, oldest entry evicted at capacity — and hand back the
/// routing prefix and broadcast bytes. The cache is updated before the
/// broadcast message even exists; the caller sends it under the same
/// lock.
pub fn ingest_step(store: &mut ChannelStore, bytes: &[u8]) -> (r: Result<
    (String, Vec<u8>),
    BrokerStepError,
>)
    requires
        old(store).wf(),
    ensures
        final(store).wf(),
        r is Ok <==> push_at(bytes@),
        r is Err ==> r == Err::<(String, Vec<u8>), BrokerStepError>(
            BrokerStepError::MalformedPayload,
        ) && forall|name: Seq<char>|
            final(store).spec_get(name) == old(store).spec_get(name),
        forall|m: PushV|
            bytes@ == spec_encode_push(m) ==> (r matches Ok((topic, out)) && topic@ == m.channel
                && out@ == spec_encode_publish(
                PublishV::Data { channel: m.channel, value: m.value },
            ) && final(store).spec_get(m.channel) == Some(
                push_model(
                    match old(store).spec_get(m.channel) {
                        Some(s) => s,
                        None => Seq::empty(),
                    },
                    CHANNEL_CAPACITY as nat,
                    m.value,
                ),
            ) && (forall|other: Seq<char>|
                other != m.channel ==> final(store).spec_get(other) == old(store).spec_get(
                    other,
                ))),
{
    let _buffer_len = bytes.len();
    proof {
        assert(bytes@.len() <= usize::MAX);
    }
    let msg = match decode_push(bytes) {
        Some(msg) => msg,
        None => {
            proof {
                assert forall|m: PushV| bytes@ != spec_encode_push(m) by {
                    if bytes@ == spec_encode_push(m) {
                        lemma_push_at_encoded(bytes@, m);
                    }
                }
            }
            return Err(BrokerStepError::MalformedPayload);
        },
    };
    let ghost mv = msg@;
    let PushMessage { channel, value } = msg;
    let broadcast_value = value.clone();
    store.push_value(&channel, value);
    let topic = channel.clone();
    let out = encode_publish(&PublishMessage::Data { channel, value: broadcast_value });
    proof {
        assert forall|m: PushV| bytes@ == spec_encode_push(m) implies m == mv by {
            lemma_encode_push_injective(m, mv);
        }
    }
    Ok((topic, out))
}

/// One iteration of the query loop, after the blocking receive: decode
/// the request and build exactly one reply — the channel's latest value
/// or the sentinel for a get, the full retained log history for a log
/// query. A get materialises an untouched channel's empty buffer, as
/// the lookup creates it on first read.
pub fn answer_request(
    store: &mut ChannelStore,
    retained_logs: &Vec<String>,
    bytes: &[u8],
) -> (r: Result<Vec<u8>, BrokerStepError>)
    requires
        old(store).wf(),
    ensures
        final(store).wf(),
        r is Ok <==> request_at(bytes@),
        r is Err ==> r == Err::<Vec<u8>, BrokerStepError>(BrokerStepError::MalformedPayload) && (
        forall|name: Seq<char>| final(store).spec_get(name) == old(store).spec_get(name)),
        forall|m: RequestV|
            bytes@ == spec_encode_request(m) ==> match m {
                RequestV::Get { channel } => (r matches Ok(out) && out@ == spec_encode_reply(
                    ReplyV::Data { value: reply_value_for(*old(store), channel) },
                ) && final(store).spec_get(channel) == (match old(store).spec_get(channel) {
                    Some(s) => Some(s),
                    None => Some(Seq::<ValueV>::empty()),
                }) && (forall|other: Seq<char>|
                    other != channel ==> final(store).spec_get(other) == old(store).spec_get(
                        other,
                    ))),
                RequestV::GetLogs => (r matches Ok(out) && out@ == spec_encode_reply(
                    ReplyV::Logs { lines: retained_logs.deep_view() },
                ) && (forall|name: Seq<char>|
                    final(store).spec_get(name) == old(store).spec_get(name))),
            },
{
    let _buffer_len = bytes.len();
    proof {
        assert(bytes@.len() <= usize::MAX);
    }
    let msg = match decode_request(bytes) {
        Some(msg) => msg,
        None => {
            proof {
                assert forall|m: RequestV| bytes@ != spec_encode_request(m) by {
                    if bytes@ == spec_encode_request(m) {
                        lemma_request_at_encoded(bytes@, m);
                    }
                }
            }
            return Err(BrokerStepError::MalformedPayload);
        },
    };
    let ghost mv = msg@;
    proof {
        assert forall|m: RequestV| bytes@ == spec_encode_request(m) implies m == mv by {
            lemma_encode_request_injective(m, mv);
        }
    }
    match msg {
        RequestMessage::Get { channel } => {
            let value = match store.latest(&channel) {
                Some(v) => v,
                None => no_data_sentinel(),
            };
            let out = crate::messages::encode_reply(&ReplyMessage::Data { value });
            Ok(out)
        },
        RequestMessage::GetLogs => {
            let mut out: Vec<u8> = Vec::new();
            out.push(WIRE_VERSION);
            out.push(MSG_REPLY_LOGS);
            proof {
                assert(out@ =~= seq![WIRE_VERSION, MSG_REPLY_LOGS]);
            }
            write_lines(&mut out, retained_logs);
            proof {
                assert(out@ =~= spec_encode_reply(
                    ReplyV::Logs { lines: retained_logs.deep_view() },
                ));
            }
            Ok(out)
        },
    }
}

/// One iteration of the log broadcast loop: drain the unread lines and,
/// when any are new, package them all as one broadcast tagged with the
/// reserved log channel; otherwise nothing is sent.
pub fn log_broadcast_step(feed: &mut XTablesLogger) -> (r: Option<(String, Vec<u8>)>)
    ensures
        final(feed).retained() == old(feed).retained(),
        final(feed).spec_capacity() == old(feed).spec_capacity(),
        final(feed).unread() == Seq::<Seq<char>>::empty(),
        r is None <==> old(feed).unread().len() == 0,
        r matches Some((topic, out)) ==> topic@ == spec_log_channel() && out@
            == spec_encode_publish(PublishV::Logs { lines: old(feed).unread() }),
{
    match feed.read_unread_logs() {
        None => None,
        Some(lines) => {
            let out = encode_publish(&PublishMessage::Logs { lines });
            Some((log_channel().to_owned(), out))
        },
    }
}

} // verus!
