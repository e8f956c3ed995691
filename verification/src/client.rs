//! The client's decision logic: building requests, parsing replies, and
//! planning the dispatch of one received broadcast.
//!
//! The transport — connected sockets, the receive thread, the strict
//! request/reply alternation — lives outside; it sends the bytes built
//! here, hands received bytes back, and invokes the callbacks a
//! [`Dispatch`] names by their registry keys.

use crate::messages::{
    decode_publish, decode_reply, lemma_encode_publish_injective,
    lemma_encode_reply_injective, lemma_publish_at_encoded, lemma_reply_at_encoded, publish_at,
    reply_at, spec_encode_publish, spec_encode_push, spec_encode_reply, spec_encode_request,
    PublishMessage, PublishV, PushV, ReplyMessage, ReplyV, RequestV, MSG_PUSH_SEND,
    MSG_REQUEST_GET, MSG_REQUEST_LOGS, WIRE_VERSION,
};
use crate::registry::{LogListenerRegistry, SubscriptionRegistry};
use crate::value::Value;
use crate::wire::write_str;
use vstd::prelude::*;

verus! {

/// What went wrong with a reply or broadcast.
#[derive(Clone, Copy, Debug, PartialEq, Eq, Structural)]
pub enum ClientError {
    /// The bytes are not a well-formed envelope; a decode error is
    /// fatal to the loop that met it.
    Malformed,
    /// A well-formed reply of the wrong variant for the request sent: a
    /// protocol mismatch, fatal to the caller.
    UnexpectedReply,
}

/// The bytes of a publish command for `value` on `channel`, as the
/// push endpoint sends them.
pub fn push_data(channel: &str, value: &Value) -> (out: Vec<u8>)
    ensures
        out@ == spec_encode_push(PushV { channel: channel@, value: value@ }),
{
    let mut out: Vec<u8> = Vec::new();
    out.push(WIRE_VERSION);
    out.push(MSG_PUSH_SEND);
    proof {
        assert(out@ =~= seq![WIRE_VERSION, MSG_PUSH_SEND]);
    }
    write_str(&mut out, channel);
    crate::codec::write_value(&mut out, value);
    proof {
        assert(out@ =~= spec_encode_push(PushV { channel: channel@, value: value@ }));
    }
    out
}

/// The bytes of a get-latest request for `channel`.
pub fn request_data(channel: &str) -> (out: Vec<u8>)
    ensures
        out@ == spec_encode_request(RequestV::Get { channel: channel@ }),
{
    let mut out: Vec<u8> = Vec::new();
    out.push(WIRE_VERSION);
    out.push(MSG_REQUEST_GET);
    proof {
        assert(out@ =~= seq![WIRE_VERSION, MSG_REQUEST_GET]);
    }
    write_str(&mut out, channel);
    proof {
        assert(out@ =~= spec_encode_request(RequestV::Get { channel: channel@ }));
    }
    out
}

/// The bytes of a get-logs request.
pub fn request_log() -> (out: Vec<u8>)
    ensures
        out@ == spec_encode_request(RequestV::GetLogs),
{
    let mut out: Vec<u8> = Vec::new();
    out.push(WIRE_VERSION);
    out.push(MSG_REQUEST_LOGS);
    proof {
        assert(out@ =~= spec_encode_request(RequestV::GetLogs));
    }
    out
}

/// Parse the reply to a get-latest request: its value — possibly the
/// sentinel — or the error the caller treats as fatal.
pub fn parse_data_reply(bytes: &[u8]) -> (r: Result<Value, ClientError>)
    ensures
        r == Err::<Value, ClientError>(ClientError::Malformed) <==> !reply_at(bytes@),
        r matches Ok(v) ==> bytes@ == spec_encode_reply(ReplyV::Data { value: v@ }),
        forall|m: ReplyV|
            bytes@ == spec_encode_reply(m) ==> match m {
                ReplyV::Data { value } => (r matches Ok(v) && v@ == value),
                ReplyV::Logs { lines } => r == Err::<Value, ClientError>(
                    ClientError::UnexpectedReply,
                ),
            },
{
    let _buffer_len = bytes.len();
    proof {
        assert(bytes@.len() <= usize::MAX);
    }
    let msg = match decode_reply(bytes) {
        Some(msg) => msg,
        None => {
            proof {
                assert forall|m: ReplyV| bytes@ != spec_encode_reply(m) by {
                    if bytes@ == spec_encode_reply(m) {
                        lemma_reply_at_encoded(bytes@, m);
                    }
                }
            }
            return Err(ClientError::Malformed);
        },
    };
    let ghost mv = msg@;
    proof {
        assert forall|m: ReplyV| bytes@ == spec_encode_reply(m) implies m == mv by {
            lemma_encode_reply_injective(m, mv);
        }
    }
    match msg {
        ReplyMessage::Data { value } => Ok(value),
        ReplyMessage::Logs { lines: _ } => Err(ClientError::UnexpectedReply),
    }
}

/// Parse the reply to a get-logs request: the retained log history, or
/// the error the caller treats as fatal.
pub fn parse_logs_reply(bytes: &[u8]) -> (r: Result<Vec<String>, ClientError>)
    ensures
        r == Err::<Vec<String>, ClientError>(ClientError::Malformed) <==> !reply_at(bytes@),
        r matches Ok(ls) ==> bytes@ == spec_encode_reply(ReplyV::Logs { lines: ls.deep_view() }),
        forall|m: ReplyV|
            bytes@ == spec_encode_reply(m) ==> match m {
                ReplyV::Logs { lines } => (r matches Ok(ls) && ls.deep_view() == lines),
                ReplyV::Data { value } => r == Err::<Vec<String>, ClientError>(
                    ClientError::UnexpectedReply,
                ),
            },
{
    let _buffer_len = bytes.len();
    proof {
        assert(bytes@.len() <= usize::MAX);
    }
    let msg = match decode_reply(bytes) {
        Some(msg) => msg,
        None => {
            proof {
                assert forall|m: ReplyV| bytes@ != spec_encode_reply(m) by {
                    if bytes@ == spec_encode_reply(m) {
                        lemma_reply_at_encoded(bytes@, m);
                    }
                }
            }
            return Err(ClientError::Malformed);
        },
    };
    let ghost mv = msg@;
    proof {
        assert forall|m: ReplyV| bytes@ == spec_encode_reply(m) implies m == mv by {
            lemma_encode_reply_injective(m, mv);
        }
    }
    match msg {
        ReplyMessage::Logs { lines } => Ok(lines),
        ReplyMessage::Data { value: _ } => Err(ClientError::UnexpectedReply),
    }
}

/// What the receive loop must do with one broadcast: which listener
/// keys to invoke, and with what.
#[derive(Debug)]
pub enum Dispatch {
    /// Deliver `value` to each data listener key, in order.
    Data { keys: Vec<u64>, value: Value },
    /// Deliver each line, in order, to each log listener key.
    Logs { keys: Vec<u64>, lines: Vec<String> },
}

/// One iteration of the client's receive loop, after both frames of a
/// broadcast arrive: decode the payload and name exactly the listeners
/// currently registered — for a data publish, those of the routing
/// topic; for a log broadcast, every log listener.
pub fn dispatch_plan(
    registry: &SubscriptionRegistry,
    log_registry: &LogListenerRegistry,
    topic: &String,
    bytes: &[u8],
) -> (r: Result<Dispatch, ClientError>)
    ensures
        r is Err <==> !publish_at(bytes@),
        r is Err ==> r == Err::<Dispatch, ClientError>(ClientError::Malformed),
        forall|m: PublishV|
            bytes@ == spec_encode_publish(m) ==> match m {
                PublishV::Data { channel, value } => (r matches Ok(Dispatch::Data { keys, value: v })
                    && keys@ == registry.spec_listeners(topic@) && v@ == value),
                PublishV::Logs { lines } => (r matches Ok(Dispatch::Logs { keys, lines: ls })
                    && keys@ == log_registry.spec_listeners() && ls.deep_view() == lines),
            },
{
    let _buffer_len = bytes.len();
    proof {
        assert(bytes@.len() <= usize::MAX);
    }
    let msg = match decode_publish(bytes) {
        Some(msg) => msg,
        None => {
            proof {
                assert forall|m: PublishV| bytes@ != spec_encode_publish(m) by {
                    if bytes@ == spec_encode_publish(m) {
                        lemma_publish_at_encoded(bytes@, m);
                    }
                }
            }
            return Err(ClientError::Malformed);
        },
    };
    let ghost mv = msg@;
    proof {
        assert forall|m: PublishV| bytes@ == spec_encode_publish(m) implies m == mv by {
            lemma_encode_publish_injective(m, mv);
        }
    }
    match msg {
        PublishMessage::Data { channel: _, value } => {
            let keys = registry.listeners_for(topic);
            Ok(Dispatch::Data { keys, value })
        },
        PublishMessage::Logs { lines } => {
            let keys = log_registry.listeners();
            Ok(Dispatch::Logs { keys, lines })
        },
    }
}

} // verus!
