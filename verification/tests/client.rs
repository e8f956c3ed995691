use xtables::broker::{answer_request, ingest_step};
use xtables::client::{
    dispatch_plan, parse_data_reply, push_data, request_data, ClientError, Dispatch,
};
use xtables::messages::{encode_reply, ReplyMessage};
use xtables::registry::{LogListenerRegistry, SubscriptionRegistry};
use xtables::store::ChannelStore;
use xtables::value::Value;

#[test]
fn subscribe_delivers_current_value_once() {
    // broker side: 42 was already published on "temperature"
    let mut store = ChannelStore::new();
    let no_logs: Vec<String> = Vec::new();
    ingest_step(&mut store, &push_data("temperature", &Value::Int32(42))).unwrap();

    // client side: subscribe performs a synchronous get and, since the
    // result is not the sentinel, delivers it to the callback once
    let mut registry = SubscriptionRegistry::new();
    let channel = String::from("temperature");
    let (_key, first) = registry.subscribe(&channel);
    assert!(first, "first listener must trigger the transport subscription");

    let mut delivered: Vec<Value> = Vec::new();
    let reply = answer_request(&mut store, &no_logs, &request_data("temperature")).unwrap();
    let value = parse_data_reply(&reply).unwrap();
    if !value.is_no_data_sentinel() {
        delivered.push(value);
    }
    assert_eq!(delivered, vec![Value::Int32(42)]);
}

#[test]
fn subscribe_on_unwritten_channel_delivers_nothing() {
    let mut store = ChannelStore::new();
    let no_logs: Vec<String> = Vec::new();
    let mut delivered: Vec<Value> = Vec::new();
    let reply = answer_request(&mut store, &no_logs, &request_data("nothing_here")).unwrap();
    let value = parse_data_reply(&reply).unwrap();
    if !value.is_no_data_sentinel() {
        delivered.push(value);
    }
    assert!(delivered.is_empty());
}

#[test]
fn unsubscribed_listener_is_skipped() {
    // two listeners on one channel; one unsubscribes; the next publish
    // invokes only the remaining one, exactly once
    let mut registry = SubscriptionRegistry::new();
    let log_registry = LogListenerRegistry::new();
    let channel = String::from("temperature");
    let (k1, first1) = registry.subscribe(&channel);
    let (k2, first2) = registry.subscribe(&channel);
    assert!(first1);
    assert!(!first2);

    let (removed_channel, last) = registry.unsubscribe(k1).expect("token used once");
    assert_eq!(removed_channel, "temperature");
    assert!(!last, "one listener remains");

    let mut store = ChannelStore::new();
    let (topic, broadcast) =
        ingest_step(&mut store, &push_data("temperature", &Value::Bool(true))).unwrap();
    match dispatch_plan(&registry, &log_registry, &topic, &broadcast).unwrap() {
        Dispatch::Data { keys, value } => {
            assert_eq!(keys, vec![k2]);
            assert_eq!(value, Value::Bool(true));
        },
        other => panic!("wrong dispatch: {:?}", other),
    }
}

#[test]
fn last_unsubscribe_silences_channel() {
    // the last listener unsubscribes; the channel is to be
    // transport-unsubscribed, and even an in-flight publish invokes no
    // callback
    let mut registry = SubscriptionRegistry::new();
    let log_registry = LogListenerRegistry::new();
    let channel = String::from("temperature");
    let (k1, _) = registry.subscribe(&channel);

    let (_, last) = registry.unsubscribe(k1).expect("token used once");
    assert!(last, "the transport must unsubscribe the channel");

    let mut store = ChannelStore::new();
    let (topic, broadcast) =
        ingest_step(&mut store, &push_data("temperature", &Value::Uint32(5))).unwrap();
    match dispatch_plan(&registry, &log_registry, &topic, &broadcast).unwrap() {
        Dispatch::Data { keys, .. } => assert!(keys.is_empty(), "no callback may fire"),
        other => panic!("wrong dispatch: {:?}", other),
    }
}

#[test]
fn used_token_is_a_no_op() {
    let mut registry = SubscriptionRegistry::new();
    let channel = String::from("temperature");
    let (k1, _) = registry.subscribe(&channel);
    assert!(registry.unsubscribe(k1).is_some());
    assert!(registry.unsubscribe(k1).is_none());
}

#[test]
fn log_listeners_all_receive_lines() {
    let registry = SubscriptionRegistry::new();
    let mut log_registry = LogListenerRegistry::new();
    let (k1, first1) = log_registry.subscribe();
    let (k2, first2) = log_registry.subscribe();
    assert!(first1);
    assert!(!first2);

    let mut feed = xtables::log_feed::XTablesLogger::new(500);
    feed.record(String::from("[INFO] ready"));
    let (topic, bytes) = xtables::broker::log_broadcast_step(&mut feed).unwrap();

    match dispatch_plan(&registry, &log_registry, &topic, &bytes).unwrap() {
        Dispatch::Logs { keys, lines } => {
            assert_eq!(keys, vec![k1, k2]);
            assert_eq!(lines, vec![String::from("[INFO] ready")]);
        },
        other => panic!("wrong dispatch: {:?}", other),
    }

    let last = log_registry.unsubscribe(k1).unwrap();
    assert!(!last);
    let last = log_registry.unsubscribe(k2).unwrap();
    assert!(last, "the transport must unsubscribe the log channel");
}

#[test]
fn unexpected_reply_variant_is_a_protocol_error() {
    let logs_reply = encode_reply(&ReplyMessage::Logs { lines: vec![String::from("l")] });
    assert_eq!(parse_data_reply(&logs_reply), Err(ClientError::UnexpectedReply));

    let data_reply = encode_reply(&ReplyMessage::Data { value: Value::Int32(1) });
    assert_eq!(
        xtables::client::parse_logs_reply(&data_reply),
        Err(ClientError::UnexpectedReply)
    );

    assert_eq!(parse_data_reply(&[1, 2, 3]), Err(ClientError::Malformed));
}

#[test]
fn dispatch_rejects_malformed_broadcast() {
    let registry = SubscriptionRegistry::new();
    let log_registry = LogListenerRegistry::new();
    let topic = String::from("temperature");
    assert!(matches!(
        dispatch_plan(&registry, &log_registry, &topic, &[7, 7, 7]),
        Err(ClientError::Malformed)
    ));
}
