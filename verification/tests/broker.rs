use xtables::broker::{answer_request, ingest_step, log_broadcast_step, BrokerStepError};
use xtables::client::{parse_data_reply, parse_logs_reply, push_data, request_data, request_log};
use xtables::log_feed::XTablesLogger;
use xtables::messages::{decode_publish, PublishMessage};
use xtables::store::ChannelStore;
use xtables::value::Value;

#[test]
fn get_before_any_write_returns_sentinel() {
    let mut store = ChannelStore::new();
    let logs: Vec<String> = Vec::new();
    let request = request_data("temperature");
    let reply = answer_request(&mut store, &logs, &request).expect("well-formed request");
    let value = parse_data_reply(&reply).expect("data reply expected");
    assert!(value.is_no_data_sentinel());
}

#[test]
fn ingested_value_is_cached_and_broadcast() {
    let mut store = ChannelStore::new();
    let logs: Vec<String> = Vec::new();

    // client A publishes 42 on "temperature"
    let push = push_data("temperature", &Value::Int32(42));
    let (topic, broadcast) = ingest_step(&mut store, &push).expect("well-formed push");
    assert_eq!(topic, "temperature");
    match decode_publish(&broadcast).expect("broadcast must decode") {
        PublishMessage::Data { channel, value } => {
            assert_eq!(channel, "temperature");
            assert_eq!(value, Value::Int32(42));
        },
        other => panic!("wrong broadcast payload: {:?}", other),
    }

    // client B queries and sees Int32(42)
    let request = request_data("temperature");
    let reply = answer_request(&mut store, &logs, &request).expect("well-formed request");
    let value = parse_data_reply(&reply).expect("data reply expected");
    assert_eq!(value, Value::Int32(42));
}

#[test]
fn last_write_wins() {
    let mut store = ChannelStore::new();
    let logs: Vec<String> = Vec::new();
    for x in [1i32, 2, 3] {
        let push = push_data("count", &Value::Int32(x));
        ingest_step(&mut store, &push).unwrap();
    }
    let reply = answer_request(&mut store, &logs, &request_data("count")).unwrap();
    assert_eq!(parse_data_reply(&reply).unwrap(), Value::Int32(3));
}

#[test]
fn malformed_push_is_reported() {
    let mut store = ChannelStore::new();
    assert_eq!(
        ingest_step(&mut store, &[0xDE, 0xAD, 0xBE, 0xEF]),
        Err(BrokerStepError::MalformedPayload)
    );
    let logs: Vec<String> = Vec::new();
    assert_eq!(
        answer_request(&mut store, &logs, &[]),
        Err(BrokerStepError::MalformedPayload)
    );
}

#[test]
fn log_query_returns_retained_history() {
    let mut store = ChannelStore::new();
    let logs = vec![String::from("[INFO] boot"), String::from("[WARN] hot")];
    let reply = answer_request(&mut store, &logs, &request_log()).unwrap();
    let got = parse_logs_reply(&reply).expect("logs reply expected");
    assert_eq!(got, logs);
}

#[test]
fn log_broadcast_drains_unread_once() {
    let mut feed = XTablesLogger::new(500);
    assert!(log_broadcast_step(&mut feed).is_none());

    feed.record(String::from("[INFO] first"));
    feed.record(String::from("[INFO] second"));

    let (topic, bytes) = log_broadcast_step(&mut feed).expect("unread lines pending");
    assert_eq!(topic, "XTABLES_INTERNAL_LOG");
    match decode_publish(&bytes).unwrap() {
        PublishMessage::Logs { lines } => {
            assert_eq!(lines, vec![String::from("[INFO] first"), String::from("[INFO] second")]);
        },
        other => panic!("wrong broadcast payload: {:?}", other),
    }

    // drained: nothing further to broadcast, but history is retained
    assert!(log_broadcast_step(&mut feed).is_none());
    assert_eq!(
        feed.get_logs(),
        vec![String::from("[INFO] first"), String::from("[INFO] second")]
    );
}

#[test]
fn log_feed_caps_retention() {
    let mut feed = XTablesLogger::new(2);
    feed.record(String::from("a"));
    feed.record(String::from("b"));
    feed.record(String::from("c"));
    assert_eq!(feed.get_logs(), vec![String::from("b"), String::from("c")]);
}

#[test]
fn unread_logs_drain_wholesale() {
    let mut feed = XTablesLogger::new(10);
    assert_eq!(feed.read_unread_logs(), None);
    feed.record(String::from("x"));
    assert_eq!(feed.read_unread_logs(), Some(vec![String::from("x")]));
    assert_eq!(feed.read_unread_logs(), None);
}
