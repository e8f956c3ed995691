use xtables::codec::{take_value, write_value};
use xtables::messages::{
    decode_publish, decode_push, decode_reply, decode_request, encode_publish, encode_push,
    encode_reply, encode_request, PublishMessage, PushMessage, ReplyMessage, RequestMessage,
};
use xtables::value::Value;

fn value_round_trip(v: Value) -> Value {
    let mut out: Vec<u8> = Vec::new();
    write_value(&mut out, &v);
    let (w, end) = take_value(&out, 0).expect("an encoded value must decode");
    assert_eq!(end, out.len());
    w
}

#[test]
fn value_round_trip_all_kinds() {
    let values = vec![
        Value::Str(String::from("temperature")),
        Value::Str(String::new()),
        Value::Str(String::from("h\u{e9}llo \u{263a}")),
        Value::Int32(-42),
        Value::Int32(i32::MIN),
        Value::Int64(-1),
        Value::Int64(i64::MIN),
        Value::Uint32(u32::MAX),
        Value::Uint64(u64::MAX),
        Value::Bool(true),
        Value::Bool(false),
        Value::DoubleBits(3.25f64.to_bits()),
        Value::DoubleBits((-0.0f64).to_bits()),
        Value::FloatBits(1.5f32.to_bits()),
        Value::Bytes(vec![0, 1, 2, 255]),
        Value::Bytes(Vec::new()),
    ];
    for v in values {
        let w = value_round_trip(v.clone());
        assert_eq!(w, v);
    }
}

#[test]
fn double_bits_survive_exactly() {
    let x = -12345.6789f64;
    let v = Value::DoubleBits(x.to_bits());
    match value_round_trip(v) {
        Value::DoubleBits(bits) => assert_eq!(f64::from_bits(bits), x),
        other => panic!("wrong kind decoded: {:?}", other),
    }
}

#[test]
fn value_rejects_garbage() {
    assert!(take_value(&[], 0).is_none());
    assert!(take_value(&[99], 0).is_none());
    // a string record claiming one byte of content that is not UTF-8
    let bad = [1u8, 1, 0, 0, 0, 0, 0, 0, 0, 0xFF];
    assert!(take_value(&bad, 0).is_none());
    // a truncated scalar
    assert!(take_value(&[5u8, 1, 2, 3], 0).is_none());
}

#[test]
fn push_round_trip() {
    let m = PushMessage { channel: String::from("temperature"), value: Value::Int32(42) };
    let bytes = encode_push(&m);
    let d = decode_push(&bytes).expect("an encoded push must decode");
    assert_eq!(d, m);
}

#[test]
fn publish_round_trip_data_and_logs() {
    let data = PublishMessage::Data {
        channel: String::from("pose"),
        value: Value::Bytes(vec![9, 8, 7]),
    };
    let bytes = encode_publish(&data);
    assert_eq!(decode_publish(&bytes).unwrap(), data);

    let logs = PublishMessage::Logs {
        lines: vec![String::from("line one"), String::new(), String::from("line\nthree")],
    };
    let bytes = encode_publish(&logs);
    assert_eq!(decode_publish(&bytes).unwrap(), logs);

    let empty = PublishMessage::Logs { lines: Vec::new() };
    let bytes = encode_publish(&empty);
    assert_eq!(decode_publish(&bytes).unwrap(), empty);
}

#[test]
fn request_round_trip() {
    let get = RequestMessage::Get { channel: String::from("temperature") };
    assert_eq!(decode_request(&encode_request(&get)).unwrap(), get);
    let logs = RequestMessage::GetLogs;
    assert_eq!(decode_request(&encode_request(&logs)).unwrap(), logs);
}

#[test]
fn reply_round_trip() {
    let data = ReplyMessage::Data { value: Value::Uint64(7) };
    assert_eq!(decode_reply(&encode_reply(&data)).unwrap(), data);
    let logs = ReplyMessage::Logs { lines: vec![String::from("a"), String::from("b")] };
    assert_eq!(decode_reply(&encode_reply(&logs)).unwrap(), logs);
}

#[test]
fn envelopes_reject_noise() {
    assert!(decode_push(&[]).is_none());
    assert!(decode_push(&[1]).is_none());
    assert!(decode_request(&[2, 2]).is_none());
    // trailing bytes after a complete envelope are refused
    let mut bytes = encode_request(&RequestMessage::GetLogs);
    bytes.push(0);
    assert!(decode_request(&bytes).is_none());
}
