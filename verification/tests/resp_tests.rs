use verdis::resp::{encode_frame, resp_decode, Decoded, RespValue};

fn bulk(s: &[u8]) -> RespValue {
    RespValue::Bulk(s.to_vec())
}

#[test]
fn encode_simple_pong() {
    let frame = encode_frame(&RespValue::Simple(b"PONG".to_vec()));
    assert_eq!(frame, b"+PONG\r\n".to_vec());
}

#[test]
fn encode_error_line() {
    let frame = encode_frame(&RespValue::ErrorMsg(b"ERR unknown command".to_vec()));
    assert_eq!(frame, b"-ERR unknown command\r\n".to_vec());
}

#[test]
fn encode_bulk_and_null_bulk() {
    assert_eq!(encode_frame(&bulk(b"world")), b"$5\r\nworld\r\n".to_vec());
    assert_eq!(encode_frame(&RespValue::NullBulk), b"$-1\r\n".to_vec());
}

#[test]
fn encode_command_array() {
    let v = RespValue::Arr(vec![bulk(b"GET"), bulk(b"hello")]);
    assert_eq!(encode_frame(&v), b"*2\r\n$3\r\nGET\r\n$5\r\nhello\r\n".to_vec());
}

#[test]
fn decode_ping_frame() {
    let input = b"*1\r\n$4\r\nPING\r\n";
    match resp_decode(input) {
        Decoded::Complete(v, consumed) => {
            assert_eq!(v, RespValue::Arr(vec![bulk(b"PING")]));
            assert_eq!(consumed, input.len());
        }
        other => panic!("expected a complete frame, got {:?}", other),
    }
}

#[test]
fn decode_consumes_only_one_frame() {
    let input = b"+OK\r\n+PONG\r\n";
    match resp_decode(input) {
        Decoded::Complete(v, consumed) => {
            assert_eq!(v, RespValue::Simple(b"OK".to_vec()));
            assert_eq!(consumed, 5);
        }
        other => panic!("expected a complete frame, got {:?}", other),
    }
}

#[test]
fn decode_null_forms() {
    match resp_decode(b"$-1\r\n") {
        Decoded::Complete(v, 5) => assert_eq!(v, RespValue::NullBulk),
        other => panic!("unexpected {:?}", other),
    }
    match resp_decode(b"*-1\r\n") {
        Decoded::Complete(v, 5) => assert_eq!(v, RespValue::NullArr),
        other => panic!("unexpected {:?}", other),
    }
}

#[test]
fn decode_incomplete_input() {
    assert_eq!(resp_decode(b""), Decoded::NeedMore);
    assert_eq!(resp_decode(b"*2\r\n$3\r\nab"), Decoded::NeedMore);
    assert_eq!(resp_decode(b"$10\r\nabc"), Decoded::NeedMore);
    assert_eq!(resp_decode(b"+PONG"), Decoded::NeedMore);
}

#[test]
fn decode_malformed_input() {
    assert_eq!(resp_decode(b"hello\r\n"), Decoded::Malformed);
    assert_eq!(resp_decode(b"$xy\r\n"), Decoded::Malformed);
    assert_eq!(resp_decode(b"*1\r\nnope\r\n"), Decoded::Malformed);
}

#[test]
fn round_trip_nested_value() {
    let v = RespValue::Arr(vec![
        bulk(b"SET"),
        bulk(b""),
        RespValue::Simple(b"x".to_vec()),
        RespValue::Arr(vec![bulk(b"inner")]),
        RespValue::NullBulk,
    ]);
    let bytes = encode_frame(&v);
    match resp_decode(&bytes) {
        Decoded::Complete(w, consumed) => {
            assert_eq!(w, v);
            assert_eq!(consumed, bytes.len());
        }
        other => panic!("expected a complete frame, got {:?}", other),
    }
}

#[test]
fn round_trip_binary_bulk() {
    let v = RespValue::Arr(vec![bulk(&[0, 13, 10, 255, 36])]);
    let bytes = encode_frame(&v);
    match resp_decode(&bytes) {
        Decoded::Complete(w, consumed) => {
            assert_eq!(w, v);
            assert_eq!(consumed, bytes.len());
        }
        other => panic!("expected a complete frame, got {:?}", other),
    }
}
