use miniredis::codec::{DecodeError, RespCodec};
use miniredis::model::RespValue;

fn round_trip(v: RespValue) -> RespValue {
    let bytes = RespCodec::encode(&v);
    let (decoded, used) = RespCodec::decode(&bytes).expect("well-formed encoding must decode");
    assert_eq!(used, bytes.len());
    decoded
}

#[test]
fn encode_simple_string() {
    let bytes = RespCodec::encode(&RespValue::SimpleString("PONG".to_string()));
    assert_eq!(bytes, b"+PONG\r\n".to_vec());
}

#[test]
fn encode_error() {
    let bytes = RespCodec::encode(&RespValue::Error("ERR oops".to_string()));
    assert_eq!(bytes, b"-ERR oops\r\n".to_vec());
}

#[test]
fn encode_integer() {
    assert_eq!(RespCodec::encode(&RespValue::Integer(0)), b":0\r\n".to_vec());
    assert_eq!(RespCodec::encode(&RespValue::Integer(1234)), b":1234\r\n".to_vec());
    assert_eq!(
        RespCodec::encode(&RespValue::Integer(u64::MAX)),
        b":18446744073709551615\r\n".to_vec()
    );
}

#[test]
fn encode_bulk_and_binary_same_wire_form() {
    let a = RespCodec::encode(&RespValue::BulkString("hello".to_string()));
    let b = RespCodec::encode(&RespValue::BinaryBulkString(b"hello".to_vec()));
    assert_eq!(a, b"$5\r\nhello\r\n".to_vec());
    assert_eq!(a, b);
}

#[test]
fn null_forms() {
    assert_eq!(RespCodec::encode(&RespValue::Null), b"$-1\r\n".to_vec());
    assert_eq!(RespCodec::encode(&RespValue::NullArray), b"*-1\r\n".to_vec());
    assert_eq!(round_trip(RespValue::Null), RespValue::Null);
    assert_eq!(round_trip(RespValue::NullArray), RespValue::NullArray);
}

#[test]
fn round_trip_string_shaped_array() {
    let v = RespValue::Array(vec![
        RespValue::SimpleString("hello".to_string()),
        RespValue::Integer(42),
        RespValue::BinaryBulkString(b"world".to_vec()),
    ]);
    let back = round_trip(RespValue::Array(vec![
        RespValue::SimpleString("hello".to_string()),
        RespValue::Integer(42),
        RespValue::BinaryBulkString(b"world".to_vec()),
    ]));
    assert_eq!(back, v);
}

#[test]
fn round_trip_nested_array() {
    let v = RespValue::Array(vec![
        RespValue::Array(vec![RespValue::Integer(1), RespValue::Integer(2)]),
        RespValue::NullArray,
        RespValue::Null,
    ]);
    let bytes = RespCodec::encode(&v);
    let (decoded, used) = RespCodec::decode(&bytes).unwrap();
    assert_eq!(used, bytes.len());
    assert_eq!(decoded, v);
}

#[test]
fn bulk_string_canonicalizes_to_binary() {
    let bytes = RespCodec::encode(&RespValue::BulkString("x".to_string()));
    let (decoded, _) = RespCodec::decode(&bytes).unwrap();
    assert_eq!(decoded, RespValue::BinaryBulkString(b"x".to_vec()));
}

#[test]
fn binary_bulk_with_crlf_round_trips() {
    let payload = b"a\r\nb\r\n".to_vec();
    let back = round_trip(RespValue::BinaryBulkString(payload.clone()));
    assert_eq!(back, RespValue::BinaryBulkString(payload));
}

#[test]
fn decode_needs_more_bytes() {
    assert_eq!(RespCodec::decode(b""), Err(DecodeError::UnexpectedEof));
    assert_eq!(RespCodec::decode(b"+PON"), Err(DecodeError::UnexpectedEof));
    assert_eq!(RespCodec::decode(b"$5\r\nhel"), Err(DecodeError::UnexpectedEof));
    assert_eq!(RespCodec::decode(b"*2\r\n+a\r\n"), Err(DecodeError::UnexpectedEof));
}

#[test]
fn decode_invalid_data() {
    assert_eq!(RespCodec::decode(b"%foo\r\n"), Err(DecodeError::InvalidData));
    assert_eq!(RespCodec::decode(b":12a\r\n"), Err(DecodeError::InvalidData));
    assert_eq!(RespCodec::decode(b":-5\r\n"), Err(DecodeError::InvalidData));
    assert_eq!(RespCodec::decode(b"$abc\r\nxx\r\n"), Err(DecodeError::InvalidData));
}

#[test]
fn decode_reports_consumed_length_with_trailing_data() {
    let (v, used) = RespCodec::decode(b"+OK\r\n:1\r\n").unwrap();
    assert_eq!(v, RespValue::SimpleString("OK".to_string()));
    assert_eq!(used, 5);
}

#[test]
fn decode_empty_array_and_empty_bulk() {
    let (v, used) = RespCodec::decode(b"*0\r\n").unwrap();
    assert_eq!(v, RespValue::Array(vec![]));
    assert_eq!(used, 4);
    let (v2, used2) = RespCodec::decode(b"$0\r\n\r\n").unwrap();
    assert_eq!(v2, RespValue::BinaryBulkString(vec![]));
    assert_eq!(used2, 6);
}

#[test]
fn decode_non_ascii_simple_string() {
    let v = RespValue::SimpleString("héllo ☺".to_string());
    assert_eq!(round_trip(v.duplicate()), v);
}
