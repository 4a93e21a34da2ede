use redis_starter_rust::resp::{decode, DecodeError, RespValue};
use redis_starter_rust::utils::{bytes2usize, split_by_clrf};

#[test]
fn test_decode_simple_string() {
    let (actual, _) = decode(b"+OK\r\n").unwrap();
    let expected = RespValue::SimpleString(b"OK".to_vec());
    assert_eq!(actual, expected);
}

#[test]
fn test_decode_bulk_string() {
    let (actual, _) = decode(b"$5\r\nhello\r\n").unwrap();
    let expected = RespValue::BulkString(b"hello".to_vec());
    assert_eq!(actual, expected);
}

#[test]
fn test_decode_array() {
    let (actual, _) = decode(b"*2\r\n$5\r\nhello\r\n$5\r\nworld\r\n").unwrap();
    let expected = RespValue::Array(vec![
        RespValue::BulkString(b"hello".to_vec()),
        RespValue::BulkString(b"world".to_vec()),
    ]);
    assert_eq!(actual, expected);
}

#[test]
fn test_encode_array() {
    let actual = RespValue::Array(vec![RespValue::BulkString(b"PING".to_vec())]).to_bytes();
    assert_eq!(actual, b"*1\r\n$4\r\nPING\r\n");
}

#[test]
fn encode_each_kind() {
    assert_eq!(RespValue::SimpleString(b"PONG".to_vec()).to_bytes(), b"+PONG\r\n");
    assert_eq!(RespValue::SimpleError(b"ERR x".to_vec()).to_bytes(), b"-ERR x\r\n");
    assert_eq!(RespValue::Integer(-42).to_bytes(), b":-42\r\n");
    assert_eq!(RespValue::Integer(i64::MIN).to_bytes(), b":-9223372036854775808\r\n");
    assert_eq!(RespValue::NullBulkString.to_bytes(), b"$-1\r\n");
    assert_eq!(RespValue::BulkString(vec![]).to_bytes(), b"$0\r\n\r\n");
    assert_eq!(RespValue::Array(vec![]).to_bytes(), b"*0\r\n");
}

#[test]
fn round_trip_nested_values() {
    let v = RespValue::Array(vec![
        RespValue::Integer(7),
        RespValue::NullBulkString,
        RespValue::BulkString(b"a\r\nb".to_vec()),
        RespValue::Array(vec![RespValue::SimpleError(b"ERR no".to_vec())]),
        RespValue::SimpleString(b"OK".to_vec()),
    ]);
    let bytes = v.to_bytes();
    let (back, rest) = decode(&bytes).unwrap();
    assert_eq!(back, v);
    assert!(rest.is_empty());
}

#[test]
fn decode_leaves_following_bytes() {
    let (v, rest) = decode(b":12\r\n+next\r\n").unwrap();
    assert_eq!(v, RespValue::Integer(12));
    assert_eq!(rest, b"+next\r\n");
}

#[test]
fn lengths_and_integers_take_a_plus_sign() {
    assert_eq!(decode(b"$+5\r\nhello\r\n").unwrap().0, RespValue::BulkString(b"hello".to_vec()));
    assert_eq!(decode(b":+7\r\n").unwrap().0, RespValue::Integer(7));
    assert_eq!(decode(b":-+7\r\n").unwrap_err(), DecodeError::Malformed);
}

#[test]
fn null_bulk_is_not_empty_bulk() {
    assert_eq!(decode(b"$-1\r\n").unwrap().0, RespValue::NullBulkString);
    assert_eq!(decode(b"$0\r\n\r\n").unwrap().0, RespValue::BulkString(vec![]));
}

#[test]
fn decode_errors() {
    assert_eq!(decode(b"").unwrap_err(), DecodeError::Truncated);
    assert_eq!(decode(b"!x\r\n").unwrap_err(), DecodeError::Malformed);
    assert_eq!(decode(b"+OK").unwrap_err(), DecodeError::Truncated);
    assert_eq!(decode(b":1x\r\n").unwrap_err(), DecodeError::Malformed);
    assert_eq!(decode(b"$x\r\nab\r\n").unwrap_err(), DecodeError::BadLength);
    assert_eq!(decode(b"*z\r\n").unwrap_err(), DecodeError::BadLength);
    assert_eq!(decode(b"$5\r\nab\r\n").unwrap_err(), DecodeError::Truncated);
    assert_eq!(decode(b"$2\r\nabcd\r\n").unwrap_err(), DecodeError::LengthMismatch);
    assert_eq!(decode(b"*2\r\n$1\r\na\r\n").unwrap_err(), DecodeError::Truncated);
}

#[test]
fn split_line_at_crlf() {
    let (line, rest) = split_by_clrf(b"abc\r\ndef").unwrap();
    assert_eq!(line, b"abc");
    assert_eq!(rest, b"def");
    assert!(split_by_clrf(b"abc\rdef").is_none());
    assert!(split_by_clrf(b"abc").is_none());
}

#[test]
fn parse_usize() {
    assert_eq!(bytes2usize(b"1024"), Some(1024));
    assert_eq!(bytes2usize(b"0"), Some(0));
    assert_eq!(bytes2usize(b"+5"), Some(5));
    assert_eq!(bytes2usize(b"+"), None);
    assert_eq!(bytes2usize(b"-1"), None);
    assert_eq!(bytes2usize(b"++5"), None);
    assert_eq!(bytes2usize(b""), None);
    assert_eq!(bytes2usize(b"12a"), None);
    assert_eq!(bytes2usize(b"99999999999999999999999"), None);
}
