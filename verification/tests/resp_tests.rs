use codecrafters_redis::resp::{decode, encode_value, Decoded};
use codecrafters_redis::types::{RedisValueRef, EMPTY_ARRAY, NULL_ARRAY, NULL_BULK_STRING};

fn bulk(s: &str) -> RedisValueRef {
    RedisValueRef::BulkString(s.as_bytes().to_vec())
}

fn decoded(buf: &[u8]) -> (RedisValueRef, usize) {
    match decode(buf) {
        Decoded::Value(v, n) => (v, n),
        other => panic!("not a value: {:?}", other),
    }
}

#[test]
fn encodes_each_kind() {
    assert_eq!(encode_value(&RedisValueRef::SimpleString(b"OK".to_vec())), b"+OK\r\n".to_vec());
    assert_eq!(encode_value(&RedisValueRef::ErrorMsg(b"ERR x".to_vec())), b"-ERR x\r\n".to_vec());
    assert_eq!(encode_value(&RedisValueRef::Error(b"E".to_vec())), b"-E\r\n".to_vec());
    assert_eq!(encode_value(&RedisValueRef::Int(-42)), b":-42\r\n".to_vec());
    assert_eq!(encode_value(&RedisValueRef::Int(i64::MIN)), b":-9223372036854775808\r\n".to_vec());
    assert_eq!(encode_value(&bulk("hello")), b"$5\r\nhello\r\n".to_vec());
    assert_eq!(encode_value(&bulk("")), b"$0\r\n\r\n".to_vec());
    assert_eq!(encode_value(&RedisValueRef::NullBulkString), NULL_BULK_STRING.as_bytes().to_vec());
    assert_eq!(encode_value(&RedisValueRef::NullArray), NULL_ARRAY.as_bytes().to_vec());
    assert_eq!(encode_value(&RedisValueRef::Array(vec![])), EMPTY_ARRAY.as_bytes().to_vec());
    assert_eq!(
        encode_value(&RedisValueRef::Array(vec![bulk("GET"), bulk("k")])),
        b"*2\r\n$3\r\nGET\r\n$1\r\nk\r\n".to_vec()
    );
}

#[test]
fn decodes_a_command_and_reports_its_length() {
    let buf = b"*2\r\n$4\r\nECHO\r\n$3\r\nhey\r\n+extra";
    let (v, n) = decoded(buf);
    assert_eq!(v, RedisValueRef::Array(vec![bulk("ECHO"), bulk("hey")]));
    assert_eq!(n, buf.len() - "+extra".len());
}

#[test]
fn round_trip() {
    let values = vec![
        RedisValueRef::SimpleString(b"PONG".to_vec()),
        RedisValueRef::Error(b"WRONGTYPE x".to_vec()),
        RedisValueRef::Int(0),
        RedisValueRef::Int(123456789),
        bulk("a\r\nb"),
        RedisValueRef::NullBulkString,
        RedisValueRef::NullArray,
        RedisValueRef::Array(vec![
            RedisValueRef::Array(vec![RedisValueRef::Int(-1), bulk("x")]),
            RedisValueRef::NullBulkString,
        ]),
    ];
    for v in values {
        let bytes = encode_value(&v);
        let (back, n) = decoded(&bytes);
        assert_eq!(back, v);
        assert_eq!(n, bytes.len());
    }
}

#[test]
fn incomplete_input_waits() {
    for partial in [&b""[..], b"*", b"*2\r\n$4\r\nEC", b"$5\r\nhel", b"+OK", b"+OK\r", b":12"] {
        assert!(matches!(decode(partial), Decoded::Incomplete), "{:?}", partial);
    }
}

#[test]
fn malformed_input_is_invalid() {
    for bad in [&b"?x\r\n"[..], b"+OK\rX", b":+5\r\n", b":05\r\n", b":-0\r\n", b"$-2\r\n", b"$3\r\nabcd\r\n", b"*x\r\n"] {
        assert!(matches!(decode(bad), Decoded::Invalid), "{:?}", bad);
    }
}

#[test]
fn unfinished_input_is_judged_by_what_could_follow() {
    for partial in [&b":"[..], b":-", b"$-", b"$-1", b"$-1\r", b"*0\r", b"$3\r\nab", b"$3\r\nabc\r", b"*2\r\n+a\r\n:-"] {
        assert!(matches!(decode(partial), Decoded::Incomplete), "{:?}", partial);
    }
    for bad in [&b":1x"[..], b":01", b":-0\r", b"$-5", b"$-2\r", b"*02", b"$3\r\nabcX", b"*2\r\n+a\r\n:0x"] {
        assert!(matches!(decode(bad), Decoded::Invalid), "{:?}", bad);
    }
}
