use codecrafters_redis::text::{
    bytes_less, canonical_i64, i64_text, parse_i64, parse_u16, to_ascii_uppercase, u64_text,
};

#[test]
fn parse_i64_like_std() {
    for s in ["0", "-0", "+7", "007", "-9223372036854775808", "9223372036854775807", "", "-", "+", "1a", " 1", "9223372036854775808", "-9223372036854775809", "١"] {
        assert_eq!(parse_i64(s.as_bytes()), s.parse::<i64>().ok(), "{:?}", s);
    }
}

#[test]
fn parse_u16_like_std() {
    for s in ["0", "+1", "-0", "65535", "65536", "00080", "", "x"] {
        assert_eq!(parse_u16(s.as_bytes()), s.parse::<u16>().ok(), "{:?}", s);
    }
}

#[test]
fn decimal_text_like_std() {
    for n in [0i64, 7, -7, 10, 12345, i64::MAX, i64::MIN] {
        assert_eq!(i64_text(n), n.to_string().into_bytes());
        assert_eq!(canonical_i64(n.to_string().as_bytes()), Some(n));
    }
    assert_eq!(u64_text(u64::MAX), u64::MAX.to_string().into_bytes());
    assert_eq!(canonical_i64(b"+1"), None);
    assert_eq!(canonical_i64(b"01"), None);
}

#[test]
fn upper_and_order() {
    assert_eq!(to_ascii_uppercase(b"zAdd-1\xff"), b"ZADD-1\xff".to_vec());
    assert!(bytes_less(b"apple", b"banana"));
    assert!(bytes_less(b"ab", b"abc"));
    assert!(!bytes_less(b"abc", b"abc"));
    assert!(!bytes_less(b"b", b"a"));
}
