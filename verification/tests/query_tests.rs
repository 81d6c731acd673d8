use reki3::query::{parse_unsigned, query_value};

#[test]
fn query_value_finds_pairs() {
    let q = b"a=1&bb=22&c";
    assert_eq!(query_value(q, b"a"), Some(&b"1"[..]));
    assert_eq!(query_value(q, b"bb"), Some(&b"22"[..]));
    assert_eq!(query_value(q, b"c"), Some(&b""[..]));
    assert_eq!(query_value(q, b"b"), None);
    assert_eq!(query_value(b"", b"a"), None);
}

#[test]
fn query_value_last_occurrence_wins() {
    assert_eq!(query_value(b"k=1&x=2&k=3", b"k"), Some(&b"3"[..]));
    assert_eq!(query_value(b"k=1&x=2", b"k"), Some(&b"1"[..]));
}

#[test]
fn query_value_splits_at_first_equals() {
    assert_eq!(query_value(b"k=a=b", b"k"), Some(&b"a=b"[..]));
    assert_eq!(query_value(b"k==", b"k"), Some(&b"="[..]));
}

#[test]
fn query_value_is_raw() {
    assert_eq!(query_value(b"ip=%31", b"ip"), Some(&b"%31"[..]));
    assert_eq!(query_value(b"%69p=1", b"ip"), None);
}

#[test]
fn parse_unsigned_follows_str_parse() {
    assert_eq!(parse_unsigned(b"6881", 65535), Some(6881));
    assert_eq!(parse_unsigned(b"+7", 65535), Some(7));
    assert_eq!(parse_unsigned(b"007", 65535), Some(7));
    assert_eq!(parse_unsigned(b"65535", 65535), Some(65535));
    assert_eq!(parse_unsigned(b"65536", 65535), None);
    assert_eq!(parse_unsigned(b"", 65535), None);
    assert_eq!(parse_unsigned(b"+", 65535), None);
    assert_eq!(parse_unsigned(b"-1", 65535), None);
    assert_eq!(parse_unsigned(b" 1", 65535), None);
    assert_eq!(parse_unsigned(b"18446744073709551615", u64::MAX), Some(u64::MAX));
    assert_eq!(parse_unsigned(b"18446744073709551616", u64::MAX), None);
    for s in ["0", "1", "42", "+3", "999999", "x", "1x", "+-1"] {
        assert_eq!(parse_unsigned(s.as_bytes(), u64::MAX), s.parse::<u64>().ok());
        assert_eq!(parse_unsigned(s.as_bytes(), 65535).map(|v| v as u16), s.parse::<u16>().ok());
    }
}

#[test]
fn decimal_round_trip() {
    for n in [0u64, 9, 10, 99, 100, 65535, u64::MAX] {
        assert_eq!(parse_unsigned(n.to_string().as_bytes(), u64::MAX), Some(n));
    }
}
