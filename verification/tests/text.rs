use quic_torrent_client_server::decimal::{format_i64, format_u64, parse_digits, parse_i64};
use quic_torrent_client_server::lex::{bytes_eq, bytes_lt};

#[test]
fn numbers_are_written_in_decimal() {
    assert_eq!(format_u64(0), b"0".to_vec());
    assert_eq!(format_u64(9), b"9".to_vec());
    assert_eq!(format_u64(10), b"10".to_vec());
    assert_eq!(format_u64(u64::MAX), b"18446744073709551615".to_vec());
    assert_eq!(format_i64(-1), b"-1".to_vec());
    assert_eq!(format_i64(i64::MIN), b"-9223372036854775808".to_vec());
    assert_eq!(format_i64(1000), b"1000".to_vec());
}

#[test]
fn digits_are_read_up_to_a_maximum() {
    assert_eq!(parse_digits(b"123", 0, 3, 1000), Some(123));
    assert_eq!(parse_digits(b"123", 0, 3, 123), Some(123));
    assert_eq!(parse_digits(b"123", 0, 3, 122), None);
    assert_eq!(parse_digits(b"x123y", 1, 4, 1000), Some(123));
    assert_eq!(parse_digits(b"123", 1, 1, 1000), None);
    assert_eq!(parse_digits(b"0007", 0, 4, 7), Some(7));
    assert_eq!(parse_digits(b"12a", 0, 3, 1000), None);
    assert_eq!(parse_digits(b"+1", 0, 2, 1000), None);
    assert_eq!(parse_digits(b"18446744073709551615", 0, 20, u64::MAX), Some(u64::MAX));
    assert_eq!(parse_digits(b"18446744073709551616", 0, 20, u64::MAX), None);
    assert_eq!(parse_digits(b"99999999999999999999999", 0, 23, u64::MAX), None);
    assert_eq!(parse_digits(b"5", 0, 1, 0), None);
    assert_eq!(parse_digits(b"0", 0, 1, 0), Some(0));
}

#[test]
fn signed_numbers_are_read_with_an_optional_sign() {
    assert_eq!(parse_i64(b"0", 0, 1), Some(0));
    assert_eq!(parse_i64(b"-0", 0, 2), Some(0));
    assert_eq!(parse_i64(b"+17", 0, 3), Some(17));
    assert_eq!(parse_i64(b"-17", 0, 3), Some(-17));
    assert_eq!(parse_i64(b"9223372036854775807", 0, 19), Some(i64::MAX));
    assert_eq!(parse_i64(b"9223372036854775808", 0, 19), None);
    assert_eq!(parse_i64(b"-9223372036854775808", 0, 20), Some(i64::MIN));
    assert_eq!(parse_i64(b"-9223372036854775809", 0, 20), None);
    assert_eq!(parse_i64(b"", 0, 0), None);
    assert_eq!(parse_i64(b"-", 0, 1), None);
    assert_eq!(parse_i64(b"+", 0, 1), None);
    assert_eq!(parse_i64(b"--1", 0, 3), None);
    assert_eq!(parse_i64(b"1-", 0, 2), None);
    assert_eq!(parse_i64(b" 1", 0, 2), None);
}

#[test]
fn written_numbers_are_read_back() {
    for i in [0i64, 1, -1, 42, -42, 1234567890123, i64::MAX, i64::MIN, i64::MIN + 1] {
        let text = format_i64(i);
        assert_eq!(parse_i64(&text, 0, text.len()), Some(i));
    }
}

#[test]
fn byte_strings_are_ordered_lexicographically() {
    assert!(bytes_lt(b"", b"a"));
    assert!(!bytes_lt(b"", b""));
    assert!(!bytes_lt(b"a", b""));
    assert!(bytes_lt(b"a", b"ab"));
    assert!(!bytes_lt(b"ab", b"a"));
    assert!(bytes_lt(b"ab", b"b"));
    assert!(bytes_lt(b"Z", b"a"));
    assert!(bytes_lt(&[0x7f], &[0x80]));
    assert!(!bytes_lt(b"same", b"same"));
    assert!(bytes_eq(b"same", b"same"));
    assert!(!bytes_eq(b"same", b"sama"));
    assert!(!bytes_eq(b"same", b"sam"));
    assert!(bytes_eq(b"", b""));
    let mut keys: Vec<&[u8]> = vec![b"b", b"", b"ab", b"a", b"B", b"aa"];
    keys.sort();
    for w in keys.windows(2) {
        assert!(bytes_lt(w[0], w[1]));
        assert!(!bytes_lt(w[1], w[0]));
    }
}
