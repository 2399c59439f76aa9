use respkv::decimal::{parse_i64, parse_u64, push_numeral};

fn numeral(n: usize) -> Vec<u8> {
    let mut out = Vec::new();
    push_numeral(&mut out, n);
    out
}

#[test]
fn unsigned_reads_plain_digits() {
    assert_eq!(parse_u64(b"0"), Some(0));
    assert_eq!(parse_u64(b"7"), Some(7));
    assert_eq!(parse_u64(b"100"), Some(100));
    assert_eq!(parse_u64(b"007"), Some(7));
}

#[test]
fn unsigned_accepts_a_plus_sign() {
    assert_eq!(parse_u64(b"+42"), Some(42));
}

#[test]
fn unsigned_rejects_malformed_text() {
    assert_eq!(parse_u64(b""), None);
    assert_eq!(parse_u64(b"+"), None);
    assert_eq!(parse_u64(b"-1"), None);
    assert_eq!(parse_u64(b"-0"), None);
    assert_eq!(parse_u64(b"12a"), None);
    assert_eq!(parse_u64(b" 12"), None);
    assert_eq!(parse_u64(b"12 "), None);
    assert_eq!(parse_u64(b"++1"), None);
    assert_eq!(parse_u64(b"1.5"), None);
}

#[test]
fn unsigned_range_ends_at_the_largest_u64() {
    assert_eq!(parse_u64(b"18446744073709551615"), Some(u64::MAX));
    assert_eq!(parse_u64(b"18446744073709551616"), None);
    assert_eq!(parse_u64(b"99999999999999999999999999"), None);
    assert_eq!(parse_u64(b"000000000000000000000000018446744073709551615"), Some(u64::MAX));
}

#[test]
fn signed_reads_both_signs() {
    assert_eq!(parse_i64(b"0"), Some(0));
    assert_eq!(parse_i64(b"-0"), Some(0));
    assert_eq!(parse_i64(b"-1"), Some(-1));
    assert_eq!(parse_i64(b"+15"), Some(15));
    assert_eq!(parse_i64(b"15"), Some(15));
    assert_eq!(parse_i64(b"-250"), Some(-250));
}

#[test]
fn signed_rejects_malformed_text() {
    assert_eq!(parse_i64(b""), None);
    assert_eq!(parse_i64(b"-"), None);
    assert_eq!(parse_i64(b"+"), None);
    assert_eq!(parse_i64(b"--1"), None);
    assert_eq!(parse_i64(b"-+1"), None);
    assert_eq!(parse_i64(b"1-"), None);
    assert_eq!(parse_i64(b"abc"), None);
}

#[test]
fn signed_range_is_that_of_i64() {
    assert_eq!(parse_i64(b"9223372036854775807"), Some(i64::MAX));
    assert_eq!(parse_i64(b"9223372036854775808"), None);
    assert_eq!(parse_i64(b"-9223372036854775808"), Some(i64::MIN));
    assert_eq!(parse_i64(b"-9223372036854775809"), None);
    assert_eq!(parse_i64(b"-18446744073709551616"), None);
}

#[test]
fn numerals_are_shortest_decimal() {
    assert_eq!(numeral(0), b"0".to_vec());
    assert_eq!(numeral(9), b"9".to_vec());
    assert_eq!(numeral(10), b"10".to_vec());
    assert_eq!(numeral(1234567890), b"1234567890".to_vec());
    assert_eq!(numeral(usize::MAX), format!("{}", usize::MAX).into_bytes());
}

#[test]
fn numeral_is_appended_after_what_is_there() {
    let mut out = b"$".to_vec();
    push_numeral(&mut out, 305);
    assert_eq!(out, b"$305".to_vec());
}

#[test]
fn numerals_read_back_as_their_number() {
    for n in [0usize, 1, 9, 10, 99, 100, 65535, 4294967295] {
        assert_eq!(parse_u64(&numeral(n)), Some(n as u64));
        assert_eq!(parse_i64(&numeral(n)), Some(n as i64));
    }
}
