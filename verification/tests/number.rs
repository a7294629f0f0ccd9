use fvcs::fields::split_char;
use fvcs::number::{i64_string, parse_i64, parse_u32};

#[test]
fn parse_unsigned() {
    assert_eq!(parse_u32("0"), Some(0));
    assert_eq!(parse_u32("+12"), Some(12));
    assert_eq!(parse_u32("007"), Some(7));
    assert_eq!(parse_u32("4294967295"), Some(u32::MAX));
    assert_eq!(parse_u32("4294967296"), None);
    assert_eq!(parse_u32(""), None);
    assert_eq!(parse_u32("+"), None);
    assert_eq!(parse_u32("-0"), None);
    assert_eq!(parse_u32("1a"), None);
    assert_eq!(parse_u32(" 1"), None);
}

#[test]
fn parse_signed() {
    assert_eq!(parse_i64("-5"), Some(-5));
    assert_eq!(parse_i64("+5"), Some(5));
    assert_eq!(parse_i64("9223372036854775807"), Some(i64::MAX));
    assert_eq!(parse_i64("-9223372036854775808"), Some(i64::MIN));
    assert_eq!(parse_i64("9223372036854775808"), None);
    assert_eq!(parse_i64("-9223372036854775809"), None);
    assert_eq!(parse_i64("-"), None);
    assert_eq!(parse_i64("--1"), None);
}

#[test]
fn format_and_read_back() {
    for n in [0i64, 7, -7, 1600, i64::MAX, i64::MIN] {
        assert_eq!(i64_string(n), n.to_string());
        assert_eq!(parse_i64(&i64_string(n)), Some(n));
    }
}

#[test]
fn split_pieces() {
    assert_eq!(split_char("a.b.c", '.'), vec!["a", "b", "c"]);
    assert_eq!(split_char("", '.'), vec![""]);
    assert_eq!(split_char(".a.", '.'), vec!["", "a", ""]);
    assert_eq!(split_char("abc", ','), vec!["abc"]);
}
