use fvcs::text::{contains_char, decimal_string, is_whitespace, starts_with, str_eq, str_lt, trim_str};

#[test]
fn trimming_matches_str_trim() {
    for s in ["  a b \n", "\u{3000}x\u{a0}", "", "   ", "a"] {
        assert_eq!(trim_str(s), s.trim());
    }
    assert!(is_whitespace('\u{2028}'));
    assert!(!is_whitespace('x'));
}

#[test]
fn comparisons() {
    assert!(str_eq("abc", "abc"));
    assert!(!str_eq("abc", "abd"));
    assert!(starts_with("refs/heads/main", "refs/heads/"));
    assert!(!starts_with("ref", "refs"));
    assert!(str_lt("a", "b"));
    assert!(str_lt("a", "ab"));
    assert!(!str_lt("b", "a"));
    assert!(!str_lt("a", "a"));
    assert!(str_lt("Z", "a"));
    assert!(contains_char("a/b", '/'));
    assert!(!contains_char("ab", '/'));
}

#[test]
fn decimal_text() {
    assert_eq!(decimal_string(0), "0");
    assert_eq!(decimal_string(1600), "1600");
    assert_eq!(decimal_string(u64::MAX), u64::MAX.to_string());
}
