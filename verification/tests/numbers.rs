//! Numbers and texts.

use pluvio::text::{contains_text, parse_unsigned, push_decimal, push_decimal_i32};

#[test]
fn decimals_read_back() {
    for n in [0u64, 7, 10, 99, 100, 65535, u64::MAX] {
        let mut s = String::from("#");
        push_decimal(&mut s, n);
        assert_eq!(s, format!("#{}", n));
        assert_eq!(parse_unsigned(&s[1..], u64::MAX), Some(n));
    }
    let mut s = String::new();
    push_decimal_i32(&mut s, -40);
    push_decimal_i32(&mut s, 3);
    assert_eq!(s, "-403");
}

#[test]
fn numbers_must_be_digits_and_fit() {
    assert_eq!(parse_unsigned("+12", 100), Some(12));
    assert_eq!(parse_unsigned("0000000000000000000000012", 100), Some(12));
    assert_eq!(parse_unsigned("100", 100), Some(100));
    assert_eq!(parse_unsigned("101", 100), None);
    assert_eq!(parse_unsigned("18446744073709551616", u64::MAX), None);
    for bad in ["", "+", "++1", "-0", "1 ", "1_000", "\u{0661}"] {
        assert_eq!(parse_unsigned(bad, u64::MAX), None);
    }
}

#[test]
fn texts_are_searched_by_character() {
    assert!(contains_text("read_file", "d_f"));
    assert!(contains_text("abc", "abc"));
    assert!(contains_text("abc", ""));
    assert!(contains_text("", ""));
    assert!(!contains_text("", "a"));
    assert!(!contains_text("aab", "abb"));
    assert!(contains_text("aaab", "aab"));
    assert!(contains_text("gr\u{fc}n", "\u{fc}"));
}
