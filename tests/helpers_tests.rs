use pybolt::arith::{compute, operator_of};
use pybolt::decimal::{push_decimal, push_signed_decimal};
use pybolt::lexer::{chars_of, parse_literal};

#[test]
fn literal_text_to_value() {
    assert_eq!(parse_literal("42"), Some(42));
    assert_eq!(parse_literal("007"), Some(7));
    assert_eq!(parse_literal("2147483647"), Some(i32::MAX));
    assert_eq!(parse_literal("2147483648"), None);
    assert_eq!(parse_literal("12a"), None);
    assert_eq!(parse_literal(""), None);
}

#[test]
fn characters_in_order() {
    assert_eq!(chars_of("a=é;"), vec!['a', '=', 'é', ';']);
    assert!(chars_of("").is_empty());
}

#[test]
fn operator_text() {
    assert_eq!(operator_of("+"), Some('+'));
    assert_eq!(operator_of("/"), Some('/'));
    assert_eq!(operator_of("%"), None);
    assert_eq!(operator_of("++"), None);
}

#[test]
fn checked_arithmetic() {
    assert_eq!(compute('+', 2, 3), Some(5));
    assert_eq!(compute('-', 2, 3), Some(-1));
    assert_eq!(compute('*', -4, 3), Some(-12));
    assert_eq!(compute('/', -7, 2), Some(-3));
    assert_eq!(compute('/', 7, -2), Some(-3));
    assert_eq!(compute('/', i32::MIN, -1), None);
    assert_eq!(compute('*', 65536, 65536), None);
    assert_eq!(compute('-', i32::MIN, 1), None);
}

#[test]
fn decimal_text() {
    let mut s = "t".to_string();
    push_decimal(&mut s, 0);
    assert_eq!(s, "t0");
    let mut s = String::new();
    push_decimal(&mut s, 1234567890);
    assert_eq!(s, "1234567890");
    let mut s = "v = ".to_string();
    push_signed_decimal(&mut s, i32::MIN);
    assert_eq!(s, "v = -2147483648");
    let mut s = String::new();
    push_signed_decimal(&mut s, 305);
    assert_eq!(s, "305");
}
