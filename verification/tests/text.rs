use warehouse_lab::text::{append_decimal, char_vec, is_blank, parse_decimal, parse_signed, trim_chars};

fn decimal(text: &str) -> Option<u64> {
    parse_decimal(&char_vec(text))
}

fn signed(text: &str) -> Option<i64> {
    parse_signed(&char_vec(text))
}

#[test]
fn decimal_numbers_are_read() {
    assert_eq!(decimal("0"), Some(0));
    assert_eq!(decimal("+17"), Some(17));
    assert_eq!(decimal("0017"), Some(17));
    assert_eq!(decimal("18446744073709551615"), Some(u64::MAX));
    assert_eq!(decimal("18446744073709551616"), None);
    assert_eq!(decimal(""), None);
    assert_eq!(decimal("+"), None);
    assert_eq!(decimal("-1"), None);
    assert_eq!(decimal(" 1"), None);
}

#[test]
fn signed_numbers_are_read() {
    assert_eq!(signed("-5"), Some(-5));
    assert_eq!(signed("+5"), Some(5));
    assert_eq!(signed("-9223372036854775808"), Some(i64::MIN));
    assert_eq!(signed("-9223372036854775809"), None);
    assert_eq!(signed("9223372036854775807"), Some(i64::MAX));
    assert_eq!(signed("9223372036854775808"), None);
    assert_eq!(signed("-+5"), None);
    assert_eq!(signed("-"), None);
    assert_eq!(signed(""), None);
}

#[test]
fn written_numbers_read_back() {
    for number in [0, 9, 10, 1_000, u64::MAX] {
        let mut out = String::new();
        append_decimal(&mut out, number);
        assert_eq!(out, number.to_string());
        assert_eq!(decimal(&out), Some(number));
    }
}

#[test]
fn white_space_is_trimmed() {
    assert_eq!(trim_chars(&char_vec(" \t a b \n")), vec!['a', ' ', 'b']);
    assert!(is_blank(" \u{a0}\n"));
    assert!(is_blank(""));
    assert!(!is_blank(" x "));
}
