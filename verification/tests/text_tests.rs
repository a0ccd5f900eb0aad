use pipeline::text::{numeric_to_string, parse_numeric};
use pipeline::types::{Numeric, NUMERIC_SCALE};

const ONE: Numeric = NUMERIC_SCALE;

#[test]
fn numbers_are_read_from_decimal_text() {
    assert_eq!(parse_numeric("0"), Some(0));
    assert_eq!(parse_numeric("3"), Some(3 * ONE));
    assert_eq!(parse_numeric("+3.5"), Some(350_000_000));
    assert_eq!(parse_numeric("-2.25"), Some(-225_000_000));
    assert_eq!(parse_numeric("0.00000001"), Some(1));
    assert_eq!(parse_numeric("007.10"), Some(710_000_000));
    assert_eq!(parse_numeric("12345.6789012"), Some(1_234_567_890_120));
}

#[test]
fn digits_before_or_behind_the_point_may_be_left_out() {
    assert_eq!(parse_numeric(".5"), Some(ONE / 2));
    assert_eq!(parse_numeric("5."), Some(5 * ONE));
    assert_eq!(parse_numeric("-.25"), Some(-ONE / 4));
    assert_eq!(parse_numeric("+7."), Some(7 * ONE));
}

#[test]
fn an_exponent_moves_the_point() {
    assert_eq!(parse_numeric("1e-3"), Some(100_000));
    assert_eq!(parse_numeric("1e3"), Some(1000 * ONE));
    assert_eq!(parse_numeric("2.5E2"), Some(250 * ONE));
    assert_eq!(parse_numeric("-1.5e+1"), Some(-15 * ONE));
    assert_eq!(parse_numeric("125e-2"), Some(125_000_000));
    assert_eq!(parse_numeric(".5e1"), Some(5 * ONE));
    assert_eq!(parse_numeric("5.e-1"), Some(ONE / 2));
    assert_eq!(parse_numeric("12.345e0"), Some(1_234_500_000));
    assert_eq!(parse_numeric("1e-8"), Some(1));
    assert_eq!(parse_numeric("19e-9"), Some(1));
    assert_eq!(parse_numeric("1e-9"), Some(0));
    assert_eq!(parse_numeric("1e-99"), Some(0));
    assert_eq!(parse_numeric("0.000001e6"), Some(ONE));
}

#[test]
fn an_exponent_of_any_size_is_read() {
    assert_eq!(parse_numeric("0e999999999999999999999999999999999999999"), Some(0));
    assert_eq!(parse_numeric("0.0e-999999999999999999999999999999999999999"), Some(0));
    assert_eq!(parse_numeric("7e-999999999999999999999999999999999999999"), Some(0));
    assert_eq!(parse_numeric("1e999999999999999999999999999999999999999"), None);
    assert_eq!(parse_numeric("1e99"), None);
    assert_eq!(parse_numeric("1e11"), None);
    assert_eq!(parse_numeric("9e10"), Some(90_000_000_000 * ONE));
    assert_eq!(parse_numeric("-9223372036854775808e-8"), Some(i64::MIN));
    assert_eq!(parse_numeric("9223372036854775808e-8"), None);
    assert_eq!(parse_numeric("0.0000000000000000000000000000001e31"), Some(ONE));
}

#[test]
fn an_exponent_without_digits_writes_no_number() {
    for text in ["1e", "e5", "1e+", "1e-", "1E", "e", "1e2e3", "1e2.5", "1e 2", "1ee2", ".e2", "-e2", "1e--2"] {
        assert_eq!(parse_numeric(text), None, "{:?}", text);
    }
}

#[test]
fn digits_behind_the_eighth_are_dropped() {
    assert_eq!(parse_numeric("0.123456789"), Some(12_345_678));
    assert_eq!(parse_numeric("-0.000000019"), Some(-1));
    assert_eq!(parse_numeric("1.0000000000000000000000000000"), Some(ONE));
}

#[test]
fn text_of_another_form_writes_no_number() {
    for text in ["", "+", "-", ".", "+.", "1,5", " 1", "1 ", "--1", "1.2.3", "abc", "1.-2", "٣"] {
        assert_eq!(parse_numeric(text), None, "{:?}", text);
    }
}

#[test]
fn numbers_too_large_are_not_read() {
    assert_eq!(parse_numeric("92233720368.54775807"), Some(i64::MAX));
    assert_eq!(parse_numeric("92233720368.54775808"), None);
    assert_eq!(parse_numeric("-92233720368.54775808"), Some(i64::MIN));
    assert_eq!(parse_numeric("-92233720368.54775809"), None);
    assert_eq!(parse_numeric("100000000000"), None);
    assert_eq!(parse_numeric("99999999999999999999999999999999999999999999"), None);
}

#[test]
fn written_numbers_are_read_back() {
    for value in [0, 1, -1, ONE, -ONE, 123_456_789, 5 * ONE / 2, i64::MAX, i64::MIN, 10, 100_000] {
        assert_eq!(parse_numeric(&numeric_to_string(value)), Some(value));
    }
}
