use crypto_tracker::price::{parse_price, Price};

fn price(units: i64, scale: u8) -> Price {
    Price::new(units, scale).unwrap()
}

#[test]
fn formats_with_two_places() {
    assert_eq!(price(12345, 1).format_price(2), "1234.50");
}

#[test]
fn formats_with_four_places() {
    assert_eq!(price(12345, 1).format_price(4), "1234.5000");
}

#[test]
fn formats_with_no_places() {
    assert_eq!(price(12345, 0).format_price(0), "12345");
    assert_eq!(price(12345, 1).format_price(0), "1234");
    assert_eq!(price(12355, 1).format_price(0), "1236");
}

#[test]
fn rounds_half_to_even() {
    assert_eq!(price(125, 3).format_price(2), "0.12");
    assert_eq!(price(135, 3).format_price(2), "0.14");
    assert_eq!(price(1251, 4).format_price(2), "0.13");
    assert_eq!(price(999, 3).format_price(2), "1.00");
}

#[test]
fn formats_negative_and_zero() {
    assert_eq!(price(-425, 1).format_price(2), "-42.50");
    assert_eq!(price(-1, 3).format_price(2), "-0.00");
    assert_eq!(Price::zero().format_price(2), "0.00");
    assert_eq!(Price::zero().format_price(6), "0.000000");
}

#[test]
fn formats_small_prices() {
    assert_eq!(price(123456, 9).format_price(6), "0.000123");
    assert_eq!(price(1, 7).format_price(8), "0.00000010");
}

#[test]
fn formats_largest_values() {
    assert_eq!(price(i64::MAX, 0).format_price(1), "9223372036854775807.0");
    assert_eq!(price(i64::MIN + 1, 18).format_price(18), "-9.223372036854775807");
}

#[test]
fn new_rejects_too_many_places() {
    assert_eq!(Price::new(1, 18), Some(Price { units: 1, scale: 18 }));
    assert_eq!(Price::new(1, 19), None);
}

#[test]
fn parses_decimal_text() {
    assert_eq!(parse_price("42.5"), Some(price(425, 1)));
    assert_eq!(parse_price("42"), Some(price(42, 0)));
    assert_eq!(parse_price("-0.001"), Some(price(-1, 3)));
    assert_eq!(parse_price("0.30000000000000004"), Some(price(30000000000000004, 17)));
    assert_eq!(parse_price("67234.12"), Some(price(6723412, 2)));
}

#[test]
fn rejects_text_that_is_not_a_price() {
    assert_eq!(parse_price(""), None);
    assert_eq!(parse_price("-"), None);
    assert_eq!(parse_price("NaN"), None);
    assert_eq!(parse_price("inf"), None);
    assert_eq!(parse_price("-inf"), None);
    assert_eq!(parse_price("4.2.1"), None);
    assert_eq!(parse_price("42."), None);
    assert_eq!(parse_price(".5"), None);
    assert_eq!(parse_price("1e5"), None);
    assert_eq!(parse_price("+3"), None);
}

#[test]
fn rejects_prices_that_do_not_fit() {
    assert_eq!(parse_price("9223372036854775807"), Some(price(i64::MAX, 0)));
    assert_eq!(parse_price("9223372036854775808"), None);
    assert_eq!(parse_price("100000000000000000000"), None);
    assert_eq!(parse_price("0.000000000000000001"), Some(price(1, 18)));
    assert_eq!(parse_price("0.0000000000000000001"), None);
}

#[test]
fn parse_then_format_round_trip() {
    let p = parse_price("1234.5").unwrap();
    assert_eq!(p.format_price(2), "1234.50");
    assert_eq!(p.format_price(4), "1234.5000");
}
