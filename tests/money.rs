use free_shipping_over_50::decimal::{format_minor_units, parse_decimal_string, parse_minor_units};

#[test]
fn parses_two_fraction_digits_exactly() {
    assert_eq!(parse_decimal_string("52.34"), Some(5234));
    assert_eq!(parse_decimal_string("0.29"), Some(29));
    assert_eq!(parse_decimal_string("50.00"), Some(5000));
    assert_eq!(parse_decimal_string("49.99"), Some(4999));
    assert_eq!(parse_decimal_string("1.10"), Some(110));
}

#[test]
fn parses_one_fraction_digit_as_tens() {
    assert_eq!(parse_decimal_string("12.5"), Some(1250));
    assert_eq!(parse_decimal_string("0.5"), Some(50));
    assert_eq!(parse_decimal_string(".5"), Some(50));
}

#[test]
fn parses_whole_amounts() {
    assert_eq!(parse_decimal_string("12"), Some(1200));
    assert_eq!(parse_decimal_string("0"), Some(0));
    assert_eq!(parse_decimal_string("7."), Some(700));
}

#[test]
fn parses_negative_amounts() {
    assert_eq!(parse_decimal_string("-12.34"), Some(-1234));
    assert_eq!(parse_decimal_string("-0.5"), Some(-50));
}

#[test]
fn truncates_extra_fraction_digits() {
    assert_eq!(parse_decimal_string("1.999"), Some(199));
    assert_eq!(parse_decimal_string("0.0099"), Some(0));
}

#[test]
fn ignores_stray_symbols() {
    assert_eq!(parse_decimal_string("$1,000.00"), Some(100000));
    assert_eq!(parse_decimal_string(" 52.34 "), Some(5234));
}

#[test]
fn rejects_malformed_text() {
    assert_eq!(parse_decimal_string("abc"), None);
    assert_eq!(parse_decimal_string(""), None);
    assert_eq!(parse_decimal_string("-"), None);
    assert_eq!(parse_decimal_string("."), None);
    assert_eq!(parse_decimal_string("abc.50"), None);
}

#[test]
fn parses_up_to_the_i64_range() {
    assert_eq!(parse_decimal_string("92233720368547758.07"), Some(i64::MAX));
    assert_eq!(parse_decimal_string("92233720368547758.08"), None);
    assert_eq!(parse_decimal_string("-92233720368547758.08"), Some(i64::MIN));
    assert_eq!(parse_decimal_string("-92233720368547758.09"), None);
    assert_eq!(parse_decimal_string("100000000000000000000"), None);
}

#[test]
fn parses_minor_unit_integers() {
    assert_eq!(parse_minor_units("5234"), Some(5234));
    assert_eq!(parse_minor_units("-1"), Some(-1));
    assert_eq!(parse_minor_units("007"), Some(7));
    assert_eq!(parse_minor_units("12.5"), None);
    assert_eq!(parse_minor_units(""), None);
    assert_eq!(parse_minor_units("-"), None);
    assert_eq!(parse_minor_units("-9223372036854775808"), Some(i64::MIN));
    assert_eq!(parse_minor_units("9223372036854775807"), Some(i64::MAX));
    assert_eq!(parse_minor_units("9223372036854775808"), None);
    assert_eq!(parse_minor_units("99999999999999999999"), None);
}

#[test]
fn formats_canonical_text() {
    assert_eq!(format_minor_units(-1234), "-12.34");
    assert_eq!(format_minor_units(5), "0.05");
    assert_eq!(format_minor_units(5000), "50.00");
    assert_eq!(format_minor_units(0), "0.00");
    assert_eq!(format_minor_units(-50), "-0.50");
    assert_eq!(format_minor_units(i64::MAX), "92233720368547758.07");
    assert_eq!(format_minor_units(i64::MIN), "-92233720368547758.08");
}

#[test]
fn format_then_parse_gives_the_same_amount() {
    for v in [0i64, 1, 9, 10, 99, 100, 5234, -1234, -5, 4999, 5000, i64::MAX, i64::MIN] {
        assert_eq!(parse_decimal_string(&format_minor_units(v)), Some(v));
    }
}
