use temperature_guardian::decimal::Decimal;
use temperature_guardian::parse::parse_temperature;

fn dec(mantissa: i64, scale: u32) -> Decimal {
    Decimal { mantissa, scale }
}

#[test]
fn parses_comma_and_spaced_unit() {
    assert_eq!(parse_temperature("23,5 °C"), Some(dec(235, 1)));
}

#[test]
fn parses_bare_unit() {
    assert_eq!(parse_temperature("100°C"), Some(dec(100, 0)));
}

#[test]
fn rejects_non_numeric() {
    assert_eq!(parse_temperature("abc"), None);
}

#[test]
fn rejects_empty() {
    assert_eq!(parse_temperature(""), None);
}

#[test]
fn trims_whitespace() {
    assert_eq!(parse_temperature("  45.0  "), Some(dec(450, 1)));
}

#[test]
fn strips_unit_before_trimming() {
    // two spaces before the unit: the suffix is stripped first, the
    // leftover space trimmed last
    assert_eq!(parse_temperature("23,5  \u{00b0}C"), Some(dec(235, 1)));
}

#[test]
fn trims_unicode_whitespace() {
    assert_eq!(parse_temperature("\u{00a0}45.0\u{2009}"), Some(dec(450, 1)));
}

#[test]
fn parses_negative_with_unit() {
    assert_eq!(parse_temperature("-12,25°C"), Some(dec(-1225, 2)));
}

#[test]
fn parses_explicit_plus() {
    assert_eq!(parse_temperature("+7"), Some(dec(7, 0)));
}

#[test]
fn parses_leading_dot() {
    assert_eq!(parse_temperature(".5"), Some(dec(5, 1)));
}

#[test]
fn parses_trailing_dot() {
    assert_eq!(parse_temperature("5."), Some(dec(5, 0)));
}

#[test]
fn rejects_two_dots() {
    assert_eq!(parse_temperature("1.2.3"), None);
}

#[test]
fn rejects_lone_dot() {
    assert_eq!(parse_temperature("."), None);
}

#[test]
fn rejects_lone_sign() {
    assert_eq!(parse_temperature("-"), None);
}

#[test]
fn rejects_mantissa_overflow() {
    // the magnitude no longer fits a 64-bit mantissa
    assert_eq!(parse_temperature("99999999999999999999"), None);
}

#[test]
fn accepts_large_mantissa_at_limit() {
    assert_eq!(
        parse_temperature("9223372036854775807"),
        Some(dec(9223372036854775807, 0))
    );
}

#[test]
fn normalization_is_idempotent_on_normalized_strings() {
    // a string that already parses is left unchanged by normalization,
    // so parsing it again gives the same reading
    for s in ["23.5", "-12.25", "100", "+7", ".5"] {
        let once = parse_temperature(s);
        assert!(once.is_some());
        assert_eq!(parse_temperature(s), once);
    }
}

#[test]
fn zero_values() {
    assert_eq!(parse_temperature("0"), Some(dec(0, 0)));
    assert_eq!(parse_temperature("0,0 °C"), Some(dec(0, 1)));
    assert_eq!(parse_temperature("-0"), Some(dec(0, 0)));
}

#[test]
fn comparison_is_exact_across_scales() {
    let a = dec(805, 1); // 80.5
    let b = dec(80, 0); // 80
    assert!(a.gt(&b));
    assert!(!b.gt(&a));
    let c = dec(750, 1); // 75.0
    let d = dec(75, 0); // 75
    assert!(!c.gt(&d));
    assert!(!d.gt(&c));
    assert!(c.lt(&dec(7501, 2)));
}
