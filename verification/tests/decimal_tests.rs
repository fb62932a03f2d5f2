use currency_converter::decimal::{convert_amount, format_2dp, parse_decimal, Decimal};

fn dec(neg: bool, mant: u128, exp: i32) -> Decimal {
    Decimal { neg, mant, exp }
}

#[test]
fn parse_plain_integers() {
    assert_eq!(parse_decimal("0"), Some(dec(false, 0, 0)));
    assert_eq!(parse_decimal("7"), Some(dec(false, 7, 0)));
    assert_eq!(parse_decimal("10"), Some(dec(false, 1, 1)));
    assert_eq!(parse_decimal("-3"), Some(dec(true, 3, 0)));
    assert_eq!(parse_decimal("-0"), Some(dec(true, 0, 0)));
}

#[test]
fn parse_fractions() {
    assert_eq!(parse_decimal("0.92"), Some(dec(false, 92, -2)));
    assert_eq!(parse_decimal("10.50"), Some(dec(false, 105, -1)));
    assert_eq!(parse_decimal("0.005"), Some(dec(false, 5, -3)));
    assert_eq!(parse_decimal("-2.5"), Some(dec(true, 25, -1)));
}

#[test]
fn parse_exponents() {
    assert_eq!(parse_decimal("1e3"), Some(dec(false, 1, 3)));
    assert_eq!(parse_decimal("1.5e-2"), Some(dec(false, 15, -3)));
    assert_eq!(parse_decimal("2E+4"), Some(dec(false, 2, 4)));
    assert_eq!(parse_decimal("0e99999999"), Some(dec(false, 0, 0)));
}

#[test]
fn parse_normalizes_trailing_zeros() {
    // One with fifty zeros still fits: the zeros move into the exponent.
    let fifty = format!("1{}", "0".repeat(50));
    assert_eq!(parse_decimal(&fifty), Some(dec(false, 1, 50)));
    assert_eq!(parse_decimal("1.000"), Some(dec(false, 1, 0)));
}

#[test]
fn parse_rejects_bad_numerals() {
    assert_eq!(parse_decimal(""), None);
    assert_eq!(parse_decimal("-"), None);
    assert_eq!(parse_decimal("01"), None);
    assert_eq!(parse_decimal("1."), None);
    assert_eq!(parse_decimal(".5"), None);
    assert_eq!(parse_decimal("1e"), None);
    assert_eq!(parse_decimal("1e+"), None);
    assert_eq!(parse_decimal("+1"), None);
    assert_eq!(parse_decimal("abc"), None);
    assert_eq!(parse_decimal("10abc"), None);
    assert_eq!(parse_decimal("NaN"), None);
    assert_eq!(parse_decimal("inf"), None);
}

#[test]
fn parse_rejects_what_does_not_fit() {
    // Thirty-nine significant nines exceed the mantissa range.
    let nines = "9".repeat(39);
    assert_eq!(parse_decimal(&nines), None);
    // Thirty-eight still fit.
    let fits = "9".repeat(38);
    assert!(parse_decimal(&fits).is_some());
    // An exponent beyond the accepted range is refused.
    assert_eq!(parse_decimal("1e100001"), None);
    assert_eq!(parse_decimal("1e-100001"), None);
}

#[test]
fn format_two_places_exact() {
    assert_eq!(format_2dp(&dec(false, 920, -2)), "9.20");
    assert_eq!(format_2dp(&dec(false, 92, -1)), "9.20");
    assert_eq!(format_2dp(&dec(false, 0, 0)), "0.00");
    assert_eq!(format_2dp(&dec(true, 0, 0)), "-0.00");
    assert_eq!(format_2dp(&dec(false, 1, 2)), "100.00");
    assert_eq!(format_2dp(&dec(false, 5, 0)), "5.00");
    assert_eq!(format_2dp(&dec(false, 5, -2)), "0.05");
    assert_eq!(format_2dp(&dec(true, 125, -1)), "-12.50");
}

#[test]
fn format_rounds_half_away_from_zero() {
    assert_eq!(format_2dp(&dec(false, 5, -3)), "0.01");
    assert_eq!(format_2dp(&dec(false, 15, -3)), "0.02");
    assert_eq!(format_2dp(&dec(false, 125, -4)), "0.01");
    assert_eq!(format_2dp(&dec(false, 123, -5)), "0.00");
    assert_eq!(format_2dp(&dec(false, 999, -3)), "1.00");
    assert_eq!(format_2dp(&dec(true, 5, -3)), "-0.01");
}

#[test]
fn convert_multiplies_exactly() {
    // 10 * 0.92 == 9.2
    let amount = dec(false, 1, 1);
    let rate = dec(false, 92, -2);
    let product = convert_amount(&amount, &rate).unwrap();
    assert_eq!(product, dec(false, 92, -1));
    assert_eq!(format_2dp(&product), "9.20");
    // 2.5 * -4 == -10
    let p2 = convert_amount(&dec(false, 25, -1), &dec(true, 4, 0)).unwrap();
    assert_eq!(p2, dec(true, 100, -1));
    assert_eq!(format_2dp(&p2), "-10.00");
    // 0 * anything == 0.00
    let p3 = convert_amount(&dec(false, 0, 0), &dec(false, 12345, -4)).unwrap();
    assert_eq!(format_2dp(&p3), "0.00");
}

#[test]
fn convert_reports_unrepresentable_products() {
    let huge = dec(false, u128::MAX, 0);
    let two = dec(false, 2, 0);
    assert_eq!(convert_amount(&huge, &two), None);
    assert!(convert_amount(&huge, &dec(false, 1, 0)).is_some());
}
