use currency_converter::convert::{convert_with_doc, validate_convert_args, ConvertRequest};
use currency_converter::decimal::{parse_decimal, Decimal};
use currency_converter::errors::CurError;
use currency_converter::json::Json;

fn rate_doc() -> Json {
    Json::Obj(vec![(
        "usd".to_string(),
        Json::Obj(vec![
            ("eur".to_string(), Json::Num("0.92".to_string())),
            ("gbp".to_string(), Json::Str("oops".to_string())),
        ]),
    )])
}

fn request(amount: &str, from: &str, to: &str) -> ConvertRequest {
    validate_convert_args(
        Some(parse_decimal(amount).unwrap()),
        Some(from.to_string()),
        Some(to.to_string()),
    )
    .unwrap()
}

#[test]
fn missing_value_is_validation_error() {
    let r = validate_convert_args(None, Some("usd".to_string()), Some("eur".to_string()));
    assert_eq!(r.unwrap_err(), CurError::MissingValue);
}

#[test]
fn missing_from_is_validation_error() {
    let v = parse_decimal("10").unwrap();
    let r = validate_convert_args(Some(v), None, Some("eur".to_string()));
    let e = r.unwrap_err();
    assert_eq!(e, CurError::MissingFrom);
    assert_eq!(e.message(), "--from is required for conversion");
}

#[test]
fn missing_to_is_validation_error() {
    let v = parse_decimal("10").unwrap();
    let r = validate_convert_args(Some(v), Some("usd".to_string()), None);
    let e = r.unwrap_err();
    assert_eq!(e, CurError::MissingTo);
    assert_eq!(e.message(), "--to is required for conversion");
}

#[test]
fn negative_amount_is_rejected_before_any_lookup() {
    // Validation alone rejects the amount: no document is ever consulted.
    let v = parse_decimal("-1").unwrap();
    let r = validate_convert_args(Some(v), Some("usd".to_string()), Some("eur".to_string()));
    let e = r.unwrap_err();
    assert_eq!(e, CurError::NegativeValue);
    assert_eq!(e.message(), "Value must be a positive number.");
    // Even with the other fields broken, the failure stays a validation error.
    let v2 = parse_decimal("-1").unwrap();
    let r2 = validate_convert_args(Some(v2), None, Some("eur".to_string()));
    assert!(matches!(r2.unwrap_err(), CurError::MissingFrom));
}

#[test]
fn negative_zero_counts_as_zero() {
    let v = parse_decimal("-0").unwrap();
    let r = validate_convert_args(Some(v), Some("usd".to_string()), Some("eur".to_string()));
    assert!(r.is_ok());
}

#[test]
fn codes_are_case_insensitive() {
    let doc = rate_doc();
    let r1 = convert_with_doc(&request("10", "USD", "eur"), &doc, false).unwrap();
    let r2 = convert_with_doc(&request("10", "usd", "EUR"), &doc, false).unwrap();
    assert_eq!(r1, r2);
    assert_eq!(r1, "10.00 USD: 9.20 EUR");
}

#[test]
fn short_output_prints_only_the_value() {
    let doc = rate_doc();
    let out = convert_with_doc(&request("10", "usd", "eur"), &doc, true).unwrap();
    assert_eq!(out, "9.20");
}

#[test]
fn zero_amount_converts_to_zero() {
    let doc = rate_doc();
    let out = convert_with_doc(&request("0", "usd", "eur"), &doc, true).unwrap();
    assert_eq!(out, "0.00");
}

#[test]
fn missing_source_currency_is_an_api_error() {
    let doc = rate_doc();
    let e = convert_with_doc(&request("10", "abc", "eur"), &doc, false).unwrap_err();
    assert_eq!(e, CurError::ApiSource("abc".to_string()));
    assert_eq!(e.message(), "API error with base currency: abc");
}

#[test]
fn missing_destination_currency_is_an_api_error() {
    let doc = rate_doc();
    let e = convert_with_doc(&request("10", "usd", "xyz"), &doc, false).unwrap_err();
    assert_eq!(e, CurError::ApiDest("xyz".to_string()));
    assert_eq!(e.message(), "API error with convert to currency: xyz");
}

#[test]
fn non_numeric_rate_is_a_data_format_error() {
    let doc = rate_doc();
    let e = convert_with_doc(&request("10", "usd", "gbp"), &doc, false).unwrap_err();
    assert_eq!(e, CurError::NotANumber);
    assert_eq!(
        e.message(),
        "Error while formating data from API: price is not a number?"
    );
}

#[test]
fn lookup_on_a_non_object_document_misses_the_source() {
    let doc = Json::Arr(vec![Json::Null]);
    let e = convert_with_doc(&request("10", "usd", "eur"), &doc, false).unwrap_err();
    assert!(matches!(e, CurError::ApiSource(_)));
}

#[test]
fn unrepresentable_product_is_reported() {
    let doc = Json::Obj(vec![(
        "usd".to_string(),
        Json::Obj(vec![("eur".to_string(), Json::Num("2".to_string()))]),
    )]);
    let req = ConvertRequest {
        amount: Decimal { neg: false, mant: u128::MAX, exp: 0 },
        from: "usd".to_string(),
        to: "eur".to_string(),
    };
    let e = convert_with_doc(&req, &doc, true).unwrap_err();
    assert_eq!(e, CurError::TooLarge);
}

#[test]
fn display_rounds_only_at_the_end() {
    // 3 * 0.333 is exactly 0.999; only the displayed value rounds.
    let doc = Json::Obj(vec![(
        "usd".to_string(),
        Json::Obj(vec![("eur".to_string(), Json::Num("0.333".to_string()))]),
    )]);
    let out = convert_with_doc(&request("3", "usd", "eur"), &doc, true).unwrap();
    assert_eq!(out, "1.00");
}

#[test]
fn network_error_messages_match_the_modes() {
    assert_eq!(
        CurError::NetworkConvert.message(),
        "Failed to connect with API server. Check your internet connection."
    );
    assert_eq!(
        CurError::NetworkList.message(),
        "Failed to get currencies. Check your internet connection."
    );
    assert_eq!(
        CurError::MissingValue.message(),
        "Value is required for conversion"
    );
}
