use currency_converter::errors::CurError;
use currency_converter::json::Json;
use currency_converter::list::render_catalog;

#[test]
fn catalog_with_two_entries_renders_in_order() {
    let doc = Json::Obj(vec![
        ("usd".to_string(), Json::Str("US Dollar".to_string())),
        ("eur".to_string(), Json::Str("Euro".to_string())),
    ]);
    let lines = render_catalog(&doc).unwrap();
    assert_eq!(
        lines,
        vec![
            "".to_string(),
            "Available currencies:".to_string(),
            "CODE : NAME".to_string(),
            "-".repeat(36),
            "USD : US Dollar".to_string(),
            "EUR : Euro".to_string(),
        ]
    );
}

#[test]
fn empty_catalog_renders_header_and_separator_only() {
    let doc = Json::Obj(vec![]);
    let lines = render_catalog(&doc).unwrap();
    assert_eq!(
        lines,
        vec![
            "".to_string(),
            "Available currencies:".to_string(),
            "CODE : NAME".to_string(),
            "-".repeat(36),
        ]
    );
}

#[test]
fn column_width_follows_the_longest_code() {
    let doc = Json::Obj(vec![
        ("usd".to_string(), Json::Str("US Dollar".to_string())),
        ("wamu".to_string(), Json::Str("Imaginary".to_string())),
    ]);
    let lines = render_catalog(&doc).unwrap();
    assert_eq!(lines[2], "CODE : NAME");
    assert_eq!(lines[3], "-".repeat(37));
    assert_eq!(lines[4], "USD  : US Dollar");
    assert_eq!(lines[5], "WAMU : Imaginary");
}

#[test]
fn non_string_entries_are_skipped_but_count_for_width() {
    let doc = Json::Obj(vec![
        ("count".to_string(), Json::Num("5".to_string())),
        ("eur".to_string(), Json::Str("Euro".to_string())),
        ("flag".to_string(), Json::Bool(true)),
        ("gap".to_string(), Json::Null),
    ]);
    let lines = render_catalog(&doc).unwrap();
    assert_eq!(lines.len(), 5);
    assert_eq!(lines[3], "-".repeat(38));
    assert_eq!(lines[4], "EUR   : Euro");
}

#[test]
fn non_object_catalog_is_unexpected_data() {
    let e = render_catalog(&Json::Arr(vec![])).unwrap_err();
    assert_eq!(e, CurError::UnexpectedFormat);
    assert_eq!(e.message(), "Unexpected data format from API.");
    let e2 = render_catalog(&Json::Str("nope".to_string())).unwrap_err();
    assert_eq!(e2, CurError::UnexpectedFormat);
}
