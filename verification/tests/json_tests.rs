use bund_blobstore::json::{extract_field_value, json_to_text, should_include_field, split_on_char, JsonFingerprintConfig, JsonValue};

fn s(x: &str) -> String {
    x.to_string()
}

fn sample() -> JsonValue {
    JsonValue::Object(vec![
        (s("a"), JsonValue::Str(s("  Hello World "))),
        (s("b"), JsonValue::Number(s("1"))),
        (s("c"), JsonValue::Array(vec![JsonValue::Null, JsonValue::Bool(true), JsonValue::Bool(false)])),
    ])
}

#[test]
fn text_default() {
    let c = JsonFingerprintConfig::default();
    assert_eq!(json_to_text(&c, &sample(), 0), "{a: hello world, b: 1, c: [null, true, false]}");
}

#[test]
fn text_without_names_or_normalizing() {
    let mut c = JsonFingerprintConfig::default();
    c.include_field_names = false;
    c.normalize_values = false;
    assert_eq!(json_to_text(&c, &sample(), 0), "{  Hello World , 1, [null, true, false]}");
}

#[test]
fn text_field_filters() {
    let mut c = JsonFingerprintConfig::default();
    c.exclude_fields = Some(vec![s("c")]);
    assert_eq!(json_to_text(&c, &sample(), 0), "{a: hello world, b: 1}");
    c.include_fields = Some(vec![s("b"), s("c")]);
    assert_eq!(json_to_text(&c, &sample(), 0), "{b: 1}");
    assert!(!should_include_field(&c, &s("a")));
    assert!(should_include_field(&c, &s("b")));
    assert!(!should_include_field(&c, &s("c")));
}

#[test]
fn text_depth_limit() {
    let mut c = JsonFingerprintConfig::default();
    c.max_depth = 0;
    assert_eq!(json_to_text(&c, &sample(), 0), "{a: [MAX_DEPTH], b: [MAX_DEPTH], c: [MAX_DEPTH]}");
    assert_eq!(json_to_text(&c, &JsonValue::Null, 1), "[MAX_DEPTH]");
    assert_eq!(json_to_text(&c, &JsonValue::Array(vec![]), 0), "[]");
}

#[test]
fn dotted_paths() {
    let v = JsonValue::Object(vec![(s("a"), JsonValue::Object(vec![(s("b"), JsonValue::Number(s("2")))]))]);
    let c = JsonFingerprintConfig::default();
    assert_eq!(json_to_text(&c, &extract_field_value(&v, "a.b"), 0), "2");
    assert!(matches!(extract_field_value(&v, "a.c"), JsonValue::Null));
    assert!(matches!(extract_field_value(&v, "a.b.c"), JsonValue::Null));
    assert!(matches!(extract_field_value(&v, ""), JsonValue::Null));
    assert_eq!(json_to_text(&c, &extract_field_value(&v, "a"), 0), "{b: 2}");
}

#[test]
fn split_keeps_empty_pieces() {
    assert_eq!(split_on_char("a..b", '.'), vec!["a", "", "b"]);
    assert_eq!(split_on_char("", '.'), vec![""]);
}
