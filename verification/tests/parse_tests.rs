use tjson::{parse, JsonError, JsonValue};

fn number_value(v: &JsonValue) -> f64 {
    match v {
        JsonValue::Number(t) => t.parse::<f64>().unwrap(),
        _ => panic!("not a number"),
    }
}

fn error_of(input: &str) -> (String, usize) {
    match parse(input) {
        Ok(_) => panic!("expected an error for {:?}", input),
        Err(e) => (e.message, e.position),
    }
}

#[test]
fn parses_decimal_inside_object() {
    let input = r#"{"version":1.0,"stable":true}"#;
    let value = parse(input).expect("decimal number in object should parse");

    assert_eq!(number_value(value.get("version")), 1.0);
    assert_eq!(*value.get("stable"), JsonValue::Bool(true));
}

#[test]
fn parses_exponent_number() {
    let input = r#"{"value":-1.25e+3}"#;
    let value = parse(input).expect("exponent number should parse");

    assert_eq!(number_value(value.get("value")), -1250.0);
}

#[test]
fn number_keeps_its_text() {
    let value = parse("-1.25E+3").unwrap();
    assert_eq!(value, JsonValue::Number("-1.25E+3".to_string()));
    assert_eq!(parse("0").unwrap(), JsonValue::Number("0".to_string()));
    assert_eq!(parse("10.5e-2").unwrap(), JsonValue::Number("10.5e-2".to_string()));
}

#[test]
fn parses_scalars() {
    assert_eq!(parse("null").unwrap(), JsonValue::Null);
    assert_eq!(parse(" true ").unwrap(), JsonValue::Bool(true));
    assert_eq!(parse("\tfalse\r\n").unwrap(), JsonValue::Bool(false));
    assert_eq!(parse(r#""hi""#).unwrap(), JsonValue::String("hi".to_string()));
}

#[test]
fn parses_empty_containers() {
    assert_eq!(parse("[]").unwrap(), JsonValue::Array(vec![]));
    assert_eq!(parse("{ }").unwrap(), JsonValue::Object(vec![]));
}

#[test]
fn parses_nested_values() {
    let value = parse(r#"{"a": [1, {"b": null}], "c": "d"}"#).unwrap();
    let expected = JsonValue::Object(vec![
        (
            "a".to_string(),
            JsonValue::Array(vec![
                JsonValue::Number("1".to_string()),
                JsonValue::Object(vec![("b".to_string(), JsonValue::Null)]),
            ]),
        ),
        ("c".to_string(), JsonValue::String("d".to_string())),
    ]);
    assert_eq!(value, expected);
}

#[test]
fn object_keys_come_out_in_code_point_order() {
    let value = parse(r#"{"b":1,"a":2,"B":3,"ab":4}"#).unwrap();
    let keys: Vec<String> = value.as_object().unwrap().iter().map(|(k, _)| k.clone()).collect();
    assert_eq!(keys, vec!["B", "a", "ab", "b"]);
}

#[test]
fn later_duplicate_key_wins() {
    let value = parse(r#"{"a":1,"a":2}"#).unwrap();
    assert_eq!(value, JsonValue::Object(vec![("a".to_string(), JsonValue::Number("2".to_string()))]));
}

#[test]
fn parses_escapes() {
    let value = parse(r#""a\"b\\c\/d\b\f\n\r\t""#).unwrap();
    assert_eq!(value, JsonValue::String("a\"b\\c/d\u{8}\u{c}\n\r\t".to_string()));
}

#[test]
fn parses_unicode_escapes_and_surrogate_pairs() {
    let value = parse(r#""\u00e9\u4E2D\ud83d\ude00""#).unwrap();
    assert_eq!(value, JsonValue::String("é中😀".to_string()));
}

#[test]
fn error_unexpected_character() {
    assert_eq!(error_of("@"), ("unexpected character: '@'".to_string(), 0));
    assert_eq!(error_of("[1, x]"), ("unexpected character: 'x'".to_string(), 4));
}

#[test]
fn error_unterminated_string() {
    assert_eq!(error_of("\"abc"), ("unterminated string".to_string(), 0));
}

#[test]
fn error_unterminated_escape() {
    assert_eq!(error_of("\"ab\\"), ("unterminated escape sequence".to_string(), 4));
}

#[test]
fn error_invalid_escape() {
    assert_eq!(error_of(r#""\x""#), ("invalid escape character: '\\x'".to_string(), 2));
}

#[test]
fn error_control_character() {
    assert_eq!(error_of("\"a\u{1}\""), ("control character U+0001 in string".to_string(), 2));
    assert_eq!(error_of("\"\u{9f}\""), ("control character U+009F in string".to_string(), 1));
}

#[test]
fn error_unicode_escapes() {
    assert_eq!(error_of(r#""\u12""#), ("invalid hex digit: '\"'".to_string(), 5));
    assert_eq!(error_of("\"\\u12"), ("unexpected end in unicode escape".to_string(), 3));
    assert_eq!(error_of(r#""\ud800x""#), ("missing low surrogate pair".to_string(), 7));
    assert_eq!(error_of(r#""\ud800\u0041""#), ("invalid low surrogate range".to_string(), 13));
    assert_eq!(error_of(r#""\udc00""#), ("invalid unicode code point".to_string(), 3));
}

#[test]
fn error_numbers() {
    assert_eq!(error_of("01"), ("leading zeros not allowed".to_string(), 1));
    assert_eq!(error_of("-"), ("expected digit".to_string(), 1));
    assert_eq!(error_of("1."), ("expected digit".to_string(), 2));
    assert_eq!(error_of("1e"), ("expected digit".to_string(), 2));
    assert_eq!(error_of("1e+"), ("expected digit".to_string(), 3));
}

#[test]
fn error_keywords() {
    assert_eq!(error_of("tru"), ("invalid token".to_string(), 0));
    assert_eq!(error_of("fals"), ("invalid token".to_string(), 0));
    assert_eq!(error_of("nul"), ("expected 'null'".to_string(), 0));
}

#[test]
fn error_structure() {
    assert_eq!(error_of(""), ("unexpected end of input".to_string(), 0));
    assert_eq!(error_of("1 2"), ("unexpected token after json value".to_string(), 1));
    assert_eq!(error_of("]"), ("unexpected token: RightBracket".to_string(), 0));
    assert_eq!(error_of(r#"{"a" 1}"#), ("expected Colon, found Number".to_string(), 2));
    assert_eq!(error_of("[1 2]"), ("expected ',' or ']'".to_string(), 2));
    assert_eq!(error_of(r#"{"a":1 2}"#), ("expected ',' or '}'".to_string(), 4));
    assert_eq!(error_of("{1:2}"), ("expected string key".to_string(), 1));
    assert_eq!(error_of("[1,"), ("unexpected end of input".to_string(), 3));
    assert_eq!(error_of("[1,]"), ("unexpected token: RightBracket".to_string(), 3));
}

#[test]
fn error_describe() {
    let e = JsonError::new("boom".to_string(), 12);
    assert_eq!(e.describe(), "JSON error at position 12: boom");
    let e = JsonError::new("x".to_string(), 0);
    assert_eq!(e.describe(), "JSON error at position 0: x");
}
