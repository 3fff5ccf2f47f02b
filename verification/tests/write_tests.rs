use tjson::{parse, JsonValue};

fn num(t: &str) -> JsonValue {
    JsonValue::Number(t.to_string())
}

fn s(t: &str) -> JsonValue {
    JsonValue::String(t.to_string())
}

#[test]
fn compact_output_of_parsed_object() {
    let value = parse(r#" { "b" : [1, true, null], "a" : "x\ny" } "#).unwrap();
    assert_eq!(tjson::stringify(&value), r#"{"a":"x\ny","b":[1,true,null]}"#);
}

#[test]
fn compact_escapes() {
    let value = s("a\"b\\c/d\u{8}\u{c}\n\r\t\u{1}\u{7f}é");
    assert_eq!(tjson::stringify(&value), "\"a\\\"b\\\\c/d\\b\\f\\n\\r\\t\\u0001\\u007fé\"");
}

#[test]
fn compact_point_example() {
    let point = JsonValue::Object(vec![("x".to_string(), num("1")), ("y".to_string(), num("2"))]);
    assert_eq!(tjson::stringify(&point), r#"{"x":1,"y":2}"#);
}

#[test]
fn pretty_output() {
    let value = parse(r#"{"a":[1,2],"b":{}}"#).unwrap();
    assert_eq!(
        tjson::stringify_pretty(&value, 2),
        "{\n  \"a\": [\n    1,\n    2\n  ],\n  \"b\": {}\n}\n"
    );
}

#[test]
fn pretty_scalars_and_empty() {
    assert_eq!(tjson::stringify_pretty(&JsonValue::Null, 4), "null\n");
    assert_eq!(tjson::stringify_pretty(&JsonValue::Array(vec![]), 4), "[]\n");
    assert_eq!(tjson::stringify_pretty(&JsonValue::Object(vec![]), 4), "{}\n");
}

#[test]
fn pretty_with_zero_indent() {
    let value = JsonValue::Array(vec![num("1"), JsonValue::Array(vec![s("a")])]);
    assert_eq!(tjson::stringify_pretty(&value, 0), "[\n1,\n[\n\"a\"\n]\n]\n");
}

fn sample() -> JsonValue {
    JsonValue::Object(vec![
        ("".to_string(), JsonValue::Array(vec![])),
        (
            "k\u{1}\"".to_string(),
            JsonValue::Array(vec![
                num("-0.5e10"),
                JsonValue::Bool(false),
                JsonValue::Null,
                s("\u{1F600}\n\\"),
                JsonValue::Object(vec![]),
            ]),
        ),
        ("z".to_string(), JsonValue::Object(vec![("q".to_string(), num("0"))])),
    ])
}

#[test]
fn law_compact_text_parses_back() {
    let v = sample();
    assert_eq!(parse(&tjson::stringify(&v)).unwrap(), v);
}

#[test]
fn law_pretty_text_parses_back() {
    let v = sample();
    for indent in [0usize, 1, 2, 4] {
        assert_eq!(parse(&tjson::stringify_pretty(&v, indent)).unwrap(), v);
    }
}

#[test]
fn law_parsed_value_writes_back_to_itself() {
    let first = parse(r#" {"b" : [1.5E3, "\u0041"], "a":{"a":1,"a":2}} "#).unwrap();
    let again = parse(&tjson::stringify(&first)).unwrap();
    assert_eq!(again, first);
    let again = parse(&tjson::stringify_pretty(&first, 3)).unwrap();
    assert_eq!(again, first);
}
