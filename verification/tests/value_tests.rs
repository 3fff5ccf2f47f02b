use tjson::lexer::{Lexer, Token};
use tjson::parser::Parser;
use tjson::value::object_insert;
use tjson::{parse, JsonValue};

#[test]
fn type_predicates() {
    let v = parse(r#"[null, true, 1, "s", [], {}]"#).unwrap();
    let items = v.as_array().unwrap();
    assert!(items[0].is_null() && !items[0].is_bool());
    assert!(items[1].is_bool() && !items[1].is_number());
    assert!(items[2].is_number() && !items[2].is_string());
    assert!(items[3].is_string() && !items[3].is_array());
    assert!(items[4].is_array() && !items[4].is_object());
    assert!(items[5].is_object() && !items[5].is_null());
}

#[test]
fn conversions() {
    let v = parse(r#"{"name": "Rust JSON", "stable": true, "features": ["parse"]}"#).unwrap();
    assert_eq!(v.get("name").as_str(), Some("Rust JSON"));
    assert_eq!(v.get("stable").as_bool(), Some(true));
    assert_eq!(v.get("name").as_bool(), None);
    assert_eq!(v.get("stable").as_str(), None);
    assert_eq!(v.get("features").as_array().map(|a| a.len()), Some(1));
    assert!(v.get("name").as_array().is_none());
    assert_eq!(v.as_object().map(|m| m.len()), Some(3));
    assert!(v.get("features").as_object().is_none());
}

#[test]
fn index_by_key_and_position() {
    let v = parse(r#"{"features": ["parse", "stringify"], "metadata": null}"#).unwrap();
    assert_eq!(v.get("features").at(0).as_str(), Some("parse"));
    assert_eq!(v.get("features").at(1).as_str(), Some("stringify"));
    assert!(v.get("features").at(2).is_null());
    assert!(v.get("nonexist").is_null());
    assert!(v.get("metadata").is_null());
    assert!(v.at(0).is_null());
    assert!(v.get("features").get("x").is_null());
}

#[test]
fn law_get_after_insert() {
    let mut entries: Vec<(String, JsonValue)> = Vec::new();
    object_insert(&mut entries, "b".to_string(), JsonValue::Bool(true));
    object_insert(&mut entries, "a".to_string(), JsonValue::Null);
    object_insert(&mut entries, "c".to_string(), JsonValue::Bool(false));
    object_insert(&mut entries, "b".to_string(), JsonValue::Number("7".to_string()));
    let keys: Vec<&str> = entries.iter().map(|(k, _)| k.as_str()).collect();
    assert_eq!(keys, vec!["a", "b", "c"]);
    let obj = JsonValue::Object(entries);
    assert_eq!(*obj.get("b"), JsonValue::Number("7".to_string()));
    assert_eq!(*obj.get("a"), JsonValue::Null);
    assert_eq!(*obj.get("c"), JsonValue::Bool(false));
}

#[test]
fn lexer_tokens() {
    let mut lexer = Lexer::new("[1, \"a\\u0041\", {\"k\": false}, null]");
    let tokens = lexer.tokenize().unwrap();
    assert_eq!(
        tokens,
        vec![
            Token::LeftBracket,
            Token::Number("1".to_string()),
            Token::Comma,
            Token::String("aA".to_string()),
            Token::Comma,
            Token::LeftBrace,
            Token::String("k".to_string()),
            Token::Colon,
            Token::Bool(false),
            Token::RightBrace,
            Token::Comma,
            Token::Null,
            Token::RightBracket,
        ]
    );
}

#[test]
fn lexer_error() {
    let mut lexer = Lexer::new("  #");
    let err = lexer.tokenize().unwrap_err();
    assert_eq!(err.message, "unexpected character: '#'");
    assert_eq!(err.position, 2);
}

#[test]
fn parser_on_tokens() {
    let tokens = vec![Token::LeftBracket, Token::Number("3".to_string()), Token::RightBracket];
    let mut parser = Parser::new(tokens);
    assert_eq!(parser.parse().unwrap(), JsonValue::Array(vec![JsonValue::Number("3".to_string())]));
    let mut parser = Parser::new(vec![Token::Colon]);
    let err = parser.parse().unwrap_err();
    assert_eq!(err.message, "unexpected token: Colon");
    assert_eq!(err.position, 0);
}

#[test]
fn from_bool_and_string() {
    assert_eq!(JsonValue::from(true), JsonValue::Bool(true));
    assert_eq!(JsonValue::from(false), JsonValue::Bool(false));
    assert_eq!(JsonValue::from("x".to_string()), JsonValue::String("x".to_string()));
    let v: JsonValue = String::new().into();
    assert!(v.is_string());
}
