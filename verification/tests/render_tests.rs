use jsonlit::lex::tokenize;
use jsonlit::parse_str;
use jsonlit::tree::JsonValue;

fn sample_tree() -> JsonValue {
    JsonValue::Object(vec![
        (
            "books".to_string(),
            JsonValue::Array(vec![
                JsonValue::Object(vec![
                    (
                        "title".to_string(),
                        JsonValue::Str("JSON at Work".to_string()),
                    ),
                    ("author".to_string(), JsonValue::Null),
                    ("pages".to_string(), JsonValue::Number("200".to_string())),
                    ("rating".to_string(), JsonValue::Float("4.5".to_string())),
                ]),
                JsonValue::Array(vec![]),
                JsonValue::Object(vec![]),
            ]),
        ),
        ("has_missing_data".to_string(), JsonValue::Bool("true".to_string())),
    ])
}

#[test]
fn test_to_json_str_scalars() {
    assert_eq!(JsonValue::Null.to_json_str(), "null");
    assert_eq!(JsonValue::Bool("true".to_string()).to_json_str(), "true");
    assert_eq!(JsonValue::Number("42".to_string()).to_json_str(), "42");
    assert_eq!(JsonValue::Float("3.14".to_string()).to_json_str(), "3.14");
    assert_eq!(
        JsonValue::Str("hello world".to_string()).to_json_str(),
        "\"hello world\""
    );
}

#[test]
fn test_to_json_str_nested() {
    let tree = JsonValue::Object(vec![(
        "a".to_string(),
        JsonValue::Array(vec![
            JsonValue::Number("1".to_string()),
            JsonValue::Number("2".to_string()),
            JsonValue::Object(vec![(
                "b".to_string(),
                JsonValue::Bool("true".to_string()),
            )]),
        ]),
    )]);
    assert_eq!(tree.to_json_str(), r#"{"a": [1, 2, {"b": true}]}"#);
}

#[test]
fn test_round_trip() {
    let tree = sample_tree();
    let text = tree.to_json_str();
    let parsed = parse_str(&text).unwrap();
    assert_eq!(parsed, tree);
}

#[test]
fn test_render_idempotent() {
    let tree = sample_tree();
    let first = tree.to_json_str();
    let reparsed = parse_str(&first).unwrap();
    let second = reparsed.to_json_str();
    assert_eq!(first, second);
}

#[test]
fn test_tokenize_errors() {
    assert!(tokenize("\"unterminated").is_err());
    assert!(tokenize("3.").is_err());
    assert!(tokenize("a + b").is_err());
    assert!(tokenize("#").is_err());
}

#[test]
fn test_tokenize_whitespace_and_null_identifier() {
    let tree = parse_str(" \n\t null \r\n").unwrap();
    assert_eq!(tree, JsonValue::Null);

    assert!(parse_str("nil").is_err());
    assert!(parse_str(r#"{"key": value}"#).is_err());
}

#[test]
fn test_structural_recursion() {
    let parsed = parse_str(r#"{"a": [1, 2, {"b": true}]}"#).unwrap();
    let expected = JsonValue::Object(vec![(
        "a".to_string(),
        JsonValue::Array(vec![
            JsonValue::Number("1".to_string()),
            JsonValue::Number("2".to_string()),
            JsonValue::Object(vec![(
                "b".to_string(),
                JsonValue::Bool("true".to_string()),
            )]),
        ]),
    )]);
    assert_eq!(parsed, expected);
}

#[test]
fn test_trailing_comma_rejected() {
    assert!(parse_str("[1, 2,]").is_err());
    assert!(parse_str(r#"{"a": 1,}"#).is_err());
}

#[test]
fn test_missing_colon_and_unterminated() {
    assert!(parse_str(r#"{"a" 1}"#).is_err());
    assert!(parse_str("[1, 2").is_err());
    assert!(parse_str("{").is_err());
}
