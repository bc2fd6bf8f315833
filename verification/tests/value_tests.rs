use jsonlit::convert::Value;
use jsonlit::json;

fn number_as_f64(v: &Value) -> f64 {
    if let Value::Number(t) = v {
        t.parse::<f64>().unwrap()
    } else {
        panic!("not a number: {:?}", v);
    }
}

#[test]
fn test_basic_types() {
    let null_val = json("null").unwrap();
    assert_eq!(null_val, Value::Null);

    let bool_true = json("true").unwrap();
    assert_eq!(bool_true, Value::Bool(true));

    let bool_false = json("false").unwrap();
    assert_eq!(bool_false, Value::Bool(false));

    let int_num = json("42").unwrap();
    assert_eq!(int_num, Value::Number("42".to_string()));
    assert_eq!(number_as_f64(&int_num), 42.0);

    let float_num = json("3.14").unwrap();
    assert_eq!(float_num, Value::Number("3.14".to_string()));
    assert_eq!(number_as_f64(&float_num), 3.14);

    let string_val = json("\"hello world\"").unwrap();
    assert_eq!(string_val, Value::Str("hello world".to_string()));
}

#[test]
fn test_array_types() {
    let simple_array = json("[1, 2, 3]").unwrap();
    assert_eq!(
        simple_array,
        Value::Array(vec![
            Value::Number("1".to_string()),
            Value::Number("2".to_string()),
            Value::Number("3".to_string())
        ])
    );
    if let Value::Array(items) = &simple_array {
        assert_eq!(number_as_f64(&items[0]), 1.0);
        assert_eq!(number_as_f64(&items[1]), 2.0);
        assert_eq!(number_as_f64(&items[2]), 3.0);
    }

    let mixed_array = json("[true, \"test\", null, 42.5]").unwrap();
    assert_eq!(
        mixed_array,
        Value::Array(vec![
            Value::Bool(true),
            Value::Str("test".to_string()),
            Value::Null,
            Value::Number("42.5".to_string())
        ])
    );
    if let Value::Array(items) = &mixed_array {
        assert_eq!(number_as_f64(&items[3]), 42.5);
    }
}

#[test]
fn test_object_types() {
    let simple_object = json(r#"{"name": "Alice", "age": 30}"#).unwrap();
    let expected_object = vec![
        ("name".to_string(), Value::Str("Alice".to_string())),
        ("age".to_string(), Value::Number("30".to_string())),
    ];
    assert_eq!(simple_object, Value::Object(expected_object));
}

#[test]
fn test_nested_structures() {
    let nested_structure = json(
        r#"{
        "user": {
            "name": "Bob",
            "hobbies": ["reading", "coding"]
        },
        "is_active": true
    }"#,
    )
    .unwrap();

    let user = Value::Object(vec![
        ("name".to_string(), Value::Str("Bob".to_string())),
        (
            "hobbies".to_string(),
            Value::Array(vec![
                Value::Str("reading".to_string()),
                Value::Str("coding".to_string()),
            ]),
        ),
    ]);
    let nested_object = vec![
        ("user".to_string(), user),
        ("is_active".to_string(), Value::Bool(true)),
    ];
    assert_eq!(nested_structure, Value::Object(nested_object));
}

#[test]
fn test_integer_widened_to_double() {
    let v = json(r#"{"age": 30}"#).unwrap();
    if let Value::Object(pairs) = &v {
        assert_eq!(pairs.len(), 1);
        assert_eq!(pairs[0].0, "age");
        assert_eq!(number_as_f64(&pairs[0].1), 30.0);
    } else {
        panic!("not an object");
    }
}

#[test]
fn test_duplicate_keys_last_write_wins() {
    let v = json(r#"{"x": 1, "x": 2}"#).unwrap();
    assert_eq!(
        v,
        Value::Object(vec![("x".to_string(), Value::Number("2".to_string()))])
    );
    if let Value::Object(pairs) = &v {
        assert_eq!(pairs.len(), 1);
        assert_eq!(number_as_f64(&pairs[0].1), 2.0);
    }
}

#[test]
fn test_empty_containers() {
    let empty_object = json("{}").unwrap();
    assert_eq!(empty_object, Value::Object(vec![]));

    let empty_array = json("[]").unwrap();
    assert_eq!(empty_array, Value::Array(vec![]));

    let empty_input = json("").unwrap();
    assert_eq!(empty_input, Value::Null);
}
