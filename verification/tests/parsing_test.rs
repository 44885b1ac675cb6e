use rusty_json::JsonNumber;
use rusty_json::JsonParser;
use rusty_json::JsonValue;

fn field<'a>(v: &'a JsonValue, k: &str) -> &'a JsonValue {
    match v {
        JsonValue::Object(o) => o.index(k),
        _ => panic!("not an object"),
    }
}

#[test]
fn parse_json_with_unicode_characters() {
    let content = r#"
        {
            "こんにちは": "Hello in Japanese",
            "你好": "Hello in Chinese"
        }
        "#;

    let parsed = JsonParser::parse(content).unwrap();

    match parsed {
        JsonValue::Object(ref obj) => {
            assert!(obj.contains_key("こんにちは"));
            assert!(obj.contains_key("你好"));

            assert_eq!(
                obj.index("こんにちは"),
                &JsonValue::String("Hello in Japanese".to_string())
            );
            assert_eq!(obj.index("你好"), &JsonValue::String("Hello in Chinese".to_string()));
        }
        _ => panic!("Parsed JSON is not an object"),
    }
}

#[test]
fn parse_json_with_escape_characters() {
    let content = r#"
        {
            "escaped": "Hello\nWorld",
            "tabbed": "Hello\tWorld",
            "quoted": "He said, \"Hello World\"",
            "backslash": "C:\\\\Program Files\\\\",
            "slash": "http://example.com/path/to/resource",
            "carriage_return": "Hello\rWorld",
            "mixed": "Line1\nLine2\r\nLine3\tTabbed"
        }
        "#;

    let parsed = JsonParser::parse(content).unwrap();

    match parsed {
        JsonValue::Object(ref obj) => {
            assert!(obj.contains_key("escaped"));
            assert!(obj.contains_key("tabbed"));
            assert!(obj.contains_key("quoted"));
            assert!(obj.contains_key("backslash"));
            assert!(obj.contains_key("slash"));
            assert!(obj.contains_key("carriage_return"));
            assert!(obj.contains_key("mixed"));

            assert_eq!(obj.index("escaped"), &JsonValue::String("Hello\nWorld".to_string()));
            assert_eq!(obj.index("tabbed"), &JsonValue::String("Hello\tWorld".to_string()));
            assert_eq!(
                obj.index("quoted"),
                &JsonValue::String("He said, \"Hello World\"".to_string())
            );
            assert_eq!(
                obj.index("backslash"),
                &JsonValue::String("C:\\\\Program Files\\\\".to_string())
            );
            assert_eq!(
                obj.index("slash"),
                &JsonValue::String("http://example.com/path/to/resource".to_string())
            );
            assert_eq!(
                obj.index("carriage_return"),
                &JsonValue::String("Hello\rWorld".to_string())
            );
            assert_eq!(
                obj.index("mixed"),
                &JsonValue::String("Line1\nLine2\r\nLine3\tTabbed".to_string())
            );
        }
        _ => panic!("Parsed JSON is not an object"),
    }
}

#[test]
fn parse_empty_json_object() {
    let content = r#"{}"#;
    let parsed = JsonParser::parse(content).unwrap();
    match parsed {
        JsonValue::Object(ref obj) => {
            assert!(obj.is_empty());
        }
        _ => panic!("Parsed JSON is not an object"),
    }
}

#[test]
fn parse_empty_json_array() {
    let content = r#"[]"#;
    let parsed = JsonParser::parse(content).unwrap();
    match parsed {
        JsonValue::Array(ref arr) => {
            assert!(arr.is_empty());
        }
        _ => panic!("Parsed JSON is not an array"),
    }
}

#[test]
fn parse_nested_json_structure() {
    let content = r#"
        {
            "level1": {
                "level2": {
                    "level3": "Nested value"
                }
            }
        }
        "#;

    let parsed = JsonParser::parse(content).unwrap();

    match parsed {
        JsonValue::Object(ref obj) => {
            assert_eq!(
                field(field(obj.index("level1"), "level2"), "level3"),
                &JsonValue::String("Nested value".to_string())
            );
        }
        _ => panic!("Parsed JSON is not an object"),
    }
}

#[test]
fn parse_json_with_numbers() {
    let content = r#"
        {
            "integer": 42,
            "floating": 3.14
        }
        "#;

    let parsed = JsonParser::parse(content).unwrap();

    match parsed {
        JsonValue::Object(ref obj) => {
            assert_eq!(obj.index("integer"), &JsonValue::Number(JsonNumber::from_i64(42)));
            assert_eq!(
                obj.index("floating"),
                &JsonValue::Number(JsonNumber::from_parts(false, vec![3, 1, 4], -2))
            );
        }
        _ => panic!("Parsed JSON is not an object"),
    }
}

#[test]
fn parse_json_with_booleans_and_null() {
    let content = r#"
        {
            "true_value": true,
            "false_value": false,
            "null_value": null
        }
        "#;

    let parsed = JsonParser::parse(content).unwrap();

    match parsed {
        JsonValue::Object(ref obj) => {
            assert_eq!(obj.index("true_value"), &JsonValue::Boolean(true));
            assert_eq!(obj.index("false_value"), &JsonValue::Boolean(false));
            assert_eq!(obj.index("null_value"), &JsonValue::Null);
        }
        _ => panic!("Parsed JSON is not an object"),
    }
}

#[test]
fn parse_json_with_arrays() {
    let content = r#"
        {
            "numbers": [1, 2, 3, 4, 5],
            "strings": ["one", "two", "three"],
            "mixed": [1, "two", true, null]
        }
        "#;

    let parsed = JsonParser::parse(content).unwrap();

    fn at<'a>(v: &'a JsonValue, i: usize) -> &'a JsonValue {
        match v {
            JsonValue::Array(a) => a.index(i),
            _ => panic!("not an array"),
        }
    }

    match parsed {
        JsonValue::Object(ref obj) => {
            assert_eq!(at(obj.index("numbers"), 0), &JsonValue::Number(JsonNumber::from_i64(1)));
            assert_eq!(at(obj.index("numbers"), 4), &JsonValue::Number(JsonNumber::from_i64(5)));
            assert_eq!(at(obj.index("strings"), 1), &JsonValue::String("two".to_string()));
            assert_eq!(at(obj.index("mixed"), 0), &JsonValue::Number(JsonNumber::from_i64(1)));
            assert_eq!(at(obj.index("mixed"), 1), &JsonValue::String("two".to_string()));
            assert_eq!(at(obj.index("mixed"), 2), &JsonValue::Boolean(true));
            assert_eq!(at(obj.index("mixed"), 3), &JsonValue::Null);
        }
        _ => panic!("Parsed JSON is not an object"),
    }
}
