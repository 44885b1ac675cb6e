use rusty_json::CastError;
use rusty_json::ConversationError;
use rusty_json::JsonArray;
use rusty_json::JsonEntity;
use rusty_json::JsonFormatter;
use rusty_json::JsonNumber;
use rusty_json::JsonObject;
use rusty_json::JsonParser;
use rusty_json::JsonValue;

fn num(x: i64) -> JsonValue {
    JsonValue::Number(JsonNumber::from_i64(x))
}

#[test]
fn range_boundary_u8() {
    assert_eq!(num(256).parse::<u8>(), Err(CastError::OutOfRange));
    assert_eq!(num(255).parse::<u8>(), Ok(255u8));
    let frac = JsonValue::Number(JsonNumber::from_parts(false, vec![2, 5, 5, 5], -1));
    assert_eq!(frac.parse::<u8>(), Err(CastError::InvalidType));
}

#[test]
fn range_boundary_signed() {
    assert_eq!(num(-129).parse::<i8>(), Err(CastError::OutOfRange));
    assert_eq!(num(-128).parse::<i8>(), Ok(-128i8));
    assert_eq!(num(127).parse::<i8>(), Ok(127i8));
    assert_eq!(num(128).parse::<i8>(), Err(CastError::OutOfRange));
    assert_eq!(num(-5).parse::<u64>(), Err(CastError::OutOfRange));
}

#[test]
fn null_coercions() {
    assert_eq!(JsonValue::Null.parse::<bool>(), Ok(false));
    assert_eq!(JsonValue::Null.parse::<i64>(), Ok(0i64));
    assert_eq!(JsonValue::Null.parse::<u8>(), Ok(0u8));
    assert_eq!(JsonValue::Null.parse::<Vec<i64>>(), Ok(Vec::new()));
    let empty_map = JsonValue::Null.parse::<JsonObject>().unwrap();
    assert!(empty_map.is_empty());
    assert_eq!(JsonValue::Null.parse::<String>(), Ok("null".to_string()));
}

#[test]
fn missing_field_detection() {
    let parsed = JsonParser::parse(r#"{"name": "A"}"#).unwrap();
    let obj = match parsed {
        JsonValue::Object(o) => o,
        _ => panic!("not an object"),
    };
    assert_eq!(obj.extract::<i64>("age"), Err(CastError::FieldNotFound("age".to_string())));
    assert_eq!(obj.extract::<String>("name"), Ok("A".to_string()));
}

#[test]
fn incomplete_parse_detection() {
    let result = JsonParser::parse(r#"{"a":1} garbage"#);
    match result {
        Err(ConversationError::ParsingError(m)) => {
            assert_eq!(
                m,
                "Incomplete parsing: 7 characters were left unparsed. Remaining input: 'garbage'"
            );
        }
        _ => panic!("expected an incomplete-parse error"),
    }
}

#[test]
fn syntax_error_reports_construct_and_position() {
    match JsonParser::parse("[1, ") {
        Err(ConversationError::ParsingError(m)) => {
            assert_eq!(m, "Syntax error: expected a closing bracket at character 2");
        }
        _ => panic!("expected a syntax error"),
    }
    match JsonParser::parse("") {
        Err(ConversationError::ParsingError(m)) => {
            assert_eq!(m, "Syntax error: expected a value at character 0");
        }
        _ => panic!("expected a syntax error"),
    }
    match JsonParser::parse("1.5e") {
        Err(ConversationError::ParsingError(m)) => {
            // the exponent marker without digits is not consumed, so the
            // remainder is reported as unparsed input
            assert_eq!(
                m,
                "Incomplete parsing: 1 characters were left unparsed. Remaining input: 'e'"
            );
        }
        _ => panic!("expected an error"),
    }
}

#[test]
fn pretty_print_nesting() {
    let mut inner = JsonObject::new();
    inner.set("b".to_string(), num(1));
    let mut outer = JsonObject::new();
    outer.set("a".to_string(), JsonValue::Object(inner));
    let value = JsonValue::Object(outer);

    let mut formatter = JsonFormatter::builder().with_indent(2).with_indent_char(' ').build();
    let text = formatter.format(&value);
    assert_eq!(text, "{\n  \"a\": {\n    \"b\": 1\n  }\n}");
}

#[test]
fn pretty_print_array_and_scalars() {
    let mut arr = JsonArray::new();
    arr.push(num(1));
    arr.push(JsonValue::String("x".to_string()));
    let mut formatter = JsonFormatter::default_formatter();
    assert_eq!(formatter.format(&JsonValue::Array(arr)), "[\n  1,\n  \"x\"\n]");
    assert_eq!(formatter.format(&JsonValue::Boolean(true)), "true");
    assert_eq!(formatter.format(&JsonValue::Null), "null");
}

#[test]
fn round_trip_native_values() {
    assert_eq!(num(42).parse::<i64>(), Ok(42i64));
    assert_eq!(num(-7).parse::<i32>(), Ok(-7i32));
    assert_eq!(JsonValue::String("hi".to_string()).parse::<String>(), Ok("hi".to_string()));
    assert_eq!(JsonValue::Boolean(true).parse::<bool>(), Ok(true));
    let list = vec![3i64, 1, 2];
    let wrapped = {
        let mut a = JsonArray::new();
        for x in &list {
            a.push(num(*x));
        }
        JsonValue::Array(a)
    };
    assert_eq!(wrapped.parse::<Vec<i64>>(), Ok(list));
}

#[test]
fn parse_format_round_trip() {
    let text = r#"{"name": "A\nB", "count": 3, "items": [1, 2.5, true, null], "empty": {}, "none": []}"#;
    let value = JsonParser::parse(text).unwrap();
    let compact = value.to_text();
    let reparsed = JsonParser::parse(&compact).unwrap();
    assert_eq!(value, reparsed);
    // a second round keeps the text fixed
    assert_eq!(reparsed.to_text(), compact);
}

#[test]
fn pretty_format_round_trip() {
    let value = JsonParser::parse(r#"{"a": [1, {"b": 2.5}], "c": []}"#).unwrap();
    let mut formatter = JsonFormatter::default_formatter();
    let pretty = formatter.format(&value);
    assert_eq!(JsonParser::parse(&pretty).unwrap(), value);
}

#[test]
fn compact_text_forms() {
    assert_eq!(num(100).parse::<String>(), Ok("100".to_string()));
    let frac = JsonValue::Number(JsonNumber::from_parts(false, vec![5], -3));
    assert_eq!(frac.parse::<String>(), Ok("0.005".to_string()));
    let negfrac = JsonValue::Number(JsonNumber::from_parts(true, vec![3, 1, 4], -2));
    assert_eq!(negfrac.parse::<String>(), Ok("-3.14".to_string()));
    let mut obj = JsonObject::new();
    obj.set("a".to_string(), num(1));
    obj.set("b".to_string(), JsonValue::Boolean(false));
    assert_eq!(obj.to_text(), "{\"a\":1,\"b\":false}");
    assert_eq!(JsonObject::new().to_text(), "{}");
    assert_eq!(JsonArray::new().to_text(), "[]");
}

#[test]
fn escapes_round_trip_through_text() {
    let original = JsonValue::String("line1\nline2\t\"quoted\" \\ end\u{1}".to_string());
    let compact = original.to_text();
    let reparsed = JsonParser::parse(&compact).unwrap();
    assert_eq!(original, reparsed);
}

#[test]
fn unicode_escape_decodes() {
    let parsed = JsonParser::parse(r#""A\u00e9""#).unwrap();
    assert_eq!(parsed, JsonValue::String("A\u{e9}".to_string()));
}

#[test]
fn number_normalization() {
    // trailing zeros move into the exponent, so these compare equal
    let a = JsonParser::parse("100").unwrap();
    let b = JsonParser::parse("1e2").unwrap();
    let c = JsonParser::parse("10.0e1").unwrap();
    assert_eq!(a, b);
    assert_eq!(a, c);
    let d = JsonParser::parse("0.5").unwrap();
    let e = JsonParser::parse("5e-1").unwrap();
    assert_eq!(d, e);
    assert_eq!(JsonParser::parse("-0").unwrap(), num(0));
}

#[test]
fn object_equality_ignores_order() {
    let mut a = JsonObject::new();
    a.set("a".to_string(), num(1));
    a.set("b".to_string(), num(2));
    let mut b = JsonObject::new();
    b.set("b".to_string(), num(2));
    b.set("a".to_string(), num(1));
    assert_eq!(a, b);
    assert_eq!(JsonValue::Object(a), JsonValue::Object(b));

    let mut c = JsonObject::new();
    c.set("a".to_string(), num(1));
    c.set("b".to_string(), num(3));
    let mut d = JsonObject::new();
    d.set("a".to_string(), num(1));
    d.set("c".to_string(), num(2));
    let mut ab = JsonObject::new();
    ab.set("a".to_string(), num(1));
    ab.set("b".to_string(), num(2));
    assert_ne!(ab, c);
    assert_ne!(ab, d);
}

#[test]
fn object_set_replaces_in_place() {
    let mut obj = JsonObject::new();
    obj.set("a".to_string(), num(1));
    obj.set("b".to_string(), num(2));
    obj.set("a".to_string(), num(9));
    assert_eq!(obj.len(), 2);
    let keys = obj.keys();
    assert_eq!(keys[0], "a");
    assert_eq!(keys[1], "b");
    assert_eq!(obj.index("a"), &num(9));
}

#[test]
fn object_del_is_swap_remove() {
    let mut obj = JsonObject::new();
    obj.set("a".to_string(), num(1));
    obj.set("b".to_string(), num(2));
    obj.set("c".to_string(), num(3));
    obj.del("a");
    assert_eq!(obj.len(), 2);
    let keys = obj.keys();
    // the last entry moved into the freed slot
    assert_eq!(keys[0], "c");
    assert_eq!(keys[1], "b");
    obj.del("missing");
    assert_eq!(obj.len(), 2);
}

#[test]
fn object_merge_is_right_biased() {
    let mut left = JsonObject::new();
    left.set("a".to_string(), num(1));
    left.set("b".to_string(), num(2));
    let mut right = JsonObject::new();
    right.set("b".to_string(), num(20));
    right.set("c".to_string(), num(30));
    left.merge(right);
    assert_eq!(left.len(), 3);
    assert_eq!(left.index("a"), &num(1));
    assert_eq!(left.index("b"), &num(20));
    assert_eq!(left.index("c"), &num(30));
}

#[test]
fn object_get_and_get_mut() {
    let mut obj = JsonObject::new();
    obj.set("a".to_string(), num(1));
    assert!(obj.get("missing").is_none());
    if let Some(slot) = obj.get_mut("a") {
        *slot = num(5);
    }
    assert_eq!(obj.get("a"), Some(&num(5)));
    assert!(obj.contains_key("a"));
    assert!(!obj.contains_key("z"));
    assert!(obj.contains_value(&num(5)));
    assert!(!obj.contains_value(&num(1)));
}

#[test]
fn array_operations() {
    let mut arr = JsonArray::new();
    arr.push(num(1));
    arr.push(num(3));
    arr.insert(1, num(2));
    assert_eq!(arr.len(), 3);
    assert_eq!(arr.index(1), &num(2));
    arr.del(0);
    assert_eq!(arr.len(), 2);
    assert_eq!(arr.index(0), &num(2));
    arr.del(10);
    assert_eq!(arr.len(), 2);
    assert!(arr.contains(&num(3)));
    assert!(!arr.contains(&num(1)));
    if let Some(slot) = arr.get_mut(0) {
        *slot = num(7);
    }
    assert_eq!(arr.get(0), Some(&num(7)));
    assert!(arr.get(5).is_none());
    let values = arr.values();
    assert_eq!(values.len(), 2);
    arr.clear();
    assert!(arr.is_empty());
}

#[test]
fn filter_and_map() {
    let mut arr = JsonArray::new();
    arr.push(num(1));
    arr.push(JsonValue::Boolean(true));
    arr.push(num(2));
    let only_numbers = arr.filter(|v: &JsonValue| matches!(v, JsonValue::Number(_)));
    assert_eq!(only_numbers.len(), 2);
    assert_eq!(only_numbers.index(0), &num(1));
    assert_eq!(only_numbers.index(1), &num(2));

    let nulled = arr.map(|_v: &JsonValue| JsonValue::Null);
    assert_eq!(nulled.len(), 3);
    assert_eq!(nulled.index(1), &JsonValue::Null);

    let mut obj = JsonObject::new();
    obj.set("a".to_string(), num(1));
    obj.set("b".to_string(), JsonValue::Boolean(true));
    let numbers_only = obj.filter(|_k: &String, v: &JsonValue| matches!(v, JsonValue::Number(_)));
    assert_eq!(numbers_only.len(), 1);
    assert!(numbers_only.contains_key("a"));
    let mapped = obj.map(|_k: &String, _v: &JsonValue| num(0));
    assert_eq!(mapped.len(), 2);
    assert_eq!(mapped.index("b"), &num(0));
}

#[test]
fn cast_error_variants_from_entities() {
    assert_eq!(
        Vec::<i32>::from_json("{}"),
        Err(ConversationError::GenericError("Expected JSON array".to_string()))
    );
    assert_eq!(
        Vec::<i32>::from_json(r#"[1, "x"]"#),
        Err(ConversationError::Cast(CastError::InvalidType))
    );
    assert_eq!(Vec::<i32>::from_json("[1, 2]"), Ok(vec![1, 2]));
}

#[test]
fn trailing_comma_rejected() {
    assert!(JsonParser::parse("[1, 2,]").is_err());
    assert!(JsonParser::parse(r#"{"a": 1,}"#).is_err());
}

#[test]
fn duplicate_keys_keep_first_position_last_value() {
    let parsed = JsonParser::parse(r#"{"a": 1, "b": 2, "a": 3}"#).unwrap();
    let obj = match parsed {
        JsonValue::Object(o) => o,
        _ => panic!("not an object"),
    };
    assert_eq!(obj.len(), 2);
    let keys = obj.keys();
    assert_eq!(keys[0], "a");
    assert_eq!(obj.index("a"), &num(3));
}

#[test]
fn formatter_builder_settings() {
    let mut formatter = JsonFormatter::builder().with_indent(1).with_indent_char('\t').build();
    let mut obj = JsonObject::new();
    obj.set("a".to_string(), num(1));
    assert_eq!(formatter.format(&JsonValue::Object(obj)), "{\n\t\"a\": 1\n}");
}

#[test]
fn large_integers_cast_exactly() {
    let big = JsonParser::parse("9223372036854775807").unwrap();
    assert_eq!(big.parse::<i64>(), Ok(i64::MAX));
    assert_eq!(big.parse::<i32>(), Err(CastError::OutOfRange));
    let too_big = JsonParser::parse("9223372036854775808").unwrap();
    assert_eq!(too_big.parse::<i64>(), Err(CastError::OutOfRange));
    assert_eq!(too_big.parse::<u64>(), Ok(9223372036854775808u64));
}
