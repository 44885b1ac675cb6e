use rusty_json::JsonArray;
use rusty_json::JsonNumber;
use rusty_json::JsonObject;
use rusty_json::JsonParser;
use rusty_json::JsonValue;

fn s(text: &str) -> JsonValue {
    JsonValue::String(text.to_string())
}

fn n(x: i64) -> JsonValue {
    JsonValue::Number(JsonNumber::from_i64(x))
}

fn arr(items: Vec<JsonValue>) -> JsonValue {
    let mut a = JsonArray::new();
    for item in items {
        a.push(item);
    }
    JsonValue::Array(a)
}

#[test]
fn simple_cast() {
    let name_json = s("Ammar Dev");
    let age_json = n(27);
    let hobbies_json = arr(vec![s("coding"), s("IDK")]);

    let name = name_json.parse::<String>().unwrap();
    let age = age_json.parse::<i32>().unwrap();
    let hobbies = hobbies_json.parse::<Vec<String>>().unwrap();

    println!("name: {}, age: {}, hobbies: {:?}", name, age, hobbies);
}

#[test]
fn cast_boolean_and_null() {
    let true_json = JsonValue::Boolean(true);
    let false_json = JsonValue::Boolean(false);
    let null_json = JsonValue::Null;

    let true_value = true_json.parse::<bool>().unwrap();
    let false_value = false_json.parse::<bool>().unwrap();

    assert_eq!(true_value, true);
    assert_eq!(false_value, false);
    assert!(matches!(null_json, JsonValue::Null));
}

#[test]
fn cast_floating_point() {
    let float_json = JsonParser::parse(&format!("{}", std::f64::consts::PI)).unwrap();
    let float_value = float_json.parse::<String>().unwrap().parse::<f64>().unwrap();

    assert!((float_value - std::f64::consts::PI).abs() < f64::EPSILON);
}

#[test]
fn cast_complex_object() {
    let mut address = JsonObject::new();
    address.set("street".to_string(), s("123 Main St"));
    address.set("city".to_string(), s("Anytown"));
    let mut obj = JsonObject::new();
    obj.set("name".to_string(), s("Ammar Dev"));
    obj.set("age".to_string(), n(27));
    obj.set("hobbies".to_string(), arr(vec![s("coding"), s("IDK")]));
    obj.set("is_developer".to_string(), JsonValue::Boolean(true));
    obj.set("address".to_string(), JsonValue::Object(address));

    let name = obj.index("name").parse::<String>().unwrap();
    let age = obj.index("age").parse::<i32>().unwrap();
    let hobbies = obj.index("hobbies").clone().parse::<Vec<String>>().unwrap();
    let is_developer = obj.index("is_developer").parse::<bool>().unwrap();
    let inner = match obj.index("address") {
        JsonValue::Object(o) => o,
        _ => panic!("address is not an object"),
    };
    let street = inner.index("street").parse::<String>().unwrap();
    let city = inner.index("city").parse::<String>().unwrap();

    assert_eq!(name, "Ammar Dev");
    assert_eq!(age, 27);
    assert_eq!(hobbies, vec!["coding".to_string(), "IDK".to_string()]);
    assert_eq!(is_developer, true);
    assert_eq!(street, "123 Main St");
    assert_eq!(city, "Anytown");
}

#[test]
fn parse_and_cast_json_string() {
    let json_str = r#"
        {
            "name": "Ammar Dev",
            "age": 27,
            "hobbies": ["coding", "IDK"],
            "is_developer": true
        }
        "#;

    let parsed_json = JsonParser::parse(json_str).unwrap();

    match parsed_json {
        JsonValue::Object(ref obj) => {
            let name = obj.index("name").clone().parse::<String>().unwrap();
            let age = obj.index("age").clone().parse::<i32>().unwrap();
            let hobbies = obj.index("hobbies").clone().parse::<Vec<String>>().unwrap();
            let is_developer = obj.index("is_developer").clone().parse::<bool>().unwrap();

            assert_eq!(name, "Ammar Dev");
            assert_eq!(age, 27);
            assert_eq!(hobbies, vec!["coding".to_string(), "IDK".to_string()]);
            assert_eq!(is_developer, true);
        }
        _ => panic!("Parsed JSON is not an object"),
    }
}

#[test]
fn cast_nested_arrays_and_objects() {
    let mut inner_object = JsonObject::new();
    inner_object.set("key".to_string(), s("value"));
    let mut nested_object = JsonObject::new();
    nested_object.set("inner_object".to_string(), JsonValue::Object(inner_object));
    let mut obj = JsonObject::new();
    obj.set(
        "nested_array".to_string(),
        arr(vec![arr(vec![n(1), n(2)]), arr(vec![n(3), n(4)])]),
    );
    obj.set("nested_object".to_string(), JsonValue::Object(nested_object));

    let nested_array = obj.index("nested_array").clone().parse::<Vec<Vec<i32>>>().unwrap();
    let middle = match obj.index("nested_object") {
        JsonValue::Object(o) => o,
        _ => panic!("not an object"),
    };
    let innermost = match middle.index("inner_object") {
        JsonValue::Object(o) => o,
        _ => panic!("not an object"),
    };
    let inner_key = innermost.index("key").parse::<String>().unwrap();

    assert_eq!(nested_array[0][0], 1);
    assert_eq!(nested_array[1][1], 4);
    assert_eq!(inner_key, "value");
}

#[test]
fn cast_to_various_types() {
    let int_json = n(42);
    let float_json = JsonValue::Number(JsonNumber::from_parts(false, vec![3, 1, 4], -2));
    let bool_json = JsonValue::Boolean(true);
    let string_json = s("example");

    let int_value = int_json.parse::<i32>().unwrap();
    let float_value = float_json.parse::<String>().unwrap().parse::<f64>().unwrap();
    let bool_value = bool_json.parse::<bool>().unwrap();
    let string_value = string_json.parse::<String>().unwrap();

    assert_eq!(int_value, 42);
    assert!((float_value - 3.14).abs() < f64::EPSILON);
    assert_eq!(bool_value, true);
    assert_eq!(string_value, "example");
}

#[test]
fn cast_json_with_numbers() {
    let mut obj = JsonObject::new();
    obj.set("integer".to_string(), n(42));
    obj.set(
        "floating".to_string(),
        JsonValue::Number(JsonNumber::from_parts(false, vec![3, 1, 4], -2)),
    );

    let integer = obj.index("integer").parse::<i32>().unwrap();
    let floating = obj.index("floating").parse::<String>().unwrap().parse::<f64>().unwrap();

    assert_eq!(integer, 42);
    assert!((floating - 3.14).abs() < f64::EPSILON);
}

#[test]
fn cast_json_with_booleans_and_null() {
    let mut obj = JsonObject::new();
    obj.set("true_value".to_string(), JsonValue::Boolean(true));
    obj.set("false_value".to_string(), JsonValue::Boolean(false));
    obj.set("null_value".to_string(), JsonValue::Null);

    let true_value = obj.index("true_value").parse::<bool>().unwrap();
    let false_value = obj.index("false_value").parse::<bool>().unwrap();
    let null_value: JsonValue = obj.index("null_value").parse().unwrap();

    assert_eq!(true_value, true);
    assert_eq!(false_value, false);
    assert!(matches!(null_value, JsonValue::Null));
}

#[test]
fn cast_json_with_arrays() {
    let mut obj = JsonObject::new();
    obj.set("numbers".to_string(), arr(vec![n(1), n(2), n(3), n(4), n(5)]));
    obj.set("strings".to_string(), arr(vec![s("one"), s("two"), s("three")]));
    obj.set("mixed".to_string(), arr(vec![n(1), s("two"), JsonValue::Boolean(true), JsonValue::Null]));

    let numbers = obj.index("numbers").clone().parse::<Vec<i32>>().unwrap();
    let strings = obj.index("strings").clone().parse::<Vec<String>>().unwrap();
    let mixed = obj.index("mixed").clone().parse::<Vec<JsonValue>>().unwrap();

    assert_eq!(numbers, vec![1, 2, 3, 4, 5]);
    assert_eq!(strings, vec!["one".to_string(), "two".to_string(), "three".to_string()]);
    assert_eq!(mixed[0], JsonValue::Number(JsonNumber::from_i64(1)));
    assert_eq!(mixed[1], JsonValue::String("two".to_string()));
    assert_eq!(mixed[2], JsonValue::Boolean(true));
    assert!(matches!(mixed[3], JsonValue::Null));
}
