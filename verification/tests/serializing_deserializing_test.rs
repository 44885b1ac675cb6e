use rusty_json::JsonArray;
use rusty_json::JsonEntity;
use rusty_json::JsonNumber;
use rusty_json::JsonValue;

#[test]
fn test_serialize_deserialize_vec() {
    let vec = vec![1i32, 2, 3];
    let json = vec.to_json();
    assert_eq!(
        json,
        JsonValue::Array({
            let mut a = JsonArray::new();
            a.push(JsonValue::Number(JsonNumber::from_i64(1)));
            a.push(JsonValue::Number(JsonNumber::from_i64(2)));
            a.push(JsonValue::Number(JsonNumber::from_i64(3)));
            a
        })
    );

    let raw_json = json.to_text();
    let parsed_vec: Vec<i32> = Vec::from_json(&raw_json).unwrap();
    assert_eq!(vec, parsed_vec);
}
