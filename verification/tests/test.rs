use rusty_json::CastError;
use rusty_json::ConversationError;
use rusty_json::JsonArray;
use rusty_json::JsonFormatter;
use rusty_json::JsonNumber;
use rusty_json::JsonObject;
use rusty_json::JsonParser;
use rusty_json::JsonValue;

#[derive(Debug, PartialEq, Clone)]
struct User {
    name: String,
    age: i32,
    notes: Vec<Note>,
}

#[derive(Debug, PartialEq, Clone)]
struct Note {
    title: String,
    content: String,
}

fn note_from_object(obj: &JsonObject) -> Result<Note, ConversationError> {
    let title = obj.extract::<String>("title").map_err(ConversationError::Cast)?;
    let content = obj.extract::<String>("content").map_err(ConversationError::Cast)?;
    Ok(Note { title, content })
}

impl User {
    fn from_raw(raw: &str) -> Result<User, ConversationError> {
        let parsed = JsonParser::parse(raw)?;
        let obj = match parsed {
            JsonValue::Object(o) => o,
            _ => return Err(ConversationError::GenericError("Expected JSON object".to_string())),
        };
        let name = obj.extract::<String>("name").map_err(ConversationError::Cast)?;
        let age = obj.extract::<i32>("age").map_err(ConversationError::Cast)?;
        let notes_value = obj
            .get("notes")
            .ok_or(ConversationError::Cast(CastError::FieldNotFound("notes".to_string())))?;
        let notes_array = match notes_value {
            JsonValue::Array(a) => a,
            _ => return Err(ConversationError::Cast(CastError::InvalidType)),
        };
        let mut notes = Vec::new();
        for item in notes_array.values() {
            match item {
                JsonValue::Object(o) => notes.push(note_from_object(&o)?),
                _ => return Err(ConversationError::Cast(CastError::InvalidType)),
            }
        }
        Ok(User { name, age, notes })
    }

    fn to_json(&self) -> JsonValue {
        let mut obj = JsonObject::new();
        obj.set("name".to_string(), JsonValue::String(self.name.clone()));
        obj.set("age".to_string(), JsonValue::Number(JsonNumber::from_i64(self.age as i64)));
        let mut notes_array = JsonArray::new();
        for note in &self.notes {
            let mut note_obj = JsonObject::new();
            note_obj.set("title".to_string(), JsonValue::String(note.title.clone()));
            note_obj.set("content".to_string(), JsonValue::String(note.content.clone()));
            notes_array.push(JsonValue::Object(note_obj));
        }
        obj.set("notes".to_string(), JsonValue::Array(notes_array));
        JsonValue::Object(obj)
    }
}

#[test]
fn test_parse_simple_json() {
    let json_input = r#"{
            "name": "John Doe",
            "age": 42,
            "notes": [
                {
                    "title": "Sample Note 1",
                    "content": "This is sample note 1."
                },
                {
                    "title": "Sample Note 2",
                    "content": "This is sample note 2."
                }
            ]
        }"#;

    let parsed_user = User::from_raw(json_input);
    println!("Parsed user: {:?}", parsed_user);
    assert!(parsed_user.is_ok());

    let user = parsed_user.unwrap();
    assert_eq!(user.name, "John Doe");
    assert_eq!(user.age, 42);
    assert_eq!(user.notes.len(), 2);

    assert_eq!(user.notes[0].title, "Sample Note 1");
    assert_eq!(user.notes[0].content, "This is sample note 1.");
    assert_eq!(user.notes[1].title, "Sample Note 2");
    assert_eq!(user.notes[1].content, "This is sample note 2.");

    let serialized_json = user.to_json();
    let mut formatter = JsonFormatter::default_formatter();
    let expected_json = JsonValue::Object({
        let mut obj = JsonObject::new();
        obj.set("name".to_string(), JsonValue::String("John Doe".to_string()));
        obj.set("age".to_string(), JsonValue::Number(JsonNumber::from_i64(42)));
        let mut notes_array = JsonArray::new();
        for note in &user.notes {
            let mut note_obj = JsonObject::new();
            note_obj.set("title".to_string(), JsonValue::String(note.title.clone()));
            note_obj.set("content".to_string(), JsonValue::String(note.content.clone()));
            notes_array.push(JsonValue::Object(note_obj));
        }
        obj.set("notes".to_string(), JsonValue::Array(notes_array));
        obj
    });

    assert_eq!(serialized_json, expected_json);
    println!("Serialized JSON: {}", formatter.format(&serialized_json));
}

#[test]
fn test_parse_invalid_json() {
    let invalid_json = r#"{
            "name": "John Doe",
            "age": 42,
            "notes": {
                "title": "Invalid Note",
                "content": "This is invalid note format."
            }
        }"#;

    let parsed_user = User::from_raw(invalid_json);
    assert!(parsed_user.is_err());
    println!("Parsed user from invalid JSON: {:?}", parsed_user.err().unwrap());
}
