//! The reusable object deserializer: lifecycle, contents, misuse, rejection.

use serde_json_borrow::CowStr;
use serde_json_borrow::JsonError;
use serde_json_borrow::Number;
use serde_json_borrow::ObjectAsVec;
use serde_json_borrow::ReusableMap;
use serde_json_borrow::Value;

#[test]
fn test_map_cleared_on_drop() {
    let mut deserializer = ReusableMap::new();

    // First JSON - take a handle, read it, hand it back.
    let json_str = r#"{"name":"test"}"#.to_string();
    let guard = deserializer.deserialize(&json_str).unwrap();
    assert_eq!(guard.len(), 1);
    assert!(guard.contains_key("name"));
    deserializer.release(guard);

    // Second JSON - starts from a clean map.
    let json_str2 = r#"{"second":"value"}"#.to_string();
    let guard2 = deserializer.deserialize(&json_str2).unwrap();

    // Only the new content is there.
    assert_eq!(guard2.len(), 1);
    assert!(guard2.contains_key("second"));
    assert!(!guard2.contains_key("name"));
}

#[test]
fn test_json_guard_deserialization() {
    let mut deserializer = ReusableMap::new();

    let json_str = r#"{"name":"test","value":42,"nested":{"key":"val"}}"#.to_string();

    let guard = deserializer.deserialize(&json_str).unwrap();

    // The contents were deserialized in full.
    assert_eq!(guard.len(), 3);
    assert_eq!(
        guard.get("name").unwrap(),
        &Value::Str(CowStr::Borrowed("test"))
    );
    assert_eq!(
        guard.get("value").unwrap(),
        &Value::Number(Number::from_u64(42))
    );
    assert_eq!(
        guard.get("nested").unwrap(),
        &Value::Object(ObjectAsVec::from_entries(vec![(
            "key",
            Value::Str(CowStr::Borrowed("val"))
        )]))
    );

    // Handing the guard back releases the deserializer.
    deserializer.release(guard);

    // Deserialize again with a new guard.
    let guard2 = deserializer.deserialize(r#"{"another":"value"}"#).unwrap();
    assert_eq!(guard2.len(), 1);
    assert_eq!(
        guard2.get("another").unwrap(),
        &Value::Str(CowStr::Borrowed("value"))
    );
}

#[test]
fn test_invalid_json() {
    let invalid_json = r#"{{"name":"test", invalid}}"#.to_string();
    let mut deserializer = ReusableMap::new();

    let result = deserializer.deserialize(&invalid_json);
    assert!(
        result.is_err(),
        "Deserialization of invalid JSON should fail"
    );
}

#[test]
fn test_non_object_json() {
    let array_json = r#"[1, 2, 3]"#;
    let mut deserializer = ReusableMap::new();

    let result = deserializer.deserialize(array_json);
    assert!(
        result.is_err(),
        "Deserialization of JSON array should fail when expecting object"
    );
}

#[test]
fn second_parse_while_borrowed_is_refused() {
    let mut deserializer = ReusableMap::new();
    let text = r#"{"name":"test","value":42}"#;

    let guard = deserializer.deserialize(text).unwrap();
    assert!(guard.get("name").is_some());

    // The guard is still out: a second parse must fail loudly.
    let second = deserializer.deserialize(text);
    assert_eq!(second, Err(JsonError::Misuse));

    // After release the deserializer works again, and a failed parse leaves
    // it idle.
    deserializer.release(guard);
    assert_eq!(deserializer.deserialize("[1]"), Err(JsonError::TypeMismatch));
    assert_eq!(deserializer.deserialize("nope"), Err(JsonError::Parse));
    assert!(!JsonError::Misuse.describe().is_empty());
    assert!(!JsonError::Unsupported.describe().is_empty());
    let guard3 = deserializer.deserialize(text).unwrap();
    assert_eq!(guard3.len(), 2);
    assert!(!guard3.is_empty());
    assert_eq!(guard3.as_object().len(), 2);
}
