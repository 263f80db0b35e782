//! The owned buffer-plus-tree unit: construction, reads, moves, clones.

use serde_json_borrow::JsonError;
use serde_json_borrow::Number;
use serde_json_borrow::OwnedValue;
use serde_json_borrow::Value;

#[test]
fn owned_test_deref_access() {
    let raw_json = r#"{"name": "John", "age": 30}"#;
    let owned_value = OwnedValue::from_string(raw_json.to_string()).unwrap();

    assert_eq!(owned_value.get("name"), Value::Str("John".into()));
    assert_eq!(owned_value.get("age"), Value::Number(Number::from_u64(30)));
}

#[test]
fn ownedvalue_test_deref_access() {
    let raw_json = r#"{"name": "John", "age": 30}"#;
    let owned_value = OwnedValue::from_string(raw_json.to_string()).unwrap();

    assert_eq!(owned_value.get("name"), Value::Str("John".into()));
    assert_eq!(owned_value.get("age"), Value::Number(Number::from_u64(30)));
}

#[test]
fn test_deref_clone() {
    let raw_json = r#"{"name": "John", "age": 30}"#;
    let owned_value = OwnedValue::from_string(raw_json.to_string()).unwrap();
    let owned_value = owned_value.clone();

    assert_eq!(owned_value.get("name"), Value::Str("John".into()));
    assert_eq!(owned_value.get("age"), Value::Number(Number::from_u64(30)));
}

fn build_elsewhere() -> OwnedValue {
    let text = String::from("{\"name\":\"John\",\"age\":30}");
    OwnedValue::from_string(text).unwrap()
}

#[test]
fn moved_instance_stays_readable() {
    // Built in another function whose locals are gone, then moved again into
    // a box: the unit carries its buffer with it.
    let ov = build_elsewhere();
    let boxed = Box::new(ov);
    assert_eq!(boxed.get("name"), Value::Str("John".into()));
    assert_eq!(boxed.get("age"), Value::Number(Number::from_u64(30)));
}

#[test]
fn from_slice_and_from_str() {
    let ov = OwnedValue::from_slice(b"{\"k\":true}").unwrap();
    assert_eq!(ov.get("k"), Value::Bool(true));
    assert_eq!(ov.get_value().get("k"), Value::Bool(true));

    let ov = OwnedValue::from_str("[1,2]").unwrap();
    assert_eq!(ov.get(1usize), Value::Number(Number::from_u64(2)));

    let ov = OwnedValue::parse_from(String::from("3")).unwrap();
    assert_eq!(ov.get_value(), &Value::Number(Number::from_u64(3)));

    assert_eq!(
        OwnedValue::from_slice(&[0x22, 0xff, 0x22]),
        Err(JsonError::Encoding)
    );
    assert_eq!(OwnedValue::from_str("{"), Err(JsonError::Parse));
}
