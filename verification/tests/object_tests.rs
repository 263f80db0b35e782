//! The vector-backed object: construction, lookup, iteration, insertion.

use serde_json_borrow::CowStr;
use serde_json_borrow::Number;
use serde_json_borrow::ObjectAsVec;
use serde_json_borrow::Value;

#[test]
fn test_empty_initialization() {
    let obj: ObjectAsVec = ObjectAsVec(Vec::new());
    assert!(obj.is_empty());
    assert_eq!(obj.len(), 0);
}

#[test]
fn test_initialization_from_vec() {
    let obj = ObjectAsVec::from_entries(vec![
        ("a", Value::Number(Number::from_u64(0))),
        ("b", Value::Number(Number::from_u64(1))),
        ("c", Value::Number(Number::from_u64(2))),
    ]);

    assert_eq!(obj.len(), 3);
    assert_eq!(obj.get("a"), Some(&Value::Number(Number::from_u64(0))));
    assert_eq!(obj.get("b"), Some(&Value::Number(Number::from_u64(1))));
    assert_eq!(obj.get("c"), Some(&Value::Number(Number::from_u64(2))));
}

#[test]
fn test_initialization_from_iter() {
    let names = "abcde";
    let entries: Vec<(&str, Value)> = (0usize..5)
        .map(|i| (&names[i..i + 1], Value::Number(Number::from_u64(i as u64))))
        .collect();

    let obj = ObjectAsVec::from_entries(entries);

    assert_eq!(obj.len(), 5);
    assert_eq!(obj.get("a"), Some(&Value::Number(Number::from_u64(0))));
    assert_eq!(obj.get("b"), Some(&Value::Number(Number::from_u64(1))));
    assert_eq!(obj.get("c"), Some(&Value::Number(Number::from_u64(2))));
    assert_eq!(obj.get("d"), Some(&Value::Number(Number::from_u64(3))));
    assert_eq!(obj.get("e"), Some(&Value::Number(Number::from_u64(4))));
}

#[test]
fn test_non_empty_initialization() {
    let obj = ObjectAsVec(vec![("key".into(), Value::Null)]);
    assert!(!obj.is_empty());
    assert_eq!(obj.len(), 1);
}

#[test]
fn test_get_existing_key() {
    let obj = ObjectAsVec(vec![("key".into(), Value::Bool(true))]);
    assert_eq!(obj.get("key"), Some(&Value::Bool(true)));
}

#[test]
fn test_get_non_existing_key() {
    let obj = ObjectAsVec(vec![("key".into(), Value::Bool(true))]);
    assert_eq!(obj.get("not_a_key"), None);
}

#[test]
fn test_get_key_value() {
    let obj = ObjectAsVec(vec![("key".into(), Value::Bool(true))]);
    assert_eq!(obj.get_key_value("key"), Some(("key", &Value::Bool(true))));
}

#[test]
fn test_keys_iterator() {
    let obj = ObjectAsVec(vec![
        ("key1".into(), Value::Null),
        ("key2".into(), Value::Bool(false)),
    ]);
    let keys: Vec<&str> = obj.keys();
    assert_eq!(keys, vec!["key1", "key2"]);
}

#[test]
fn test_values_iterator() {
    let obj = ObjectAsVec(vec![
        ("key1".into(), Value::Null),
        ("key2".into(), Value::Bool(true)),
    ]);
    let values: Vec<&Value> = obj.values();
    assert_eq!(values, vec![&Value::Null, &Value::Bool(true)]);
}

#[test]
fn test_iter() {
    let obj = ObjectAsVec(vec![
        ("key1".into(), Value::Null),
        ("key2".into(), Value::Bool(true)),
    ]);
    let pairs: Vec<(&str, &Value)> = obj.iter();
    assert_eq!(
        pairs,
        vec![("key1", &Value::Null), ("key2", &Value::Bool(true))]
    );
}

#[test]
fn test_into_vec() {
    let obj = ObjectAsVec(vec![("key".into(), Value::Null)]);
    let vec = obj.into_vec();
    assert_eq!(vec, vec![(CowStr::Borrowed("key"), Value::Null)]);
}

#[test]
fn test_contains_key() {
    let obj = ObjectAsVec(vec![("key".into(), Value::Bool(false))]);
    assert!(obj.contains_key("key"));
    assert!(!obj.contains_key("no_key"));
}

#[test]
fn test_insert_new() {
    let mut obj = ObjectAsVec::default();
    assert_eq!(
        obj.insert("key1", Value::Str(CowStr::Borrowed("value1"))),
        None
    );
    assert_eq!(obj.len(), 1);
    assert_eq!(obj.get("key1"), Some(&Value::Str(CowStr::Borrowed("value1"))));
}

#[test]
fn test_insert_update() {
    let mut obj = ObjectAsVec(vec![(
        "key1".into(),
        Value::Str(CowStr::Borrowed("old_value1")),
    )]);
    assert_eq!(
        obj.insert("key1", Value::Str(CowStr::Borrowed("new_value1"))),
        Some(Value::Str(CowStr::Borrowed("old_value1")))
    );
    assert_eq!(obj.len(), 1);
    assert_eq!(
        obj.get("key1"),
        Some(&Value::Str(CowStr::Borrowed("new_value1")))
    );
}

#[test]
fn test_insert_multiple_types() {
    let mut obj = ObjectAsVec::default();
    obj.insert("boolean", Value::Bool(true));
    obj.insert("number", Value::Number(Number::from_f64_bits((3.14f64).to_bits())));
    obj.insert("string", Value::Str(CowStr::Borrowed("Hello")));
    obj.insert("null", Value::Null);

    assert_eq!(
        obj.insert(
            "array",
            Value::Array(vec![Value::Number(Number::from_u64(1)), Value::Null])
        ),
        None
    );
    assert_eq!(obj.len(), 5);
    assert_eq!(obj.get("boolean"), Some(&Value::Bool(true)));
    assert_eq!(
        obj.get("number"),
        Some(&Value::Number(Number::from_f64_bits((3.14f64).to_bits())))
    );
    assert_eq!(obj.get("string"), Some(&Value::Str(CowStr::Borrowed("Hello"))));
    assert_eq!(obj.get("null"), Some(&Value::Null));
    assert_eq!(
        obj.get("array"),
        Some(&Value::Array(vec![
            Value::Number(Number::from_u64(1)),
            Value::Null
        ]))
    );
}

#[test]
fn test_get_entry() {
    let obj = ObjectAsVec::from_entries(vec![
        ("key1", Value::Number(Number::from_u64(42))),
        ("key2", Value::Bool(true)),
        ("key3", Value::Str(CowStr::Borrowed("value"))),
    ]);

    let entry = obj.get_entry("key2").unwrap();
    assert_eq!(entry.index, 1);
    assert_eq!(entry.key, "key2");
    assert_eq!(entry.value, &Value::Bool(true));

    // non-existing key
    assert!(obj.get_entry("nonexistent").is_none());
}

#[test]
fn test_get_key_value_at() {
    let obj = ObjectAsVec::from_entries(vec![
        ("key1", Value::Number(Number::from_u64(42))),
        ("key2", Value::Bool(true)),
        ("key3", Value::Str(CowStr::Borrowed("value"))),
    ]);

    // valid position
    let (key, value) = obj.get_key_value_at(2).unwrap();
    assert_eq!(key, "key3");
    assert_eq!(value, &Value::Str(CowStr::Borrowed("value")));

    // a position past the end gives nothing
    assert!(obj.get_key_value_at(3).is_none());
}

#[test]
fn test_entry_index_usage_with_enumerate_find() {
    let obj = ObjectAsVec::from_entries(vec![
        ("name", Value::Str(CowStr::Borrowed("John"))),
        ("age", Value::Number(Number::from_u64(30))),
        ("city", Value::Str(CowStr::Borrowed("New York"))),
    ]);

    let idx = obj
        .iter()
        .into_iter()
        .enumerate()
        .find(|(_, (key, _))| *key == "city")
        .map(|(idx, _)| idx)
        .unwrap();

    // ensure that the found entry matches the searched-for entry
    let (key, _value) = obj.get_key_value_at(idx).unwrap();
    assert_eq!(key, "city");
}

#[test]
fn get_mut_changes_one_value() {
    let mut obj = ObjectAsVec::from_entries(vec![
        ("a", Value::Number(Number::from_u64(1))),
        ("b", Value::Number(Number::from_u64(2))),
    ]);
    assert!(obj.get_mut("missing").is_none());
    let slot = obj.get_mut("b").unwrap();
    assert_eq!(*slot, Value::Number(Number::from_u64(2)));
    *slot = Value::Bool(true);
    assert_eq!(obj.get("b"), Some(&Value::Bool(true)));
    assert_eq!(obj.get("a"), Some(&Value::Number(Number::from_u64(1))));
    assert_eq!(obj.len(), 2);
}

#[test]
fn insert_or_get_mut_finds_or_appends() {
    let mut obj = ObjectAsVec::default();
    let slot = obj.insert_or_get_mut("k", Value::Number(Number::from_u64(7)));
    assert_eq!(*slot, Value::Number(Number::from_u64(7)));
    let slot = obj.insert_or_get_mut("k", Value::Null);
    assert_eq!(*slot, Value::Number(Number::from_u64(7)));
    *slot = Value::Bool(false);
    assert_eq!(obj.len(), 1);
    assert_eq!(obj.get("k"), Some(&Value::Bool(false)));
}

#[test]
fn insert_unchecked_appends_even_duplicates() {
    let mut obj = ObjectAsVec::default();
    let slot = obj.insert_unchecked_and_get_mut("k", Value::Null);
    *slot = Value::Bool(true);
    obj.insert_unchecked_and_get_mut("k", Value::Bool(false));
    assert_eq!(obj.len(), 2);
    // First match wins on lookup; both entries stay.
    assert_eq!(obj.get("k"), Some(&Value::Bool(true)));
    assert_eq!(obj.keys(), vec!["k", "k"]);
}

#[test]
fn clear_removes_everything() {
    let mut obj = ObjectAsVec(vec![("a".into(), Value::Null), ("b".into(), Value::Bool(true))]);
    obj.clear();
    assert!(obj.is_empty());
    assert_eq!(obj.get("a"), None);
}

#[test]
fn as_vec_exposes_entries() {
    let obj = ObjectAsVec::from_entries(vec![("k", Value::Null)]);
    assert_eq!(obj.as_vec().len(), 1);
    assert_eq!(obj.as_vec()[0].0, CowStr::Borrowed("k"));
    assert_eq!(obj.clone(), obj);
}
