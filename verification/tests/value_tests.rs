//! Value and Number behavior: encodings, accessors, indexing with the Null
//! sentinel, and number equality and hashing.

use std::hash::DefaultHasher;
use std::hash::Hash;
use std::hash::Hasher;

use serde_json_borrow::parse_json;
use serde_json_borrow::CowStr;
use serde_json_borrow::Number;
use serde_json_borrow::Value;

fn hash_of(n: &Number) -> u64 {
    let mut h = DefaultHasher::new();
    n.hash(&mut h);
    h.finish()
}

#[test]
fn number_test() {
    let data = r#"{"val1": 123.5, "val2": 123, "val3": -123}"#;
    let value: Value = parse_json(data).unwrap();
    assert!(value.get("val1").is_f64());
    assert!(!value.get("val1").is_u64());
    assert!(!value.get("val1").is_i64());

    assert!(!value.get("val2").is_f64());
    assert!(value.get("val2").is_u64());
    assert!(value.get("val2").is_i64());

    assert!(!value.get("val3").is_f64());
    assert!(!value.get("val3").is_u64());
    assert!(value.get("val3").is_i64());

    assert!(value.get("val1").as_f64().is_some());
    assert!(value.get("val2").as_f64().is_some());
    assert!(value.get("val3").as_f64().is_some());

    assert!(value.get("val1").as_u64().is_none());
    assert!(value.get("val2").as_u64().is_some());
    assert!(value.get("val3").as_u64().is_none());

    assert!(value.get("val1").as_i64().is_none());
    assert!(value.get("val2").as_i64().is_some());
    assert!(value.get("val3").as_i64().is_some());
}

#[test]
fn number_encodings_are_disjoint() {
    assert_ne!(
        Number::from_u64(5),
        Number::from_f64_bits((5.0f64).to_bits())
    );
    assert_ne!(
        Number::from_i64(-5),
        Number::from_f64_bits((-5.0f64).to_bits())
    );
    assert_ne!(Number::from_u64(5), Number::from_i64(-5));
}

#[test]
fn zero_hashes_match_across_signs() {
    let pos = Number::from_f64_bits((0.0f64).to_bits());
    let neg = Number::from_f64_bits((-0.0f64).to_bits());
    assert_eq!(pos, neg);
    assert_eq!(hash_of(&pos), hash_of(&neg));
}

#[test]
fn widening_matches_casts() {
    assert_eq!(Number::from_u64(123).as_f64(), Some((123.0f64).to_bits()));
    assert_eq!(Number::from_i64(-123).as_f64(), Some((-123.0f64).to_bits()));
    assert_eq!(
        Number::from_u64(u64::MAX).as_f64(),
        Some((u64::MAX as f64).to_bits())
    );
    assert_eq!(
        Number::from_i64(i64::MIN).as_f64(),
        Some((i64::MIN as f64).to_bits())
    );
    assert_eq!(Number::from_u64(7).as_u64(), Some(7));
    assert_eq!(Number::from_u64(7).as_i64(), Some(7));
    assert_eq!(Number::from_u64(u64::MAX).as_i64(), None);
    assert_eq!(Number::from_i64(-1).as_u64(), None);
}

#[test]
fn sentinel_on_miss() {
    let json_obj = r#"
    {
        "x": {
            "y": ["z", "zz"]
        }
    }
    "#;

    let data: Value = parse_json(json_obj).unwrap();

    assert_eq!(data.get("x").get("y").get(0usize), Value::Str("z".into()));
    assert_eq!(data.get("x").get("y").get(1usize), Value::Str("zz".into()));
    assert_eq!(data.get("x").get("y").get(2usize), Value::Null);

    assert_eq!(data.get("a"), Value::Null);
    assert_eq!(data.get("a").get("b"), Value::Null);
    assert_eq!(data.get(0usize), Value::Null);
    assert_eq!(Value::Bool(true).get("k"), Value::Null);
}

#[test]
fn predicates_and_accessors() {
    assert!(Value::Null.is_null());
    assert!(Value::Bool(false).is_bool());
    assert!(Value::Number(Number::from_u64(1)).is_number());
    assert!(Value::Str(CowStr::Owned(String::from("s"))).is_string());
    assert!(Value::Array(vec![]).is_array());
    assert!(!Value::Array(vec![]).is_object());

    assert_eq!(Value::Bool(true).as_bool(), Some(true));
    assert_eq!(Value::Null.as_bool(), None);
    assert_eq!(Value::Str("hi".into()).as_str(), Some("hi"));
    assert_eq!(Value::Null.as_str(), None);
    assert_eq!(Value::Null.as_array(), None);
    assert_eq!(Value::Null.as_object(), None);
    assert_eq!(Value::default(), Value::Null);
}

#[test]
fn iteration_views() {
    let v = parse_json(r#"{"a":1,"b":[true,null]}"#).unwrap();
    let entries = v.iter_object().unwrap();
    assert_eq!(entries.len(), 2);
    assert_eq!(entries[0].0, "a");
    assert_eq!(entries[1].0, "b");
    assert!(v.iter_array().is_none());

    let arr = v.get("b");
    let elems = arr.iter_array().unwrap();
    assert_eq!(elems.len(), 2);
    assert_eq!(elems[0], &Value::Bool(true));
    assert_eq!(elems[1], &Value::Null);
    assert!(arr.iter_object().is_none());
}

#[test]
fn typed_re_deserialization() {
    // An array of three non-negative integers converts to a sequence of
    // unsigned integers through the typed accessors.
    let v = parse_json("[1,2,3]").unwrap();
    let nums: Vec<u64> = v
        .iter_array()
        .unwrap()
        .iter()
        .map(|e| e.as_u64().unwrap())
        .collect();
    assert_eq!(nums, vec![1, 2, 3]);
}

#[test]
fn clone_preserves_content_and_borrowing() {
    let v = parse_json(r#"{"k":"plain"}"#).unwrap();
    let w = v.clone();
    assert_eq!(v, w);
    match w.as_object().unwrap().get("k").unwrap() {
        Value::Str(s) => assert!(s.is_borrowed()),
        _ => panic!("expected a string"),
    }
}
