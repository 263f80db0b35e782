//! Parsing behavior: scalar and nested values, borrow-versus-copy decisions,
//! escape decoding, and rejection of malformed text.

use serde_json_borrow::parse_json;
use serde_json_borrow::CowStr;
use serde_json_borrow::JsonError;
use serde_json_borrow::Number;
use serde_json_borrow::Value;

#[test]
fn deserialize_json_test() {
    let json_obj = r#"
            {
                "bool": true,
                "string_key": "string_val",
                "float": 1.23,
                "i64": -123,
                "u64": 123
            }
       "#;

    let val: Value = parse_json(json_obj).unwrap();
    assert_eq!(val.get("bool"), Value::Bool(true));
    assert_eq!(
        val.get("string_key"),
        Value::Str(CowStr::Borrowed("string_val"))
    );
    assert_eq!(
        val.get("float"),
        Value::Number(Number::from_f64_bits((1.23f64).to_bits()))
    );
    assert_eq!(val.get("i64"), Value::Number(Number::from_i64(-123)));
    assert_eq!(val.get("u64"), Value::Number(Number::from_u64(123)));
}

#[test]
fn deserialize_json_allow_escaped_strings_in_values() {
    let json_obj = r#"
            {
                "bool": true,
                "string_key": "string\"_val",
                "u64": 123
            }
       "#;

    let val: Value = parse_json(json_obj).unwrap();
    assert_eq!(val.get("bool"), Value::Bool(true));
    assert_eq!(
        val.get("string_key"),
        Value::Str(CowStr::Borrowed("string\"_val"))
    );
}

#[test]
fn plain_string_borrows_escaped_string_owns() {
    let val = parse_json(r#"{"k":"plain"}"#).unwrap();
    let obj = val.as_object().unwrap();
    match obj.get("k").unwrap() {
        Value::Str(s) => {
            assert!(s.is_borrowed());
            assert_eq!(s.as_str(), "plain");
        }
        _ => panic!("expected a string"),
    }

    let val = parse_json(r#"{"k":"esc\"aped"}"#).unwrap();
    let obj = val.as_object().unwrap();
    match obj.get("k").unwrap() {
        Value::Str(s) => {
            assert!(!s.is_borrowed());
            assert_eq!(s.as_str(), "esc\"aped");
        }
        _ => panic!("expected a string"),
    }
}

#[test]
fn unicode_escapes_decode() {
    let val = parse_json("\"aA\\u00e9\\ud834\\udd1e\\n\\t\\/\"").unwrap();
    assert_eq!(val.as_str(), Some("aA\u{e9}\u{1d11e}\n\t/"));

    // A lone surrogate is malformed.
    assert_eq!(parse_json("\"\\ud834\""), Err(JsonError::Parse));
}

#[test]
fn numbers_take_their_encoding() {
    let v = parse_json("18446744073709551615").unwrap();
    assert_eq!(v.as_u64(), Some(u64::MAX));
    assert!(v.is_u64());

    let v = parse_json("-9223372036854775808").unwrap();
    assert_eq!(v.as_i64(), Some(i64::MIN));
    assert!(v.is_i64() && !v.is_u64());

    // Too large for u64: falls back to the float encoding.
    let v = parse_json("18446744073709551616").unwrap();
    assert!(v.is_f64());
    assert_eq!(v.as_f64(), Some((18446744073709551616.0f64).to_bits()));

    // Negative zero normalizes to positive zero.
    let v = parse_json("-0").unwrap();
    assert!(v.is_f64());
    assert_eq!(v.as_f64(), Some(0.0f64.to_bits()));

    let v = parse_json("2.5e3").unwrap();
    assert_eq!(v.as_f64(), Some((2500.0f64).to_bits()));
}

#[test]
fn malformed_text_is_rejected() {
    for bad in [
        "",
        "{",
        "[1,]",
        "[1 2]",
        "{\"a\":}",
        "{\"a\" 1}",
        "nul",
        "tru",
        "01",
        "1.",
        ".5",
        "+1",
        "\"unterminated",
        "\"bad\\q\"",
        "{\"a\":1,}",
        "[1] trailing",
        "1e",
        "1e999",
    ] {
        assert_eq!(parse_json(bad), Err(JsonError::Parse), "input: {}", bad);
    }
}

#[test]
fn whitespace_and_nesting() {
    let v = parse_json(" \t\r\n [ [ ] , { } , null ] ").unwrap();
    let arr = v.as_array().unwrap();
    assert_eq!(arr.len(), 3);
    assert_eq!(v.get(0usize), Value::Array(Vec::new()));
    assert!(v.get(1usize).is_object());
    assert!(v.get(2usize).is_null());
}

#[test]
fn duplicate_keys_are_kept_first_match_wins() {
    let v = parse_json(r#"{"k":1,"k":2}"#).unwrap();
    let obj = v.as_object().unwrap();
    assert_eq!(obj.len(), 2);
    assert_eq!(v.get("k"), Value::Number(Number::from_u64(1)));
}
