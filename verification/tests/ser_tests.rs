//! Serialization: canonical text and the parse/serialize round trip.

use serde_json_borrow::parse_json;
use serde_json_borrow::CowStr;
use serde_json_borrow::Number;
use serde_json_borrow::Value;

#[test]
fn serialize_json_test() {
    let json_obj =
        r#"{"bool":true,"string_key":"string_val","float":1.23,"i64":-123,"u64":123}"#;

    let val1: Value = parse_json(json_obj).unwrap();
    let deser1: String = val1.to_json_string();
    assert_eq!(deser1, json_obj);
}

#[test]
fn scalars_serialize_canonically() {
    assert_eq!(Value::Null.to_json_string(), "null");
    assert_eq!(Value::Bool(true).to_json_string(), "true");
    assert_eq!(Value::Bool(false).to_json_string(), "false");
    assert_eq!(Value::Number(Number::from_u64(0)).to_json_string(), "0");
    assert_eq!(
        Value::Number(Number::from_u64(u64::MAX)).to_json_string(),
        "18446744073709551615"
    );
    assert_eq!(
        Value::Number(Number::from_i64(i64::MIN)).to_json_string(),
        "-9223372036854775808"
    );
    assert_eq!(
        Value::Number(Number::from_f64_bits((5.0f64).to_bits())).to_json_string(),
        "5.0"
    );
    assert_eq!(
        Value::Number(Number::from_f64_bits((1.23f64).to_bits())).to_json_string(),
        "1.23"
    );
}

#[test]
fn strings_escape_on_output() {
    let v = Value::Str(CowStr::Owned(String::from("a\"b\\c\nd\te\u{8}\u{c}\r\u{1}")));
    assert_eq!(v.to_json_string(), r#""a\"b\\c\nd\te\b\f\r\u0001""#);
}

#[test]
fn containers_keep_order_and_duplicates() {
    let v = parse_json(r#"{ "b" : 2 , "a" : 1 , "b" : 3 }"#).unwrap();
    assert_eq!(v.to_json_string(), r#"{"b":2,"a":1,"b":3}"#);

    let v = parse_json("[ 1 , [ ] , { } , \"x\" ]").unwrap();
    assert_eq!(v.to_json_string(), r#"[1,[],{},"x"]"#);
}

#[test]
fn tiny_and_huge_doubles_keep_their_bits() {
    // The smallest subnormal, a mid-range subnormal, the smallest normal and
    // the largest finite double must all survive formatting bit-for-bit.
    for f in [5e-324f64, 8.5e-310f64, f64::MIN_POSITIVE, f64::MAX, -5e-324f64] {
        let v = Value::Number(Number::from_f64_bits(f.to_bits()));
        let text = v.to_json_string();
        let back = parse_json(&text).unwrap();
        assert_eq!(back.as_f64(), Some(f.to_bits()), "through text: {}", text);
    }
    assert_eq!(
        Value::Number(Number::from_f64_bits((5e-324f64).to_bits())).to_json_string(),
        "5e-324"
    );
}

#[test]
fn round_trip_reparses_to_equal_tree() {
    for text in [
        "null",
        "true",
        "[]",
        "{}",
        r#"{"name":"John","age":30,"tags":["a","b"],"nested":{"k":null}}"#,
        r#"["esc\"aped",1.5,-7,18446744073709551615,1e300,-2.5e-3]"#,
        "\"\\ud834\\udd1e plain\"",
        "-0.0",
        "5e-324",
        "-5e-324",
        "8.5e-310",
        "2.2250738585072014e-308",
        "1.7976931348623157e308",
        "-4.9406564584124654e-324",
    ] {
        let first = parse_json(text).unwrap();
        let emitted = first.to_json_string();
        let second = parse_json(&emitted).unwrap();
        assert_eq!(first, second, "round trip through: {}", emitted);
        // A second pass is already a fixed point.
        assert_eq!(second.to_json_string(), emitted);
    }
}
