use yoga_json::pretty::{reflow_compact, Yoga_JSON__unsafePrettyStringify};
use yoga_json::value::{purust_json_numbers_wf, JsNumber, JsValue};

fn u(s: &str) -> Vec<u16> {
    s.encode_utf16().collect()
}

fn pretty(spaces: i64, v: JsValue) -> String {
    String::from_utf16(&Yoga_JSON__unsafePrettyStringify(spaces, v)).unwrap()
}

fn sample() -> JsValue {
    JsValue::Object(vec![
        (u("a"), JsValue::Array(vec![JsValue::Int(1), JsValue::Int(2)])),
        (u("b"), JsValue::Object(vec![])),
        (u("c"), JsValue::Undefined),
    ])
}

#[test]
fn pretty_two_spaces() {
    assert_eq!(pretty(2, sample()), "{\n  \"a\": [\n    1,\n    2\n  ],\n  \"b\": {}\n}");
}

#[test]
fn pretty_without_spaces_is_compact() {
    assert_eq!(pretty(0, sample()), "{\"a\":[1,2],\"b\":{}}");
    assert_eq!(pretty(-3, sample()), "{\"a\":[1,2],\"b\":{}}");
}

#[test]
fn pretty_clamps_to_ten_spaces() {
    let v = JsValue::Array(vec![JsValue::Null]);
    assert_eq!(pretty(20, JsValue::Array(vec![JsValue::Null])), "[\n          null\n]");
    assert_eq!(pretty(20, JsValue::Array(vec![JsValue::Null])), pretty(10, v));
}

#[test]
fn pretty_keeps_strings_verbatim() {
    let v = JsValue::Object(vec![(u("k"), JsValue::Str(u("a,b:[c]{\"}")))]);
    assert_eq!(pretty(1, v), "{\n \"k\": \"a,b:[c]{\\\"}\"\n}");
}

#[test]
fn pretty_empty_containers_and_scalars() {
    assert_eq!(pretty(4, JsValue::Array(vec![])), "[]");
    assert_eq!(pretty(4, JsValue::Object(vec![])), "{}");
    assert_eq!(pretty(4, JsValue::Str(u("x"))), "\"x\"");
    let n = JsNumber { text: u("-1.25e-7"), finite: true, integral: None };
    assert_eq!(pretty(3, JsValue::Array(vec![JsValue::Number(n)])), "[\n   -1.25e-7\n]");
}

#[test]
fn pretty_nested_arrays() {
    let v = JsValue::Array(vec![JsValue::Array(vec![JsValue::Array(vec![])]), JsValue::Bool(true)]);
    assert_eq!(pretty(1, v), "[\n [\n  []\n ],\n true\n]");
}

#[test]
fn reflow_of_compact_text() {
    assert_eq!(reflow_compact(&u("  "), &u("{\"a\":[]}")), u("{\n  \"a\": []\n}"));
}

#[test]
fn numbers_well_formed() {
    let good = JsNumber { text: u("12"), finite: true, integral: Some(u("12")) };
    let bad_text = JsNumber { text: u("1,2"), finite: true, integral: None };
    let empty = JsNumber { text: u(""), finite: true, integral: None };
    let bad_digits = JsNumber { text: u("1"), finite: true, integral: Some(u("1x")) };
    let nan = JsNumber { text: u("NaN"), finite: false, integral: None };
    let nan_digits = JsNumber { text: u("NaN"), finite: false, integral: Some(u("0")) };
    assert!(good.well_formed());
    assert!(JsNumber { text: u("-0"), finite: true, integral: Some(u("-0")) }.well_formed());
    assert!(!bad_text.well_formed());
    assert!(!empty.well_formed());
    assert!(!bad_digits.well_formed());
    assert!(!JsNumber { text: u("1"), finite: true, integral: Some(u("-")) }.well_formed());
    assert!(nan.well_formed());
    assert!(!nan_digits.well_formed());
    assert!(purust_json_numbers_wf(&JsValue::Array(vec![JsValue::Number(good)])));
    assert!(!purust_json_numbers_wf(&JsValue::Record(vec![(u("a"), JsValue::Number(bad_text))])));
}
