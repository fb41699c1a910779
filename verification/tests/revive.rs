use yoga_json::bigint::JsBigInt;
use yoga_json::revive::{purust_json_bigint, purust_json_bigint_string, purust_json_bigint_whitespace, purust_json_revive};
use yoga_json::value::{ErrorName, JsNumber, JsValue, JsonError};

fn u(s: &str) -> Vec<u16> {
    s.encode_utf16().collect()
}

fn decimal(v: &JsValue) -> String {
    match v {
        JsValue::BigInt(b) => String::from_utf16(&b.to_decimal()).unwrap(),
        other => panic!("not a BigInt: {:?}", other),
    }
}

fn bigint(v: JsValue) -> Result<String, (ErrorName, String)> {
    match purust_json_bigint(&v) {
        Ok(w) => Ok(decimal(&w)),
        Err(e) => Err((e.name, String::from_utf16(&e.message).unwrap())),
    }
}

fn of_str(s: &str) -> Result<String, (ErrorName, String)> {
    bigint(JsValue::Str(u(s)))
}

fn err(name: ErrorName, message: &str) -> Result<String, (ErrorName, String)> {
    Err((name, message.to_string()))
}

const NOT_A_STRING: &str = "Cannot convert string to a BigInt";

#[test]
fn bigint_of_strings() {
    assert_eq!(of_str("123"), Ok("123".to_string()));
    assert_eq!(of_str(" -12 "), Ok("-12".to_string()));
    assert_eq!(of_str("+7"), Ok("7".to_string()));
    assert_eq!(of_str("007"), Ok("7".to_string()));
    assert_eq!(of_str(""), Ok("0".to_string()));
    assert_eq!(of_str(" \n\t "), Ok("0".to_string()));
    assert_eq!(of_str("-0"), Ok("0".to_string()));
    assert_eq!(of_str("123456789012345678901234567890"), Ok("123456789012345678901234567890".to_string()));
}

#[test]
fn bigint_of_prefixed_strings() {
    assert_eq!(of_str("0x1F"), Ok("31".to_string()));
    assert_eq!(of_str("0X1f"), Ok("31".to_string()));
    assert_eq!(of_str("0b101"), Ok("5".to_string()));
    assert_eq!(of_str("0o17"), Ok("15".to_string()));
    assert_eq!(of_str("\u{a0}0x10\u{feff}"), Ok("16".to_string()));
}

#[test]
fn bigint_of_bad_strings() {
    assert_eq!(of_str("1.5"), err(ErrorName::SyntaxError, NOT_A_STRING));
    assert_eq!(of_str("12a"), err(ErrorName::SyntaxError, NOT_A_STRING));
    assert_eq!(of_str("-0x1"), err(ErrorName::SyntaxError, NOT_A_STRING));
    assert_eq!(of_str("0x"), err(ErrorName::SyntaxError, NOT_A_STRING));
    assert_eq!(of_str("0b2"), err(ErrorName::SyntaxError, NOT_A_STRING));
    assert_eq!(of_str("-"), err(ErrorName::SyntaxError, NOT_A_STRING));
    assert_eq!(of_str("1 2"), err(ErrorName::SyntaxError, NOT_A_STRING));
}

#[test]
fn bigint_of_other_values() {
    assert_eq!(bigint(JsValue::Null), err(ErrorName::TypeError, "Cannot convert null to a BigInt"));
    assert_eq!(bigint(JsValue::Bool(true)), Ok("1".to_string()));
    assert_eq!(bigint(JsValue::Bool(false)), Ok("0".to_string()));
    let three = JsNumber { text: u("-3"), finite: true, integral: Some(u("-3")) };
    assert_eq!(bigint(JsValue::Number(three)), Ok("-3".to_string()));
    let half = JsNumber { text: u("0.5"), finite: true, integral: None };
    assert_eq!(
        bigint(JsValue::Number(half)),
        err(ErrorName::RangeError, "The number cannot be converted to a BigInt because it is not an integer")
    );
    let five = JsValue::BigInt(JsBigInt::from_radix_units(true, &u("5"), 10));
    assert_eq!(bigint(five), Ok("-5".to_string()));
}

#[test]
fn bigint_of_arrays_and_objects() {
    assert_eq!(bigint(JsValue::Array(vec![])), Ok("0".to_string()));
    assert_eq!(bigint(JsValue::Array(vec![JsValue::Str(u("12"))])), Ok("12".to_string()));
    assert_eq!(
        bigint(JsValue::Array(vec![JsValue::Str(u("1")), JsValue::Str(u("2"))])),
        err(ErrorName::SyntaxError, NOT_A_STRING)
    );
    assert_eq!(bigint(JsValue::Object(vec![])), err(ErrorName::SyntaxError, NOT_A_STRING));
    assert_eq!(
        bigint(JsValue::Object(vec![(u("toString"), JsValue::Null)])),
        err(ErrorName::TypeError, "Cannot convert object to primitive value")
    );
}

#[test]
fn bigint_string_texts() {
    let text = |v: JsValue| String::from_utf16(&purust_json_bigint_string(&v).unwrap()).unwrap();
    assert_eq!(text(JsValue::Null), "");
    assert_eq!(text(JsValue::Bool(true)), "true");
    assert_eq!(text(JsValue::Number(JsNumber { text: u("1e21"), finite: true, integral: None })), "1e21");
    assert_eq!(
        text(JsValue::Array(vec![JsValue::Null, JsValue::Array(vec![JsValue::Str(u("a")), JsValue::Bool(false)])])),
        ",a,false"
    );
    assert_eq!(text(JsValue::Object(vec![(u("a"), JsValue::Null)])), "[object Object]");
}

#[test]
fn bigint_whitespace_units() {
    for c in [0x9u16, 0xa, 0xd, 0x20, 0xa0, 0x1680, 0x2000, 0x200a, 0x2028, 0x2029, 0x202f, 0x205f, 0x3000, 0xfeff] {
        assert!(purust_json_bigint_whitespace(c), "{:x}", c);
    }
    for c in [0x8u16, 0x41, 0x200b, 0x85, 0xfffe] {
        assert!(!purust_json_bigint_whitespace(c), "{:x}", c);
    }
}

fn revive(v: JsValue) -> Result<JsValue, JsonError> {
    purust_json_revive(v)
}

#[test]
fn revive_converts_big_members() {
    let v = JsValue::Object(vec![(u("big"), JsValue::Str(u("123"))), (u("small"), JsValue::Str(u("4")))]);
    let r = revive(v).unwrap();
    match r {
        JsValue::Object(fs) => {
            assert_eq!(fs[0].0, u("big"));
            assert_eq!(decimal(&fs[0].1), "123");
            assert_eq!(fs[1], (u("small"), JsValue::Str(u("4"))));
        },
        other => panic!("{:?}", other),
    }
}

#[test]
fn revive_leaves_values_without_big_alone() {
    let v = JsValue::Array(vec![JsValue::Object(vec![(u("a"), JsValue::Str(u("1")))]), JsValue::Null]);
    let same = JsValue::Array(vec![JsValue::Object(vec![(u("a"), JsValue::Str(u("1")))]), JsValue::Null]);
    assert_eq!(revive(v), Ok(same));
    assert_eq!(revive(JsValue::Str(u("5"))), Ok(JsValue::Str(u("5"))));
}

#[test]
fn revive_nested_big_members_children_first() {
    let v = JsValue::Array(vec![JsValue::Object(vec![(
        u("a"),
        JsValue::Object(vec![(u("big"), JsValue::Bool(true))]),
    )])]);
    let r = revive(v).unwrap();
    let JsValue::Array(items) = r else { panic!() };
    let JsValue::Object(outer) = &items[0] else { panic!() };
    let JsValue::Object(inner) = &outer[0].1 else { panic!() };
    assert_eq!(decimal(&inner[0].1), "1");
    let v = JsValue::Object(vec![(u("big"), JsValue::Object(vec![(u("big"), JsValue::Str(u("1")))]))]);
    let e = revive(v).unwrap_err();
    assert_eq!(e.name, ErrorName::SyntaxError);
    assert_eq!(e.message, u(NOT_A_STRING));
}

#[test]
fn revive_first_error_wins() {
    let v = JsValue::Object(vec![
        (u("a"), JsValue::Object(vec![(u("big"), JsValue::Null)])),
        (u("big"), JsValue::Str(u("x"))),
    ]);
    let e = revive(v).unwrap_err();
    assert_eq!(e.name, ErrorName::TypeError);
    assert_eq!(e.message, u("Cannot convert null to a BigInt"));
}

#[test]
fn revive_array_big_values() {
    let v = JsValue::Object(vec![(u("big"), JsValue::Array(vec![JsValue::Str(u(" 0x10 "))]))]);
    let r = revive(v).unwrap();
    let JsValue::Object(fs) = r else { panic!() };
    assert_eq!(decimal(&fs[0].1), "16");
}
