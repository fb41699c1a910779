use yoga_json::bigint::JsBigInt;
use yoga_json::stringify::{purust_json_fields, purust_json_quote, purust_json_stringifiable, Yoga_JSON__unsafeStringify};
use yoga_json::value::{purust_json_omitted, JsNumber, JsValue, Yoga_JSON__undefined};

fn u(s: &str) -> Vec<u16> {
    s.encode_utf16().collect()
}

fn text(units: Vec<u16>) -> String {
    String::from_utf16(&units).unwrap()
}

fn finite(t: &str) -> JsNumber {
    JsNumber { text: u(t), finite: true, integral: None }
}

fn big(digits: &str, negative: bool) -> JsBigInt {
    JsBigInt::from_radix_units(negative, &u(digits), 10)
}

fn stringify(v: JsValue) -> String {
    text(Yoga_JSON__unsafeStringify(v))
}

#[test]
fn stringify_scalars() {
    assert_eq!(stringify(JsValue::Null), "null");
    assert_eq!(stringify(JsValue::Bool(true)), "true");
    assert_eq!(stringify(JsValue::Bool(false)), "false");
    assert_eq!(stringify(JsValue::Int(-42)), "-42");
    assert_eq!(stringify(JsValue::Int(i64::MIN)), "-9223372036854775808");
    assert_eq!(stringify(JsValue::Number(finite("1.5"))), "1.5");
    assert_eq!(stringify(JsValue::Number(finite("1e21"))), "1e21");
}

#[test]
fn stringify_non_finite_number_is_null() {
    let nan = JsNumber { text: u("NaN"), finite: false, integral: None };
    let inf = JsNumber { text: u("-Infinity"), finite: false, integral: None };
    assert_eq!(stringify(JsValue::Number(nan)), "null");
    assert_eq!(stringify(JsValue::Number(inf)), "null");
}

#[test]
fn stringify_string_escapes() {
    assert_eq!(stringify(JsValue::Str(u("a\"b\\c"))), "\"a\\\"b\\\\c\"");
    assert_eq!(stringify(JsValue::Str(u("\u{8}\t\n\u{c}\r"))), "\"\\b\\t\\n\\f\\r\"");
    assert_eq!(stringify(JsValue::Str(u("\u{1}\u{1f}"))), "\"\\u0001\\u001f\"");
    assert_eq!(stringify(JsValue::Str(u("/é\u{7f}"))), "\"/é\u{7f}\"");
}

#[test]
fn stringify_surrogates() {
    assert_eq!(Yoga_JSON__unsafeStringify(JsValue::Str(vec![0xd800])), u("\"\\ud800\""));
    assert_eq!(Yoga_JSON__unsafeStringify(JsValue::Str(vec![0xdc00, 0x41])), u("\"\\udc00A\""));
    assert_eq!(Yoga_JSON__unsafeStringify(JsValue::Str(vec![0xd800, 0xd800])), u("\"\\ud800\\ud800\""));
    assert_eq!(Yoga_JSON__unsafeStringify(JsValue::Str(vec![0xd83d, 0xde00])), vec![34, 0xd83d, 0xde00, 34]);
}

#[test]
fn quote_units() {
    assert_eq!(purust_json_quote(&u("")), u("\"\""));
    assert_eq!(purust_json_quote(&[0xdbff, 0xdfff, 0xdfff]), vec![34, 0xdbff, 0xdfff, 92, 117, 100, 102, 102, 102, 34]);
}

#[test]
fn stringify_char_and_bigint() {
    assert_eq!(stringify(JsValue::Char('é')), "\"é\"");
    assert_eq!(stringify(JsValue::Char('"')), "\"\\\"\"");
    assert_eq!(stringify(JsValue::Char('😀')), "\"😀\"");
    assert_eq!(stringify(JsValue::BigInt(big("123", false))), "\"123\"");
    assert_eq!(stringify(JsValue::BigInt(big("5", true))), "\"-5\"");
}

#[test]
fn stringify_array_omits_as_null() {
    let v = JsValue::Array(vec![JsValue::Int(1), JsValue::Undefined, JsValue::Function, JsValue::Null]);
    assert_eq!(stringify(v), "[1,null,null,null]");
    assert_eq!(stringify(JsValue::Array(vec![])), "[]");
}

#[test]
fn stringify_object_leaves_out_omitted_members() {
    let v = JsValue::Object(vec![
        (u("a"), JsValue::Int(1)),
        (u("b"), JsValue::Undefined),
        (u("c"), JsValue::Str(u("x"))),
        (u("d"), JsValue::Function),
    ]);
    assert_eq!(stringify(v), "{\"a\":1,\"c\":\"x\"}");
    let first_omitted = JsValue::Record(vec![(u("a"), Yoga_JSON__undefined()), (u("b"), JsValue::Int(2))]);
    assert_eq!(stringify(first_omitted), "{\"b\":2}");
    assert_eq!(stringify(JsValue::Object(vec![(u("x"), JsValue::Undefined)])), "{}");
    assert_eq!(stringify(JsValue::Record(vec![])), "{}");
}

#[test]
fn stringify_nested() {
    let v = JsValue::Object(vec![
        (u("k\"ey"), JsValue::Array(vec![JsValue::Object(vec![]), JsValue::Array(vec![JsValue::Bool(true)])])),
        (u("n"), JsValue::Null),
    ]);
    assert_eq!(stringify(v), "{\"k\\\"ey\":[{},[true]],\"n\":null}");
}

#[test]
fn fields_of_record() {
    let fields = vec![(u("x"), JsValue::Int(3)), (u("y"), JsValue::Function)];
    assert_eq!(text(purust_json_fields(&fields)), "{\"x\":3}");
}

#[test]
fn omitted_values() {
    assert!(purust_json_omitted(&JsValue::Undefined));
    assert!(purust_json_omitted(&JsValue::Function));
    assert!(!purust_json_omitted(&JsValue::Null));
    assert!(purust_json_omitted(&Yoga_JSON__undefined()));
    assert_eq!(Yoga_JSON__undefined(), JsValue::Undefined);
}

#[test]
fn stringifiable_values() {
    assert!(purust_json_stringifiable(&JsValue::Null));
    assert!(!purust_json_stringifiable(&JsValue::Undefined));
    assert!(!purust_json_stringifiable(&JsValue::Native));
    assert!(!purust_json_stringifiable(&JsValue::Other));
    assert!(purust_json_stringifiable(&JsValue::Array(vec![JsValue::Undefined])));
    assert!(!purust_json_stringifiable(&JsValue::Array(vec![JsValue::Native])));
    assert!(purust_json_stringifiable(&JsValue::Object(vec![(u("a"), JsValue::Function)])));
    assert!(!purust_json_stringifiable(&JsValue::Record(vec![(u("a"), JsValue::Other)])));
}
