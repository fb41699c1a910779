use yoga_json::decode::{purust_json_decode, purust_json_spellings};
use yoga_json::parser::{JsonTree, PurustJsonParser};
use yoga_json::pretty::Yoga_JSON__unsafePrettyStringify;
use yoga_json::stringify::Yoga_JSON__unsafeStringify;
use yoga_json::bigint::JsBigInt;
use yoga_json::value::{JsNumber, JsValue};

fn u(s: &str) -> Vec<u16> {
    s.encode_utf16().collect()
}

fn reparse(v: JsValue) -> JsonTree {
    PurustJsonParser::new(Yoga_JSON__unsafeStringify(v)).parse().unwrap()
}

#[test]
fn stringify_then_parse_gives_the_tree_back() {
    let v = JsValue::Object(vec![
        (u("s"), JsValue::Str(vec![0xd800, 0x22, 0x5c, 0x0a, 0x1f, 0xd83d, 0xde00, 0xdfff])),
        (u("n"), JsValue::Number(JsNumber { text: u("-1.5e-7"), finite: true, integral: None })),
        (u("inf"), JsValue::Number(JsNumber { text: u("Infinity"), finite: false, integral: None })),
        (u("i"), JsValue::Int(-12)),
        (u("c"), JsValue::Char('\u{7}')),
        (u("b"), JsValue::BigInt(JsBigInt::from_radix_units(false, &u("99"), 10))),
        (u("gone"), JsValue::Undefined),
        (u("a"), JsValue::Array(vec![JsValue::Function, JsValue::Bool(true), JsValue::Array(vec![])])),
    ]);
    let expected = JsonTree::Object(vec![
        (u("s"), JsonTree::Str(vec![0xd800, 0x22, 0x5c, 0x0a, 0x1f, 0xd83d, 0xde00, 0xdfff])),
        (u("n"), JsonTree::Number(u("-1.5e-7"))),
        (u("inf"), JsonTree::Null),
        (u("i"), JsonTree::Number(u("-12"))),
        (u("c"), JsonTree::Str(vec![7])),
        (u("b"), JsonTree::Str(u("99"))),
        (u("a"), JsonTree::Array(vec![JsonTree::Null, JsonTree::Bool(true), JsonTree::Array(vec![])])),
    ]);
    assert_eq!(reparse(v), expected);
}

#[test]
fn stringify_then_parse_merges_repeated_keys() {
    let v = JsValue::Record(vec![
        (u("a"), JsValue::Int(1)),
        (u("b"), JsValue::Null),
        (u("a"), JsValue::Int(2)),
    ]);
    let expected = JsonTree::Object(vec![(u("a"), JsonTree::Number(u("2"))), (u("b"), JsonTree::Null)]);
    assert_eq!(reparse(v), expected);
}

#[test]
fn parsed_objects_have_distinct_keys() {
    let tree = PurustJsonParser::new(u("{\"k\":1,\"k\":{\"x\":1,\"x\":2},\"j\":[{\"y\":1,\"y\":1}]}")).parse().unwrap();
    let expected = JsonTree::Object(vec![
        (u("k"), JsonTree::Object(vec![(u("x"), JsonTree::Number(u("2")))])),
        (u("j"), JsonTree::Array(vec![JsonTree::Object(vec![(u("y"), JsonTree::Number(u("1")))])])),
    ]);
    assert_eq!(tree, expected);
}

#[test]
fn encoded_text_is_valid_utf16() {
    let make = || {
        JsValue::Array(vec![
            JsValue::Str(vec![0xdbff, 0x41, 0xdc00, 0xd83d, 0xde00, 0xd800]),
            JsValue::Object(vec![(vec![0xdfff, 0xd800], JsValue::Char('\u{10ffff}'))]),
        ])
    };
    let compact = String::from_utf16(&Yoga_JSON__unsafeStringify(make())).unwrap();
    assert_eq!(compact, "[\"\\udbffA\\udc00😀\\ud800\",{\"\\udfff\\ud800\":\"\u{10ffff}\"}]");
    let pretty = String::from_utf16(&Yoga_JSON__unsafePrettyStringify(2, make())).unwrap();
    assert_eq!(
        pretty,
        "[\n  \"\\udbffA\\udc00😀\\ud800\",\n  {\n    \"\\udfff\\ud800\": \"\u{10ffff}\"\n  }\n]"
    );
}

fn number(text: &str, integral: Option<&str>) -> JsNumber {
    JsNumber { text: u(text), finite: true, integral: integral.map(u) }
}

#[test]
fn decoding_encoded_data_gives_it_back() {
    let make = || {
        JsValue::Object(vec![
            (u("a"), JsValue::Array(vec![JsValue::Number(number("1.5", None)), JsValue::Null, JsValue::Str(vec![0xd800])])),
            (u("b"), JsValue::Object(vec![(u("c"), JsValue::Number(number("-3", Some("-3"))))])),
            (u("t"), JsValue::Bool(true)),
            (u("e"), JsValue::Array(vec![])),
        ])
    };
    let tree = PurustJsonParser::new(Yoga_JSON__unsafeStringify(make())).parse().unwrap();
    assert_eq!(purust_json_spellings(&tree), vec![u("1.5"), u("-3")]);
    let numbers = vec![number("1.5", None), number("-3", Some("-3"))];
    assert_eq!(purust_json_decode(tree, &numbers), Ok(make()));
}

#[test]
fn indented_text_parses_to_the_same_tree() {
    let make = || {
        JsValue::Object(vec![
            (u("a"), JsValue::Array(vec![JsValue::Int(1), JsValue::Undefined, JsValue::Object(vec![])])),
            (u("skip"), JsValue::Function),
            (u("b"), JsValue::Object(vec![(u("c"), JsValue::Str(u("x y")))])),
        ])
    };
    let compact = PurustJsonParser::new(Yoga_JSON__unsafeStringify(make())).parse().unwrap();
    for spaces in [1, 4, 10] {
        let indented = PurustJsonParser::new(Yoga_JSON__unsafePrettyStringify(spaces, make())).parse().unwrap();
        assert_eq!(indented, compact);
    }
}
