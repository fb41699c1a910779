//! The JSON encoder: `JSON.stringify` on runtime values, with UTF-16 text.
use vstd::prelude::*;
use crate::text::{
    ascii_units, char_to_units, char_units, i64_decimal, int_decimal, push_unicode_escape,
    push_units, unicode_escape, units_of,
};
use crate::value::{entries_model, is_omitted, purust_json_omitted, values_model, JsValue, Json};

verus! {

pub open spec fn is_high_surrogate(u: u16) -> bool {
    0xd800 <= u <= 0xdbff
}

pub open spec fn is_low_surrogate(u: u16) -> bool {
    0xdc00 <= u <= 0xdfff
}

/// How a unit that is not part of a surrogate pair appears in a JSON string.
pub open spec fn escape_unit(u: u16) -> Seq<u16> {
    if u == 0x22 {
        seq![92u16, 34u16]
    } else if u == 0x5c {
        seq![92u16, 92u16]
    } else if u == 8 {
        seq![92u16, 98u16]
    } else if u == 9 {
        seq![92u16, 116u16]
    } else if u == 10 {
        seq![92u16, 110u16]
    } else if u == 12 {
        seq![92u16, 102u16]
    } else if u == 13 {
        seq![92u16, 114u16]
    } else if u <= 0x1f || (0xd800 <= u <= 0xdfff) {
        unicode_escape(u)
    } else {
        seq![u]
    }
}

/// The inside of a JSON string literal for the units `s`: a surrogate pair
/// stays as it is, every other unit is escaped as `escape_unit` says.
pub open spec fn quote_body(s: Seq<u16>) -> Seq<u16>
    decreases s.len(),
{
    if s.len() == 0 {
        Seq::empty()
    } else if s.len() >= 2 && is_high_surrogate(s[0]) && is_low_surrogate(s[1]) {
        seq![s[0], s[1]] + quote_body(s.skip(2))
    } else {
        escape_unit(s[0]) + quote_body(s.skip(1))
    }
}

/// The JSON string literal for the units `s`.
pub open spec fn quoted(s: Seq<u16>) -> Seq<u16> {
    seq![34u16] + quote_body(s) + seq![34u16]
}

/// Whether JSON can encode `v`: `undefined`, functions and native values
/// of other classes have no encoding, except as array elements (where they
/// become `null`) and as members (which are left out).
pub open spec fn stringifiable(v: Json) -> bool
    decreases v, 1nat,
{
    match v {
        Json::Undefined | Json::Function | Json::Native | Json::Other => false,
        Json::Array(items) => items_stringifiable(items),
        Json::Object(fs) => members_stringifiable(fs),
        Json::Record(fs) => members_stringifiable(fs),
        _ => true,
    }
}

/// Every element is omitted or has an encoding.
pub open spec fn items_stringifiable(items: Seq<Json>) -> bool
    decreases items, 0nat,
{
    items.len() == 0 || ((is_omitted(items.last()) || stringifiable(items.last()))
        && items_stringifiable(items.drop_last()))
}

/// Every member is omitted or has an encoding.
pub open spec fn members_stringifiable(fs: Seq<(Seq<u16>, Json)>) -> bool
    decreases fs, 0nat,
{
    fs.len() == 0 || ((is_omitted(fs.last().1) || stringifiable(fs.last().1))
        && members_stringifiable(fs.drop_last()))
}

/// The compact JSON text of `v`.
pub open spec fn stringify(v: Json) -> Seq<u16>
    decreases v, 2nat,
{
    match v {
        Json::Null => units_of("null"@),
        Json::Int(n) => int_decimal(n),
        Json::Number(n) => if n.finite {
            n.text
        } else {
            units_of("null"@)
        },
        Json::Bool(b) => if b {
            units_of("true"@)
        } else {
            units_of("false"@)
        },
        Json::Str(s) => quoted(s),
        Json::Char(c) => quoted(char_units(c)),
        Json::Array(items) => seq![91u16] + elements_text(items) + seq![93u16],
        Json::Object(fs) => seq![123u16] + members_text(fs) + seq![125u16],
        Json::Record(fs) => seq![123u16] + members_text(fs) + seq![125u16],
        Json::BigInt(i) => quoted(int_decimal(i)),
        _ => Seq::empty(),
    }
}

/// The elements of an array, joined by commas; an omitted one is `null`.
pub open spec fn elements_text(items: Seq<Json>) -> Seq<u16>
    decreases items, 1nat,
{
    if items.len() == 0 {
        Seq::empty()
    } else {
        let last = items.last();
        let e = if is_omitted(last) {
            units_of("null"@)
        } else {
            stringify(last)
        };
        if items.len() == 1 {
            e
        } else {
            elements_text(items.drop_last()) + seq![44u16] + e
        }
    }
}

/// The members of an object that are not omitted, as `"key":value`, joined
/// by commas.
pub open spec fn members_text(fs: Seq<(Seq<u16>, Json)>) -> Seq<u16>
    decreases fs, 1nat,
{
    if fs.len() == 0 {
        Seq::empty()
    } else {
        let rest = members_text(fs.drop_last());
        let (k, v) = fs.last();
        if is_omitted(v) {
            rest
        } else if rest.len() == 0 {
            quoted(k) + seq![58u16] + stringify(v)
        } else {
            rest + seq![44u16] + quoted(k) + seq![58u16] + stringify(v)
        }
    }
}

/// Each element of an encodable array is omitted or encodable.
pub proof fn lemma_element_stringifiable(items: Seq<Json>, j: int)
    requires
        items_stringifiable(items),
        0 <= j < items.len(),
    ensures
        is_omitted(items[j]) || stringifiable(items[j]),
    decreases items.len(),
{
    if j < items.len() - 1 {
        lemma_element_stringifiable(items.drop_last(), j);
    }
}

/// Each member of an encodable object is omitted or encodable.
pub proof fn lemma_member_stringifiable(fs: Seq<(Seq<u16>, Json)>, j: int)
    requires
        members_stringifiable(fs),
        0 <= j < fs.len(),
    ensures
        is_omitted(fs[j].1) || stringifiable(fs[j].1),
    decreases fs.len(),
{
    if j < fs.len() - 1 {
        lemma_member_stringifiable(fs.drop_last(), j);
    }
}

/// Appends what `unit` turns into in a string literal, when it is not part
/// of a surrogate pair.
fn push_escaped(out: &mut Vec<u16>, unit: u16)
    ensures
        final(out)@ == old(out)@ + escape_unit(unit),
{
    if unit == 0x22 {
        out.push(92);
        out.push(34);
    } else if unit == 0x5c {
        out.push(92);
        out.push(92);
    } else if unit == 8 {
        out.push(92);
        out.push(98);
    } else if unit == 9 {
        out.push(92);
        out.push(116);
    } else if unit == 10 {
        out.push(92);
        out.push(110);
    } else if unit == 12 {
        out.push(92);
        out.push(102);
    } else if unit == 13 {
        out.push(92);
        out.push(114);
    } else if unit <= 0x1f || (0xd800 <= unit && unit <= 0xdfff) {
        push_unicode_escape(out, unit);
        return ;
    } else {
        out.push(unit);
    }
    assert(final(out)@ =~= old(out)@ + escape_unit(unit));
}

/// The JSON string literal for `value`: quotes, backslashes and control
/// characters escaped, surrogate pairs kept, lone surrogates escaped.
pub fn purust_json_quote(value: &[u16]) -> (r: Vec<u16>)
    ensures
        r@ == quoted(value@),
{
    let ghost s = value@;
    let mut output: Vec<u16> = vec![34u16];
    let mut i: usize = 0;
    assert(s.skip(0) == s);
    while i < value.len()
        invariant
            s == value@,
            i <= s.len(),
            output@ + quote_body(s.skip(i as int)) == seq![34u16] + quote_body(s),
        decreases s.len() - i,
    {
        let unit = value[i];
        let ghost rest = s.skip(i as int);
        assert(rest[0] == unit);
        if 0xd800 <= unit && unit <= 0xdbff && i + 1 < value.len() && 0xdc00 <= value[i + 1]
            && value[i + 1] <= 0xdfff {
            output.push(unit);
            output.push(value[i + 1]);
            assert(rest.skip(2) =~= s.skip(i + 2));
            assert(rest[1] == s[i + 1]);
            i += 2;
        } else {
            push_escaped(&mut output, unit);
            assert(rest.skip(1) =~= s.skip(i + 1));
            i += 1;
        }
    }
    assert(s.skip(s.len() as int) =~= Seq::<u16>::empty());
    output.push(34);
    output
}

/// The members of an object or a record, as `{"key":value,...}`, leaving
/// out the omitted ones.
pub fn purust_json_fields(fields: &Vec<(Vec<u16>, JsValue)>) -> (r: Vec<u16>)
    requires
        forall|i: int|
            0 <= i < fields@.len() ==> is_omitted(#[trigger] fields@[i].1.model()) || stringifiable(
                fields@[i].1.model(),
            ),
    ensures
        r@ == seq![123u16] + members_text(entries_model(fields@)) + seq![125u16],
    decreases fields, 0nat,
{
    let ghost m = entries_model(fields@);
    let mut output: Vec<u16> = vec![123u16];
    let mut i: usize = 0;
    let mut written = false;
    assert(m.take(0) =~= Seq::<(Seq<u16>, Json)>::empty());
    while i < fields.len()
        invariant
            m == entries_model(fields@),
            written == (members_text(m.take(i as int)).len() > 0),
            i <= fields@.len(),
            output@ == seq![123u16] + members_text(m.take(i as int)),
            forall|j: int|
                0 <= j < fields@.len() ==> is_omitted(#[trigger] fields@[j].1.model())
                    || stringifiable(fields@[j].1.model()),
        decreases fields@.len() - i,
    {
        let ghost before = m.take(i as int);
        assert(m.take(i + 1).drop_last() =~= before);
        assert(m[i as int] == (fields@[i as int].0@, fields@[i as int].1.model()));
        let (key, value) = (&fields[i].0, &fields[i].1);
        if !purust_json_omitted(value) {
            if written {
                output.push(44);
            }
            written = true;
            let k = purust_json_quote(key.as_slice());
            push_units(&mut output, k.as_slice());
            output.push(58);
            proof {
                assert(decreases_to!(fields => fields@));
                assert(decreases_to!(fields@ => fields@[i as int]));
                assert(decreases_to!(fields@[i as int] => fields@[i as int].1));
            }
            let v = stringify_value(value);
            push_units(&mut output, v.as_slice());
            assert(output@ =~= seq![123u16] + members_text(m.take(i + 1)));
        } else {
            assert(members_text(m.take(i + 1)) == members_text(before));
        }
        i += 1;
    }
    assert(m.take(fields@.len() as int) =~= m);
    output.push(125);
    output
}

/// The compact JSON text of `value`.
fn stringify_value(value: &JsValue) -> (r: Vec<u16>)
    requires
        stringifiable(value.model()),
    ensures
        r@ == stringify(value.model()),
    decreases value, 1nat,
{
    match value {
        JsValue::Null => {
            proof {
                reveal_strlit("null");
            }
            ascii_units("null")
        },
        JsValue::Int(n) => i64_decimal(*n),
        JsValue::Number(n) => {
            if !n.finite {
                ascii_units("null")
            } else {
                let mut t: Vec<u16> = Vec::new();
                push_units(&mut t, n.text.as_slice());
                t
            }
        },
        JsValue::Bool(b) => {
            if *b {
                ascii_units("true")
            } else {
                ascii_units("false")
            }
        },
        JsValue::Str(s) => purust_json_quote(s.as_slice()),
        JsValue::Char(c) => {
            let units = char_to_units(*c);
            purust_json_quote(units.as_slice())
        },
        JsValue::Array(values) => {
            let ghost items = values_model(values@);
            let mut output: Vec<u16> = vec![91u16];
            let mut i: usize = 0;
            assert(items.take(0) =~= Seq::<Json>::empty());
            while i < values.len()
                invariant
                    *value == JsValue::Array(*values),
                    items == values_model(values@),
                    stringifiable(value.model()),
                    i <= values@.len(),
                    output@ == seq![91u16] + elements_text(items.take(i as int)),
                decreases values@.len() - i,
            {
                let ghost before = items.take(i as int);
                assert(items.take(i + 1).drop_last() =~= before);
                assert(items[i as int] == values@[i as int].model());
                if i > 0 {
                    output.push(44);
                }
                let item = &values[i];
                if purust_json_omitted(item) {
                    let n = ascii_units("null");
                    push_units(&mut output, n.as_slice());
                } else {
                    proof {
                        assert(decreases_to!(*value => value->Array_0));
                        assert(decreases_to!(value->Array_0 => value->Array_0@));
                        assert(decreases_to!(value->Array_0@ => values@[i as int]));
                    }
                    assert(value.model() == Json::Array(items));
                    proof {
                        lemma_element_stringifiable(items, i as int);
                    }
                    let t = stringify_value(item);
                    push_units(&mut output, t.as_slice());
                }
                assert(output@ =~= seq![91u16] + elements_text(items.take(i + 1)));
                i += 1;
            }
            assert(items.take(values@.len() as int) =~= items);
            output.push(93);
            output
        },
        JsValue::Object(fields) => {
            proof {
                assert(decreases_to!(*value => value->Object_0));
                let fs = entries_model(fields@);
                assert(value.model() == Json::Object(fs));
                assert forall|i: int| 0 <= i < fields@.len() implies is_omitted(
                    #[trigger] fields@[i].1.model(),
                ) || stringifiable(fields@[i].1.model()) by {
                    assert(fs[i].1 == fields@[i].1.model());
                    lemma_member_stringifiable(fs, i);
                }
            }
            purust_json_fields(fields)
        },
        JsValue::Record(fields) => {
            proof {
                assert(decreases_to!(*value => value->Record_0));
                let fs = entries_model(fields@);
                assert(value.model() == Json::Record(fs));
                assert forall|i: int| 0 <= i < fields@.len() implies is_omitted(
                    #[trigger] fields@[i].1.model(),
                ) || stringifiable(fields@[i].1.model()) by {
                    assert(fs[i].1 == fields@[i].1.model());
                    lemma_member_stringifiable(fs, i);
                }
            }
            purust_json_fields(fields)
        },
        JsValue::BigInt(b) => {
            let digits = b.to_decimal();
            purust_json_quote(digits.as_slice())
        },
        _ => Vec::new(),
    }
}

/// The compact JSON text of `value`, as `JSON.stringify` gives it. The value
/// must have an encoding.
#[allow(non_snake_case)]
pub fn Yoga_JSON__unsafeStringify(value: JsValue) -> (r: Vec<u16>)
    requires
        stringifiable(value.model()),
    ensures
        r@ == stringify(value.model()),
{
    stringify_value(&value)
}

proof fn lemma_items_stringifiable_prefix(items: Seq<Json>, k: int)
    requires
        0 <= k <= items.len(),
        items_stringifiable(items),
    ensures
        items_stringifiable(items.take(k)),
    decreases items.len(),
{
    if k < items.len() {
        assert(items.drop_last().take(k) =~= items.take(k));
        lemma_items_stringifiable_prefix(items.drop_last(), k);
    } else {
        assert(items.take(k) =~= items);
    }
}

proof fn lemma_members_stringifiable_prefix(fs: Seq<(Seq<u16>, Json)>, k: int)
    requires
        0 <= k <= fs.len(),
        members_stringifiable(fs),
    ensures
        members_stringifiable(fs.take(k)),
    decreases fs.len(),
{
    if k < fs.len() {
        assert(fs.drop_last().take(k) =~= fs.take(k));
        lemma_members_stringifiable_prefix(fs.drop_last(), k);
    } else {
        assert(fs.take(k) =~= fs);
    }
}

/// Whether every member is omitted or has an encoding.
fn members_encodable(fields: &Vec<(Vec<u16>, JsValue)>) -> (r: bool)
    ensures
        r == members_stringifiable(entries_model(fields@)),
    decreases fields, 0nat,
{
    let ghost m = entries_model(fields@);
    let mut i: usize = 0;
    assert(m.take(0) =~= Seq::<(Seq<u16>, Json)>::empty());
    while i < fields.len()
        invariant
            m == entries_model(fields@),
            i <= fields@.len(),
            members_stringifiable(m.take(i as int)),
        decreases fields@.len() - i,
    {
        proof {
            assert(decreases_to!(fields => fields@));
            assert(decreases_to!(fields@ => fields@[i as int]));
            assert(decreases_to!(fields@[i as int] => fields@[i as int].1));
            assert(m.take(i + 1).drop_last() =~= m.take(i as int));
            assert(m.take(i + 1).last() == m[i as int]);
            assert(m[i as int].1 == fields@[i as int].1.model());
        }
        if !purust_json_omitted(&fields[i].1) && !purust_json_stringifiable(&fields[i].1) {
            proof {
                if members_stringifiable(m) {
                    lemma_members_stringifiable_prefix(m, i + 1);
                }
            }
            return false;
        }
        i += 1;
    }
    assert(m.take(fields@.len() as int) =~= m);
    true
}

/// Whether JSON can encode `value` (see [`stringifiable`]); encoding a
/// value that it cannot is refused.
pub fn purust_json_stringifiable(value: &JsValue) -> (r: bool)
    ensures
        r == stringifiable(value.model()),
    decreases value, 1nat,
{
    match value {
        JsValue::Undefined | JsValue::Function | JsValue::Native | JsValue::Other => false,
        JsValue::Array(items) => {
            let ghost m = values_model(items@);
            let mut i: usize = 0;
            assert(m.take(0) =~= Seq::<Json>::empty());
            while i < items.len()
                invariant
                    *value == JsValue::Array(*items),
                    m == values_model(items@),
                    i <= items@.len(),
                    items_stringifiable(m.take(i as int)),
                decreases items@.len() - i,
            {
                proof {
                    assert(decreases_to!(*value => value->Array_0));
                    assert(decreases_to!(value->Array_0 => value->Array_0@));
                    assert(decreases_to!(value->Array_0@ => items@[i as int]));
                    assert(m.take(i + 1).drop_last() =~= m.take(i as int));
                    assert(m.take(i + 1).last() == m[i as int]);
                }
                if !purust_json_omitted(&items[i]) && !purust_json_stringifiable(&items[i]) {
                    proof {
                        if items_stringifiable(m) {
                            lemma_items_stringifiable_prefix(m, i + 1);
                        }
                    }
                    return false;
                }
                i += 1;
            }
            assert(m.take(items@.len() as int) =~= m);
            true
        },
        JsValue::Object(fields) => {
            proof {
                assert(decreases_to!(*value => value->Object_0));
            }
            members_encodable(fields)
        },
        JsValue::Record(fields) => {
            proof {
                assert(decreases_to!(*value => value->Record_0));
            }
            members_encodable(fields)
        },
        _ => true,
    }
}

} // verus!
