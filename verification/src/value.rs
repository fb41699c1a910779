//! The runtime values that the encoder reads and the reviver rebuilds, and
//! their mathematical model.
use vstd::prelude::*;
use crate::bigint::JsBigInt;

verus! {

/// What a JavaScript number (a double) shows of itself to JSON: the
/// text that `Number.prototype.toString` gives, whether it is finite, and,
/// when it is finite with no fractional part, the decimal digits of its
/// exact value (as `{:.0}` formats it).
#[derive(Debug, PartialEq)]
pub struct JsNumber {
    pub text: Vec<u16>,
    pub finite: bool,
    pub integral: Option<Vec<u16>>,
}

/// The model of a [`JsNumber`].
pub struct NumberModel {
    pub text: Seq<u16>,
    pub finite: bool,
    pub integral: Option<Seq<u16>>,
}

impl View for JsNumber {
    type V = NumberModel;

    open spec fn view(&self) -> NumberModel {
        NumberModel {
            text: self.text@,
            finite: self.finite,
            integral: match self.integral {
                Some(t) => Some(t@),
                None => None,
            },
        }
    }
}

/// A runtime value, as far as JSON sees it.
#[derive(Debug, PartialEq)]
pub enum JsValue {
    /// `undefined`: the unit value.
    Undefined,
    /// A native function of any arity.
    Function,
    Null,
    Int(i64),
    Number(JsNumber),
    Bool(bool),
    /// A string, as UTF-16 code units.
    Str(Vec<u16>),
    Char(char),
    Array(Vec<JsValue>),
    /// A `Foreign.Object`, by its entries in order.
    Object(Vec<(Vec<u16>, JsValue)>),
    /// A `JS.BigInt`.
    BigInt(JsBigInt),
    /// A record, by its fields in order.
    Record(Vec<(Vec<u16>, JsValue)>),
    /// A native value of any other class.
    Native,
    /// A value of any other kind (a data constructor, say), which has no fields.
    Other,
}

/// The model of a [`JsValue`].
pub enum Json {
    Undefined,
    Function,
    Null,
    Int(int),
    Number(NumberModel),
    Bool(bool),
    Str(Seq<u16>),
    Char(char),
    Array(Seq<Json>),
    Object(Seq<(Seq<u16>, Json)>),
    BigInt(int),
    Record(Seq<(Seq<u16>, Json)>),
    Native,
    Other,
}

/// The model of a list of entries.
pub open spec fn entries_model(fs: Seq<(Vec<u16>, JsValue)>) -> Seq<(Seq<u16>, Json)>
    decreases fs, 1nat,
{
    Seq::new(
        fs.len(),
        |i: int|
            if 0 <= i < fs.len() {
                (fs[i].0@, fs[i].1.model())
            } else {
                (Seq::empty(), Json::Null)
            },
    )
}

/// The model of a list of values.
pub open spec fn values_model(vs: Seq<JsValue>) -> Seq<Json>
    decreases vs, 1nat,
{
    Seq::new(vs.len(), |i: int| if 0 <= i < vs.len() { vs[i].model() } else { Json::Null })
}

impl JsValue {
    pub open spec fn model(self) -> Json
        decreases self, 0nat,
    {
        match self {
            JsValue::Undefined => Json::Undefined,
            JsValue::Function => Json::Function,
            JsValue::Null => Json::Null,
            JsValue::Int(n) => Json::Int(n as int),
            JsValue::Number(n) => Json::Number(n@),
            JsValue::Bool(b) => Json::Bool(b),
            JsValue::Str(s) => Json::Str(s@),
            JsValue::Char(c) => Json::Char(c),
            JsValue::Array(vs) => Json::Array(values_model(vs@)),
            JsValue::Object(fs) => Json::Object(entries_model(fs@)),
            JsValue::BigInt(b) => Json::BigInt(b@),
            JsValue::Record(fs) => Json::Record(entries_model(fs@)),
            JsValue::Native => Json::Native,
            JsValue::Other => Json::Other,
        }
    }
}

/// The units that give JSON text its structure: quotes, brackets, braces,
/// commas and colons.
pub open spec fn structural_unit(u: u16) -> bool {
    u == 34 || u == 91 || u == 93 || u == 123 || u == 125 || u == 44 || u == 58
}

/// The digits of a decimal numeral: what follows its `-`, if any.
pub open spec fn decimal_digits(t: Seq<u16>) -> Seq<u16> {
    if t.len() > 0 && t[0] == 45 {
        t.skip(1)
    } else {
        t
    }
}

/// A decimal integer numeral: an optional `-` and at least one digit.
pub open spec fn decimal_spelling(t: Seq<u16>) -> bool {
    &&& decimal_digits(t).len() > 0
    &&& forall|k: int|
        0 <= k < decimal_digits(t).len() ==> 48 <= #[trigger] decimal_digits(t)[k] <= 57
}

/// What every number that a double gives satisfies: a finite one prints as
/// a non-empty text without structural units, and only a finite one has
/// integral digits, which form a decimal numeral.
pub open spec fn number_wf(n: NumberModel) -> bool {
    &&& n.finite ==> n.text.len() > 0 && forall|k: int|
        0 <= k < n.text.len() ==> !structural_unit(#[trigger] n.text[k])
    &&& n.integral matches Some(t) ==> n.finite && decimal_spelling(t)
}

/// Every number inside `v` is well formed.
pub open spec fn numbers_wf(v: Json) -> bool
    decreases v, 1nat,
{
    match v {
        Json::Number(n) => number_wf(n),
        Json::Array(items) => items_numbers_wf(items),
        Json::Object(fs) => members_numbers_wf(fs),
        Json::Record(fs) => members_numbers_wf(fs),
        _ => true,
    }
}

/// Every number inside the elements is well formed.
pub open spec fn items_numbers_wf(items: Seq<Json>) -> bool
    decreases items, 0nat,
{
    items.len() == 0 || (numbers_wf(items.last()) && items_numbers_wf(items.drop_last()))
}

/// Every number inside the members is well formed.
pub open spec fn members_numbers_wf(fs: Seq<(Seq<u16>, Json)>) -> bool
    decreases fs, 0nat,
{
    fs.len() == 0 || (numbers_wf(fs.last().1) && members_numbers_wf(fs.drop_last()))
}

impl JsNumber {
    /// Whether this number is one that a double gives (see [`number_wf`]).
    pub fn well_formed(&self) -> (r: bool)
        ensures
            r == number_wf(self@),
    {
        if self.finite {
            if self.text.len() == 0 {
                return false;
            }
            let mut k: usize = 0;
            while k < self.text.len()
                invariant
                    self.finite,
                    k <= self.text@.len(),
                    forall|j: int| 0 <= j < k ==> !structural_unit(#[trigger] self.text@[j]),
                decreases self.text@.len() - k,
            {
                let u = self.text[k];
                if u == 34 || u == 91 || u == 93 || u == 123 || u == 125 || u == 44 || u == 58 {
                    assert(structural_unit(self@.text[k as int]));
                    return false;
                }
                k += 1;
            }
        }
        match &self.integral {
            None => true,
            Some(t) => {
                if !self.finite {
                    return false;
                }
                let start: usize = if t.len() > 0 && t[0] == 45 {
                    1
                } else {
                    0
                };
                if start >= t.len() {
                    return false;
                }
                let ghost d = decimal_digits(t@);
                assert(d == t@.skip(start as int));
                assert(self@.integral == Some(t@));
                let mut k: usize = start;
                while k < t.len()
                    invariant
                        start <= k <= t@.len(),
                        d == t@.skip(start as int),
                        d == decimal_digits(t@),
                        self.finite,
                        self@.integral == Some(t@),
                        forall|j: int| 0 <= j < k - start ==> 48 <= #[trigger] d[j] <= 57,
                    decreases t@.len() - k,
                {
                    if t[k] < 48 || t[k] > 57 {
                        assert(d[k - start] == t@[k as int]);
                        assert(!(48 <= decimal_digits(t@)[k - start] <= 57));
                        return false;
                    }
                    assert(d[k - start] == t@[k as int]);
                    k += 1;
                }
                true
            },
        }
    }
}

proof fn lemma_items_numbers_prefix(items: Seq<Json>, k: int)
    requires
        0 <= k <= items.len(),
        items_numbers_wf(items),
    ensures
        items_numbers_wf(items.take(k)),
    decreases items.len(),
{
    if k < items.len() {
        assert(items.drop_last().take(k) =~= items.take(k));
        lemma_items_numbers_prefix(items.drop_last(), k);
    } else {
        assert(items.take(k) =~= items);
    }
}

proof fn lemma_members_numbers_prefix(fs: Seq<(Seq<u16>, Json)>, k: int)
    requires
        0 <= k <= fs.len(),
        members_numbers_wf(fs),
    ensures
        members_numbers_wf(fs.take(k)),
    decreases fs.len(),
{
    if k < fs.len() {
        assert(fs.drop_last().take(k) =~= fs.take(k));
        lemma_members_numbers_prefix(fs.drop_last(), k);
    } else {
        assert(fs.take(k) =~= fs);
    }
}

/// Whether every number inside the members is well formed.
fn members_numbers_ok(fields: &Vec<(Vec<u16>, JsValue)>) -> (r: bool)
    ensures
        r == members_numbers_wf(entries_model(fields@)),
    decreases fields, 0nat,
{
    let ghost m = entries_model(fields@);
    let mut i: usize = 0;
    assert(m.take(0) =~= Seq::<(Seq<u16>, Json)>::empty());
    while i < fields.len()
        invariant
            m == entries_model(fields@),
            i <= fields@.len(),
            members_numbers_wf(m.take(i as int)),
        decreases fields@.len() - i,
    {
        proof {
            assert(decreases_to!(fields => fields@));
            assert(decreases_to!(fields@ => fields@[i as int]));
            assert(decreases_to!(fields@[i as int] => fields@[i as int].1));
            assert(m.take(i + 1).drop_last() =~= m.take(i as int));
            assert(m.take(i + 1).last() == m[i as int]);
            assert(m[i as int].1 == fields@[i as int].1.model());
        }
        if !purust_json_numbers_wf(&fields[i].1) {
            proof {
                if members_numbers_wf(m) {
                    lemma_members_numbers_prefix(m, i + 1);
                }
            }
            return false;
        }
        i += 1;
    }
    assert(m.take(fields@.len() as int) =~= m);
    true
}

/// Whether every number inside `value` is well formed.
pub fn purust_json_numbers_wf(value: &JsValue) -> (r: bool)
    ensures
        r == numbers_wf(value.model()),
    decreases value, 1nat,
{
    match value {
        JsValue::Number(n) => n.well_formed(),
        JsValue::Array(items) => {
            let ghost m = values_model(items@);
            let mut i: usize = 0;
            assert(m.take(0) =~= Seq::<Json>::empty());
            while i < items.len()
                invariant
                    *value == JsValue::Array(*items),
                    m == values_model(items@),
                    i <= items@.len(),
                    items_numbers_wf(m.take(i as int)),
                decreases items@.len() - i,
            {
                proof {
                    assert(decreases_to!(*value => value->Array_0));
                    assert(decreases_to!(value->Array_0 => value->Array_0@));
                    assert(decreases_to!(value->Array_0@ => items@[i as int]));
                    assert(m.take(i + 1).drop_last() =~= m.take(i as int));
                    assert(m.take(i + 1).last() == m[i as int]);
                }
                if !purust_json_numbers_wf(&items[i]) {
                    proof {
                        if items_numbers_wf(m) {
                            lemma_items_numbers_prefix(m, i + 1);
                        }
                    }
                    return false;
                }
                i += 1;
            }
            assert(m.take(items@.len() as int) =~= m);
            true
        },
        JsValue::Object(fields) => {
            proof {
                assert(decreases_to!(*value => value->Object_0));
            }
            members_numbers_ok(fields)
        },
        JsValue::Record(fields) => {
            proof {
                assert(decreases_to!(*value => value->Record_0));
            }
            members_numbers_ok(fields)
        },
        _ => true,
    }
}

/// Values that JSON leaves out: `undefined` and functions.
pub open spec fn is_omitted(v: Json) -> bool {
    v is Undefined || v is Function
}

/// Whether JSON leaves `value` out: it is `undefined` or a function.
pub fn purust_json_omitted(value: &JsValue) -> (r: bool)
    ensures
        r == is_omitted(value.model()),
{
    match value {
        JsValue::Undefined | JsValue::Function => true,
        _ => false,
    }
}

/// The `undefined` value, which JSON omits.
#[allow(non_snake_case)]
pub fn Yoga_JSON__undefined() -> (r: JsValue)
    ensures
        r.model() == Json::Undefined,
{
    JsValue::Undefined
}

/// The kind of error that decoding raises.
#[derive(Clone, Copy, Debug, PartialEq, Eq, Structural)]
pub enum ErrorName {
    SyntaxError,
    TypeError,
    RangeError,
}

/// An error raised while decoding: its kind and its message.
#[derive(Debug, PartialEq)]
pub struct JsonError {
    pub name: ErrorName,
    pub message: Vec<u16>,
}

/// The model of a [`JsonError`].
pub struct ErrorModel {
    pub name: ErrorName,
    pub message: Seq<u16>,
}

impl View for JsonError {
    type V = ErrorModel;

    open spec fn view(&self) -> ErrorModel {
        ErrorModel { name: self.name, message: self.message@ }
    }
}

} // verus!
