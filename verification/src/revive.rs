//! The reviver that decoding applies: every value under the key `big` is
//! turned into a `BigInt`, as JavaScript's `BigInt(value)` would, children
//! before their parents.
use vstd::prelude::*;
use crate::bigint::{is_radix_digit, lemma_radix_value_decimal, radix_value, JsBigInt};
use crate::text::{
    ascii_units, copy_units, int_decimal, lemma_nat_decimal_digits, nat_decimal, push_units,
    units_equal, units_of, usize_decimal,
};
use crate::value::{
    decimal_digits, decimal_spelling, entries_model, number_wf, values_model, ErrorModel, ErrorName, JsValue,
    Json, JsonError,
};

verus! {

/// The whitespace that `BigInt` trims from a string: the ECMAScript white
/// space and line terminators.
pub open spec fn is_bigint_space(u: u16) -> bool {
    (0x9 <= u <= 0xd) || u == 0x20 || u == 0xa0 || u == 0x1680 || (0x2000 <= u <= 0x200a) || u
        == 0x2028 || u == 0x2029 || u == 0x202f || u == 0x205f || u == 0x3000 || u == 0xfeff
}

/// `t` without its leading white space.
pub open spec fn trim_front(t: Seq<u16>) -> Seq<u16>
    decreases t.len(),
{
    if t.len() > 0 && is_bigint_space(t[0]) {
        trim_front(t.skip(1))
    } else {
        t
    }
}

/// `t` without its trailing white space.
pub open spec fn trim_back(t: Seq<u16>) -> Seq<u16>
    decreases t.len(),
{
    if t.len() > 0 && is_bigint_space(t.last()) {
        trim_back(t.drop_last())
    } else {
        t
    }
}

/// `t` without white space at either end.
pub open spec fn trimmed(t: Seq<u16>) -> Seq<u16> {
    trim_back(trim_front(t))
}

/// An error of kind `name` with an ASCII message.
pub open spec fn error_of(name: ErrorName, message: Seq<char>) -> ErrorModel {
    ErrorModel { name, message: units_of(message) }
}

/// The error for a string that does not spell an integer.
pub open spec fn string_error() -> ErrorModel {
    error_of(ErrorName::SyntaxError, "Cannot convert string to a BigInt"@)
}

/// Whether the text of `v` is defined: a string, `null`, `undefined`, a
/// boolean, a well formed number, a `BigInt`, an object, a native value, or
/// an array of such.
pub open spec fn text_convertible(v: Json) -> bool
    decreases v, 1nat,
{
    match v {
        Json::Str(_) | Json::Null | Json::Undefined | Json::Bool(_) | Json::BigInt(_)
        | Json::Object(_) | Json::Native => true,
        Json::Number(n) => number_wf(n),
        Json::Array(items) => items_convertible(items),
        _ => false,
    }
}

/// Every element has a defined text.
pub open spec fn items_convertible(items: Seq<Json>) -> bool
    decreases items, 0nat,
{
    items.len() == 0 || (text_convertible(items.last()) && items_convertible(items.drop_last()))
}

/// Whether `fs` holds the key `toString`.
pub open spec fn has_to_string(fs: Seq<(Seq<u16>, Json)>) -> bool {
    exists|i: int| 0 <= i < fs.len() && #[trigger] fs[i].0 == units_of("toString"@)
}

/// The string that `BigInt` reads from a value that is not `null`, a
/// boolean or a number (`String(value)`), or the error that converting an
/// object with a `toString` member raises.
pub open spec fn to_text(v: Json) -> Result<Seq<u16>, ErrorModel>
    decreases v, 1nat,
{
    match v {
        Json::Str(s) => Ok(s),
        Json::Null | Json::Undefined => Ok(Seq::empty()),
        Json::Bool(b) => Ok(
            if b {
                units_of("true"@)
            } else {
                units_of("false"@)
            },
        ),
        Json::Number(n) => Ok(n.text),
        Json::Array(items) => items_text(items),
        Json::BigInt(i) => Ok(int_decimal(i)),
        Json::Object(fs) => if has_to_string(fs) {
            Err(error_of(ErrorName::TypeError, "Cannot convert object to primitive value"@))
        } else {
            Ok(units_of("[object Object]"@))
        },
        _ => Ok(units_of("[object Object]"@)),
    }
}

/// The texts of the elements joined by commas, or the first error.
pub open spec fn items_text(items: Seq<Json>) -> Result<Seq<u16>, ErrorModel>
    decreases items, 0nat,
{
    if items.len() == 0 {
        Ok(Seq::empty())
    } else {
        match items_text(items.drop_last()) {
            Err(e) => Err(e),
            Ok(r) => match to_text(items.last()) {
                Err(e) => Err(e),
                Ok(t) => Ok(
                    if items.len() == 1 {
                        t
                    } else {
                        r + seq![44u16] + t
                    },
                ),
            },
        }
    }
}

/// Whether `t` starts with `0` and then `lower` or `upper`.
pub open spec fn has_prefix(t: Seq<u16>, lower: u16, upper: u16) -> bool {
    t.len() >= 2 && t[0] == 48 && (t[1] == lower || t[1] == upper)
}

/// The base that the prefix of `t` selects: `0x` 16, `0b` 2, `0o` 8, none 10.
pub open spec fn radix_of(t: Seq<u16>) -> nat {
    if has_prefix(t, 120, 88) {
        16
    } else if has_prefix(t, 98, 66) {
        2
    } else if has_prefix(t, 111, 79) {
        8
    } else {
        10
    }
}

/// The numeral of a trimmed string: what follows its base prefix, if any.
pub open spec fn text_digits(t: Seq<u16>) -> Seq<u16> {
    if radix_of(t) == 10 {
        t
    } else {
        t.skip(2)
    }
}

/// Whether a base-10 numeral starts with a sign.
pub open spec fn text_signed(t: Seq<u16>) -> bool {
    radix_of(t) == 10 && text_digits(t).len() > 0 && (text_digits(t)[0] == 43 || text_digits(t)[0]
        == 45)
}

/// The digits of a trimmed string: its numeral without the sign.
pub open spec fn text_unsigned(t: Seq<u16>) -> Seq<u16> {
    if text_signed(t) {
        text_digits(t).skip(1)
    } else {
        text_digits(t)
    }
}

/// The integer that a trimmed, non-empty string spells: a base prefix, or
/// in base 10 an optional sign, then at least one digit of the base.
pub open spec fn integer_of_text(t: Seq<u16>) -> Result<int, ErrorModel> {
    let radix = radix_of(t);
    let unsigned = text_unsigned(t);
    if unsigned.len() == 0 || !(forall|k: int|
        0 <= k < text_unsigned(t).len() ==> is_radix_digit(#[trigger] text_unsigned(t)[k], radix)) {
        Err(string_error())
    } else if text_signed(t) && text_digits(t)[0] == 45 {
        Ok(-(radix_value(unsigned, radix) as int))
    } else {
        Ok(radix_value(unsigned, radix) as int)
    }
}

/// The integer of a decimal numeral with an optional `-`.
pub open spec fn decimal_value(t: Seq<u16>) -> int {
    if t.len() > 0 && t[0] == 45 {
        -(radix_value(t.skip(1), 10) as int)
    } else {
        radix_value(t, 10) as int
    }
}

/// `BigInt(v)`: the integer, or the error that the conversion raises.
pub open spec fn bigint_of(v: Json) -> Result<int, ErrorModel> {
    match v {
        Json::Null => Err(error_of(ErrorName::TypeError, "Cannot convert null to a BigInt"@)),
        Json::Bool(b) => Ok(
            if b {
                1int
            } else {
                0int
            },
        ),
        Json::Number(n) => match n.integral {
            Some(t) => Ok(decimal_value(t)),
            None => Err(
                error_of(
                    ErrorName::RangeError,
                    "The number cannot be converted to a BigInt because it is not an integer"@,
                ),
            ),
        },
        _ => match to_text(v) {
            Err(e) => Err(e),
            Ok(t) => {
                let u = trimmed(t);
                if u.len() == 0 {
                    Ok(0)
                } else {
                    integer_of_text(u)
                }
            },
        },
    }
}

/// The values that decoding hands the reviver: `null`, booleans, well
/// formed numbers, strings, and arrays and objects of such.
pub open spec fn parsed(v: Json) -> bool
    decreases v, 1nat,
{
    match v {
        Json::Null | Json::Bool(_) | Json::Str(_) => true,
        Json::Number(n) => number_wf(n),
        Json::Array(items) => items_parsed(items),
        Json::Object(fs) => members_parsed(fs),
        _ => false,
    }
}

/// Every element is a decoded value.
pub open spec fn items_parsed(items: Seq<Json>) -> bool
    decreases items, 0nat,
{
    items.len() == 0 || (parsed(items.last()) && items_parsed(items.drop_last()))
}

/// Every member value is a decoded value.
pub open spec fn members_parsed(fs: Seq<(Seq<u16>, Json)>) -> bool
    decreases fs, 0nat,
{
    fs.len() == 0 || (parsed(fs.last().1) && members_parsed(fs.drop_last()))
}

/// What the reviver makes of the value `v` found under `key`, once its
/// children are revived: `BigInt(v)` under the key `big`, `v` elsewhere.
pub open spec fn finish(key: Seq<u16>, v: Json) -> Result<Json, ErrorModel> {
    if key == units_of("big"@) {
        match bigint_of(v) {
            Ok(i) => Ok(Json::BigInt(i)),
            Err(e) => Err(e),
        }
    } else {
        Ok(v)
    }
}

/// The keys of the members, in order.
pub open spec fn keys_of(fs: Seq<(Seq<u16>, Json)>) -> Seq<Seq<u16>> {
    Seq::new(fs.len(), |i: int| fs[i].0)
}

/// The members with the keys `keys` and the values `vs`.
pub open spec fn pair_up(keys: Seq<Seq<u16>>, vs: Seq<Json>) -> Seq<(Seq<u16>, Json)> {
    Seq::new(keys.len(), |i: int| (keys[i], vs[i]))
}

/// The reviver on the value `v` found under `key`: the children first, in
/// order, each under its own key (an element under its index), then the
/// value itself; the first error ends it.
pub open spec fn revive(key: Seq<u16>, v: Json) -> Result<Json, ErrorModel>
    decreases v, 2nat,
{
    match v {
        Json::Array(items) => match revive_items(items, 0) {
            Ok(ws) => finish(key, Json::Array(ws)),
            Err(e) => Err(e),
        },
        Json::Object(fs) => match revive_members(fs) {
            Ok(ws) => finish(key, Json::Object(pair_up(keys_of(fs), ws))),
            Err(e) => Err(e),
        },
        _ => finish(key, v),
    }
}

/// The revived elements, the first at index `first`, or the first error.
pub open spec fn revive_items(items: Seq<Json>, first: nat) -> Result<Seq<Json>, ErrorModel>
    decreases items, 1nat,
{
    if items.len() == 0 {
        Ok(Seq::empty())
    } else {
        match revive(nat_decimal(first), items[0]) {
            Err(e) => Err(e),
            Ok(w) => match revive_items(items.skip(1), first + 1) {
                Err(e) => Err(e),
                Ok(ws) => Ok(seq![w] + ws),
            },
        }
    }
}

/// The revived member values, or the first error.
pub open spec fn revive_members(fs: Seq<(Seq<u16>, Json)>) -> Result<Seq<Json>, ErrorModel>
    decreases fs, 1nat,
{
    if fs.len() == 0 {
        Ok(Seq::empty())
    } else {
        match revive(fs[0].0, fs[0].1) {
            Err(e) => Err(e),
            Ok(w) => match revive_members(fs.skip(1)) {
                Err(e) => Err(e),
                Ok(ws) => Ok(seq![w] + ws),
            },
        }
    }
}

/// A pending step of the reviver's walk: revive a value under its key, or
/// rebuild an array of `n` elements, or an object with the given keys, from
/// the last revived values.
pub enum Task {
    Enter(Seq<u16>, Json),
    Array(Seq<u16>, nat),
    Object(Seq<u16>, Seq<Seq<u16>>),
}

/// Where a walk ends: the revived values, the first error, or a stack that
/// does not fit its results.
pub enum Outcome {
    Done(Seq<Json>),
    Failed(ErrorModel),
    Stuck,
}

/// The walk that performs `tasks`, the last first, on the revived values
/// `res`.
#[verifier::opaque]
spec fn run(tasks: Seq<Task>, res: Seq<Json>) -> Outcome
    decreases tasks.len(),
{
    if tasks.len() == 0 {
        Outcome::Done(res)
    } else {
        let rest = tasks.drop_last();
        match tasks.last() {
            Task::Enter(k, v) => match revive(k, v) {
                Err(e) => Outcome::Failed(e),
                Ok(w) => run(rest, res.push(w)),
            },
            Task::Array(k, n) => if n <= res.len() {
                let at = res.len() - n;
                match finish(k, Json::Array(res.skip(at))) {
                    Err(e) => Outcome::Failed(e),
                    Ok(w) => run(rest, res.take(at).push(w)),
                }
            } else {
                Outcome::Stuck
            },
            Task::Object(k, keys) => if keys.len() <= res.len() {
                let at = res.len() - keys.len();
                match finish(k, Json::Object(pair_up(keys, res.skip(at)))) {
                    Err(e) => Outcome::Failed(e),
                    Ok(w) => run(rest, res.take(at).push(w)),
                }
            } else {
                Outcome::Stuck
            },
        }
    }
}

/// The tasks that revive the members `ps`, the first on top.
spec fn enters(ps: Seq<(Seq<u16>, Json)>) -> Seq<Task> {
    Seq::new(ps.len(), |t: int| Task::Enter(ps[ps.len() - 1 - t].0, ps[ps.len() - 1 - t].1))
}

/// The elements under their indices, the first at `first`.
spec fn index_pairs(items: Seq<Json>, first: nat) -> Seq<(Seq<u16>, Json)> {
    Seq::new(items.len(), |i: int| (nat_decimal((first + i) as nat), items[i]))
}

/// The number of values in `v`, itself included.
spec fn size(v: Json) -> nat
    decreases v, 1nat,
{
    match v {
        Json::Array(items) => 1 + items_size(items),
        Json::Object(fs) => 1 + members_size(fs),
        _ => 1,
    }
}

spec fn items_size(items: Seq<Json>) -> nat
    decreases items, 0nat,
{
    if items.len() == 0 {
        0
    } else {
        items_size(items.drop_last()) + size(items.last())
    }
}

spec fn members_size(fs: Seq<(Seq<u16>, Json)>) -> nat
    decreases fs, 0nat,
{
    if fs.len() == 0 {
        0
    } else {
        members_size(fs.drop_last()) + size(fs.last().1)
    }
}

/// What is left of the walk: two for each value still to enter, one for
/// each rebuilding.
#[verifier::opaque]
spec fn weight(tasks: Seq<Task>) -> nat
    decreases tasks.len(),
{
    if tasks.len() == 0 {
        0
    } else {
        weight(tasks.drop_last()) + match tasks.last() {
            Task::Enter(_, v) => 2 * size(v),
            _ => 1,
        }
    }
}

/// A value still to enter is a decoded value.
spec fn task_parsed(t: Task) -> bool {
    match t {
        Task::Enter(_, v) => parsed(v),
        _ => true,
    }
}

spec fn tasks_parsed(tasks: Seq<Task>) -> bool {
    forall|i: int| 0 <= i < tasks.len() ==> #[trigger] task_parsed(tasks[i])
}

spec fn all_convertible(vs: Seq<Json>) -> bool {
    forall|i: int| 0 <= i < vs.len() ==> #[trigger] text_convertible(vs[i])
}

proof fn lemma_index_pairs(items: Seq<Json>, first: nat)
    ensures
        revive_items(items, first) == revive_members(index_pairs(items, first)),
    decreases items.len(),
{
    if items.len() > 0 {
        assert(index_pairs(items, first).skip(1) =~= index_pairs(items.skip(1), first + 1));
        lemma_index_pairs(items.skip(1), first + 1);
    }
}

proof fn lemma_revive_members_len(fs: Seq<(Seq<u16>, Json)>)
    ensures
        revive_members(fs) matches Ok(ws) ==> ws.len() == fs.len(),
    decreases fs.len(),
{
    if fs.len() > 0 {
        lemma_revive_members_len(fs.skip(1));
    }
}

proof fn lemma_run_enters(base: Seq<Task>, ps: Seq<(Seq<u16>, Json)>, res: Seq<Json>)
    ensures
        run(base + enters(ps), res) == match revive_members(ps) {
            Err(e) => Outcome::Failed(e),
            Ok(ws) => run(base, res + ws),
        },
    decreases ps.len(),
{
    reveal(run);
    if ps.len() == 0 {
        assert(base + enters(ps) =~= base);
        assert(res + Seq::<Json>::empty() =~= res);
    } else {
        let tasks = base + enters(ps);
        assert(tasks.drop_last() =~= base + enters(ps.skip(1)));
        assert(tasks.last() == Task::Enter(ps[0].0, ps[0].1));
        match revive(ps[0].0, ps[0].1) {
            Ok(w) => {
                lemma_run_enters(base, ps.skip(1), res.push(w));
                match revive_members(ps.skip(1)) {
                    Ok(ws) => {
                        assert(res.push(w) + ws =~= res + (seq![w] + ws));
                    },
                    Err(_) => {},
                }
            },
            Err(_) => {},
        }
    }
}

proof fn lemma_enter_array(rest: Seq<Task>, k: Seq<u16>, items: Seq<Json>, res: Seq<Json>)
    ensures
        run(rest.push(Task::Array(k, items.len())) + enters(index_pairs(items, 0)), res) == run(
            rest.push(Task::Enter(k, Json::Array(items))),
            res,
        ),
{
    reveal(run);
    let base = rest.push(Task::Array(k, items.len()));
    let ps = index_pairs(items, 0);
    lemma_run_enters(base, ps, res);
    lemma_index_pairs(items, 0);
    lemma_revive_members_len(ps);
    assert(base.drop_last() =~= rest);
    assert(rest.push(Task::Enter(k, Json::Array(items))).drop_last() =~= rest);
    match revive_items(items, 0) {
        Ok(ws) => {
            assert((res + ws).skip(res.len() as int) =~= ws);
            assert((res + ws).take(res.len() as int) =~= res);
        },
        Err(_) => {},
    }
}

proof fn lemma_enter_object(
    rest: Seq<Task>,
    k: Seq<u16>,
    fs: Seq<(Seq<u16>, Json)>,
    res: Seq<Json>,
)
    ensures
        run(rest.push(Task::Object(k, keys_of(fs))) + enters(fs), res) == run(
            rest.push(Task::Enter(k, Json::Object(fs))),
            res,
        ),
{
    reveal(run);
    let base = rest.push(Task::Object(k, keys_of(fs)));
    lemma_run_enters(base, fs, res);
    lemma_revive_members_len(fs);
    assert(base.drop_last() =~= rest);
    assert(rest.push(Task::Enter(k, Json::Object(fs))).drop_last() =~= rest);
    match revive_members(fs) {
        Ok(ws) => {
            assert((res + ws).skip(res.len() as int) =~= ws);
            assert((res + ws).take(res.len() as int) =~= res);
        },
        Err(_) => {},
    }
}

proof fn lemma_enters_step(ps: Seq<(Seq<u16>, Json)>, i: int)
    requires
        0 < i <= ps.len(),
    ensures
        enters(ps.skip(i - 1)) == enters(ps.skip(i)).push(Task::Enter(ps[i - 1].0, ps[i - 1].1)),
{
    assert(enters(ps.skip(i - 1)) =~= enters(ps.skip(i)).push(Task::Enter(ps[i - 1].0, ps[i - 1].1)));
}

proof fn lemma_weight_push(tasks: Seq<Task>, t: Task)
    ensures
        weight(tasks.push(t)) == weight(tasks) + match t {
            Task::Enter(_, v) => 2 * size(v),
            _ => 1,
        },
{
    reveal(weight);
    assert(tasks.push(t).drop_last() =~= tasks);
}

proof fn lemma_items_parsed(items: Seq<Json>, i: int)
    requires
        items_parsed(items),
        0 <= i < items.len(),
    ensures
        parsed(items[i]),
    decreases items.len(),
{
    if i < items.len() - 1 {
        lemma_items_parsed(items.drop_last(), i);
    }
}

proof fn lemma_members_parsed(fs: Seq<(Seq<u16>, Json)>, i: int)
    requires
        members_parsed(fs),
        0 <= i < fs.len(),
    ensures
        parsed(fs[i].1),
    decreases fs.len(),
{
    if i < fs.len() - 1 {
        lemma_members_parsed(fs.drop_last(), i);
    }
}

proof fn lemma_all_convertible(vs: Seq<Json>)
    requires
        all_convertible(vs),
    ensures
        items_convertible(vs),
    decreases vs.len(),
{
    if vs.len() > 0 {
        assert(text_convertible(vs[vs.len() - 1]));
        lemma_all_convertible(vs.drop_last());
    }
}

/// No member of `v`, at any depth, has the key `big`.
pub open spec fn no_big(v: Json) -> bool
    decreases v, 1nat,
{
    match v {
        Json::Array(items) => items_no_big(items),
        Json::Object(fs) => members_no_big(fs),
        _ => true,
    }
}

pub open spec fn items_no_big(items: Seq<Json>) -> bool
    decreases items, 0nat,
{
    items.len() == 0 || (no_big(items[0]) && items_no_big(items.skip(1)))
}

pub open spec fn members_no_big(fs: Seq<(Seq<u16>, Json)>) -> bool
    decreases fs, 0nat,
{
    fs.len() == 0 || (fs[0].0 != units_of("big"@) && no_big(fs[0].1) && members_no_big(fs.skip(1)))
}

/// The member values, in order.
pub open spec fn values_of(fs: Seq<(Seq<u16>, Json)>) -> Seq<Json> {
    Seq::new(fs.len(), |i: int| fs[i].1)
}

/// An index is never the key `big`.
proof fn lemma_index_not_big(n: nat)
    ensures
        nat_decimal(n) != units_of("big"@),
{
    lemma_nat_decimal_digits(n);
    reveal_strlit("big");
    if nat_decimal(n) == units_of("big"@) {
        assert(units_of("big"@)[0] == 98);
        assert(48 <= nat_decimal(n)[0] <= 57);
    }
}

/// The reviver gives back, unchanged, a value found under a key other
/// than `big` that has no member `big` at any depth.
pub proof fn lemma_revive_without_big(key: Seq<u16>, v: Json)
    requires
        key != units_of("big"@),
        no_big(v),
    ensures
        revive(key, v) == Ok::<Json, ErrorModel>(v),
    decreases v, 2nat,
{
    match v {
        Json::Array(items) => {
            lemma_revive_items_without_big(items, 0);
        },
        Json::Object(fs) => {
            lemma_revive_members_without_big(fs);
            assert(pair_up(keys_of(fs), values_of(fs)) =~= fs);
        },
        _ => {},
    }
}

proof fn lemma_revive_items_without_big(items: Seq<Json>, first: nat)
    requires
        items_no_big(items),
    ensures
        revive_items(items, first) == Ok::<Seq<Json>, ErrorModel>(items),
    decreases items, 1nat,
{
    if items.len() > 0 {
        lemma_index_not_big(first);
        lemma_revive_without_big(nat_decimal(first), items[0]);
        lemma_revive_items_without_big(items.skip(1), first + 1);
        assert(seq![items[0]] + items.skip(1) =~= items);
    } else {
        assert(items =~= Seq::<Json>::empty());
    }
}

proof fn lemma_revive_members_without_big(fs: Seq<(Seq<u16>, Json)>)
    requires
        members_no_big(fs),
    ensures
        revive_members(fs) == Ok::<Seq<Json>, ErrorModel>(values_of(fs)),
    decreases fs, 1nat,
{
    if fs.len() > 0 {
        lemma_revive_without_big(fs[0].0, fs[0].1);
        lemma_revive_members_without_big(fs.skip(1));
        assert(seq![fs[0].1] + values_of(fs.skip(1)) =~= values_of(fs));
    } else {
        assert(values_of(fs) =~= Seq::<Json>::empty());
    }
}

/// Converting a `BigInt` to a `BigInt` again gives the same integer: its
/// decimal text reads back as itself.
pub proof fn lemma_bigint_of_bigint(i: int)
    ensures
        bigint_of(Json::BigInt(i)) == Ok::<int, ErrorModel>(i),
{
    let n: nat = if i < 0 {
        (-i) as nat
    } else {
        i as nat
    };
    let t = int_decimal(i);
    let d = nat_decimal(n);
    lemma_nat_decimal_digits(n);
    lemma_radix_value_decimal(n);
    assert(to_text(Json::BigInt(i)) == Ok::<Seq<u16>, ErrorModel>(t));
    if i < 0 {
        assert(t == seq![45u16] + d);
        assert(t[0] == 45);
        assert(t.skip(1) =~= d);
    } else {
        assert(t == d);
    }
    assert(t.len() > 0);
    assert(!is_bigint_space(t[0]));
    assert(trim_front(t) == t);
    assert(t.last() == d.last());
    assert(48 <= d[d.len() - 1] <= 57);
    assert(!is_bigint_space(t.last()));
    assert(trim_back(t) == t);
    assert(trimmed(t) == t);
    assert(!has_prefix(t, 120, 88));
    assert(!has_prefix(t, 98, 66));
    assert(!has_prefix(t, 111, 79));
    assert(radix_of(t) == 10);
    assert(text_digits(t) == t);
    assert(text_signed(t) == (i < 0));
    assert(text_unsigned(t) == d);
    assert forall|k: int| 0 <= k < text_unsigned(t).len() implies is_radix_digit(
        #[trigger] text_unsigned(t)[k],
        10,
    ) by {
        assert(48 <= d[k] <= 57);
    }
}

/// The value `w`, found under `key`, is a `BigInt` when `key` is `big`,
/// and so is every value under the key `big` inside it.
pub open spec fn bigs_converted(key: Seq<u16>, w: Json) -> bool
    decreases w, 1nat,
{
    &&& key == units_of("big"@) ==> w is BigInt
    &&& match w {
        Json::Array(items) => items_bigs_converted(items, 0),
        Json::Object(fs) => members_bigs_converted(fs),
        _ => true,
    }
}

pub open spec fn items_bigs_converted(items: Seq<Json>, first: nat) -> bool
    decreases items, 0nat,
{
    items.len() == 0 || (bigs_converted(nat_decimal(first), items[0]) && items_bigs_converted(
        items.skip(1),
        first + 1,
    ))
}

pub open spec fn members_bigs_converted(fs: Seq<(Seq<u16>, Json)>) -> bool
    decreases fs, 0nat,
{
    fs.len() == 0 || (bigs_converted(fs[0].0, fs[0].1) && members_bigs_converted(fs.skip(1)))
}

/// What the reviver gives back holds a `BigInt` under every key `big`.
pub proof fn lemma_revive_converts_bigs(key: Seq<u16>, v: Json)
    ensures
        revive(key, v) matches Ok(w) ==> bigs_converted(key, w),
    decreases v, 2nat,
{
    match v {
        Json::Array(items) => {
            lemma_revive_items_converts_bigs(items, 0);
        },
        Json::Object(fs) => {
            lemma_revive_members_converts_bigs(fs);
        },
        _ => {},
    }
}

proof fn lemma_revive_items_converts_bigs(items: Seq<Json>, first: nat)
    ensures
        revive_items(items, first) matches Ok(ws) ==> items_bigs_converted(ws, first),
    decreases items, 1nat,
{
    if items.len() > 0 {
        lemma_revive_converts_bigs(nat_decimal(first), items[0]);
        lemma_revive_items_converts_bigs(items.skip(1), first + 1);
        if let Ok(ws) = revive_items(items, first) {
            let w0 = revive(nat_decimal(first), items[0])->Ok_0;
            let rest = revive_items(items.skip(1), first + 1)->Ok_0;
            assert(ws == seq![w0] + rest);
            assert(ws[0] == w0);
            assert(ws.skip(1) =~= rest);
        }
    }
}

proof fn lemma_revive_members_converts_bigs(fs: Seq<(Seq<u16>, Json)>)
    ensures
        revive_members(fs) matches Ok(ws) ==> members_bigs_converted(pair_up(keys_of(fs), ws)),
    decreases fs, 1nat,
{
    lemma_revive_members_len(fs);
    if fs.len() > 0 {
        lemma_revive_converts_bigs(fs[0].0, fs[0].1);
        lemma_revive_members_converts_bigs(fs.skip(1));
        if let Ok(ws) = revive_members(fs) {
            let w0 = revive(fs[0].0, fs[0].1)->Ok_0;
            let rest = revive_members(fs.skip(1))->Ok_0;
            lemma_revive_members_len(fs.skip(1));
            assert(ws == seq![w0] + rest);
            let ps = pair_up(keys_of(fs), ws);
            assert(ps[0] == (fs[0].0, w0));
            assert(ps.skip(1) =~= pair_up(keys_of(fs.skip(1)), rest));
        }
    } else {
        if let Ok(ws) = revive_members(fs) {
            assert(pair_up(keys_of(fs), ws).len() == 0);
        }
    }
}

/// Base prefixes are read in either case: `0b`/`0B` select base 2,
/// `0o`/`0O` base 8 and `0x`/`0X` base 16, so a string made of `0`, one of
/// these letters and a non-empty numeral `d` of that base converts to the
/// value of `d` in that base.
pub proof fn lemma_bigint_prefix_any_case(letter: u16, radix: nat, d: Seq<u16>)
    requires
        (radix == 2 && (letter == 98 || letter == 66)) || (radix == 8 && (letter == 111 || letter
            == 79)) || (radix == 16 && (letter == 120 || letter == 88)),
        d.len() > 0,
        forall|k: int| 0 <= k < d.len() ==> is_radix_digit(#[trigger] d[k], radix),
    ensures
        bigint_of(Json::Str(seq![48u16, letter] + d)) == Ok::<int, ErrorModel>(
            radix_value(d, radix) as int,
        ),
{
    let t = seq![48u16, letter] + d;
    assert(t[0] == 48 && t[1] == letter);
    assert(!is_bigint_space(t[0]));
    assert(trim_front(t) == t);
    assert(t.last() == d[d.len() - 1]);
    assert(is_radix_digit(d[d.len() - 1], radix));
    assert(!is_bigint_space(t.last()));
    assert(trim_back(t) == t);
    assert(trimmed(t) == t);
    assert(radix_of(t) == radix);
    assert(t.skip(2) =~= d);
    assert(text_digits(t) == d);
    assert(!text_signed(t));
    assert(text_unsigned(t) == d);
}

/// An error of kind `name` with the ASCII message `message`.
fn error(name: ErrorName, message: &str) -> (e: JsonError)
    ensures
        e@ == error_of(name, message@),
{
    JsonError { name, message: ascii_units(message) }
}

/// Whether `c` is white space that `BigInt` trims.
pub fn purust_json_bigint_whitespace(c: u16) -> (r: bool)
    ensures
        r == is_bigint_space(c),
{
    (0x9 <= c && c <= 0xd) || c == 0x20 || c == 0xa0 || c == 0x1680 || (0x2000 <= c && c <= 0x200a)
        || c == 0x2028 || c == 0x2029 || c == 0x202f || c == 0x205f || c == 0x3000 || c == 0xfeff
}

proof fn lemma_trim_front(t: Seq<u16>, i: int)
    requires
        0 <= i <= t.len(),
        forall|k: int| 0 <= k < i ==> is_bigint_space(#[trigger] t[k]),
    ensures
        trim_front(t) == trim_front(t.skip(i)),
    decreases i,
{
    if i > 0 {
        assert(t.skip(1).skip(i - 1) =~= t.skip(i));
        lemma_trim_front(t.skip(1), i - 1);
    } else {
        assert(t.skip(0) =~= t);
    }
}

proof fn lemma_trim_back(t: Seq<u16>, j: int)
    requires
        0 <= j <= t.len(),
        forall|k: int| j <= k < t.len() ==> is_bigint_space(#[trigger] t[k]),
    ensures
        trim_back(t) == trim_back(t.take(j)),
    decreases t.len() - j,
{
    if j < t.len() {
        assert(t.drop_last().take(j) =~= t.take(j));
        lemma_trim_back(t.drop_last(), j);
    } else {
        assert(t.take(j) =~= t);
    }
}

/// `t` without white space at either end.
fn trim_units(t: &[u16]) -> (r: Vec<u16>)
    ensures
        r@ == trimmed(t@),
{
    let n = t.len();
    let mut i: usize = 0;
    while i < n && purust_json_bigint_whitespace(t[i])
        invariant
            n == t@.len(),
            i <= n,
            forall|k: int| 0 <= k < i ==> is_bigint_space(#[trigger] t@[k]),
        decreases n - i,
    {
        i += 1;
    }
    proof {
        lemma_trim_front(t@, i as int);
    }
    let mut j: usize = n;
    while j > i && purust_json_bigint_whitespace(t[j - 1])
        invariant
            n == t@.len(),
            i <= j <= n,
            forall|k: int| j <= k < n ==> is_bigint_space(#[trigger] t@[k]),
        decreases j,
    {
        j -= 1;
    }
    let ghost front = t@.skip(i as int);
    proof {
        assert(trim_front(front) == front);
        assert forall|k: int| j - i <= k < front.len() implies is_bigint_space(
            #[trigger] front[k],
        ) by {
            assert(front[k] == t@[i + k]);
        }
        lemma_trim_back(front, j - i);
        assert(front.take(j - i) == t@.subrange(i as int, j as int));
        let mid = t@.subrange(i as int, j as int);
        if mid.len() > 0 {
            assert(mid.last() == t@[j - 1]);
        }
    }
    let mut r: Vec<u16> = Vec::new();
    let mut k: usize = i;
    while k < j
        invariant
            i <= k <= j <= n,
            n == t@.len(),
            r@ == t@.subrange(i as int, k as int),
        decreases j - k,
    {
        r.push(t[k]);
        assert(t@.subrange(i as int, k + 1) == t@.subrange(i as int, k as int).push(t@[k as int]));
        k += 1;
    }
    r
}

/// The units of `t` from `start` on.
fn units_from(t: &[u16], start: usize) -> (r: Vec<u16>)
    requires
        start <= t@.len(),
    ensures
        r@ == t@.skip(start as int),
{
    let mut r: Vec<u16> = Vec::new();
    let mut k: usize = start;
    while k < t.len()
        invariant
            start <= k <= t@.len(),
            r@ == t@.subrange(start as int, k as int),
        decreases t@.len() - k,
    {
        r.push(t[k]);
        assert(t@.subrange(start as int, k + 1) == t@.subrange(start as int, k as int).push(
            t@[k as int],
        ));
        k += 1;
    }
    assert(t@.subrange(start as int, t@.len() as int) =~= t@.skip(start as int));
    r
}

/// Whether `u` is a digit of base `radix`.
fn is_digit_of(u: u16, radix: u32) -> (r: bool)
    requires
        radix == 2 || radix == 8 || radix == 10 || radix == 16,
    ensures
        r == is_radix_digit(u, radix as nat),
{
    if radix == 16 {
        (48 <= u && u <= 57) || (97 <= u && u <= 102) || (65 <= u && u <= 70)
    } else {
        48 <= u && (u as u32) < 48 + radix
    }
}

/// The integer that a string spells, after trimming white space: zero for
/// nothing, else a numeral as `integer_of_text` reads it.
fn text_to_bigint(text: &[u16]) -> (r: Result<JsBigInt, JsonError>)
    ensures
        match (if trimmed(text@).len() == 0 {
            Ok(0int)
        } else {
            integer_of_text(trimmed(text@))
        }) {
            Ok(i) => r matches Ok(b) && b@ == i,
            Err(e) => r matches Err(x) && x@ == e,
        },
{
    let t = trim_units(text);
    if t.len() == 0 {
        return Ok(JsBigInt::zero());
    }
    let ghost ts = t@;
    let radix: u32 = if t.len() >= 2 && t[0] == 48 && (t[1] == 120 || t[1] == 88) {
        16
    } else if t.len() >= 2 && t[0] == 48 && (t[1] == 98 || t[1] == 66) {
        2
    } else if t.len() >= 2 && t[0] == 48 && (t[1] == 111 || t[1] == 79) {
        8
    } else {
        10
    };
    assert(radix as nat == radix_of(ts));
    let digits = if radix == 10 {
        units_from(t.as_slice(), 0)
    } else {
        units_from(t.as_slice(), 2)
    };
    assert(radix == 10 ==> ts.skip(0) =~= ts);
    let signed = radix == 10 && digits.len() > 0 && (digits[0] == 43 || digits[0] == 45);
    let unsigned = if signed {
        units_from(digits.as_slice(), 1)
    } else {
        units_from(digits.as_slice(), 0)
    };
    assert(!signed ==> digits@.skip(0) =~= digits@);
    assert(digits@ == (if radix == 10 {
        ts
    } else {
        ts.skip(2)
    }));
    assert(unsigned@ == (if signed {
        digits@.skip(1)
    } else {
        digits@
    }));
    if unsigned.len() == 0 {
        assert(integer_of_text(ts) == Err::<int, ErrorModel>(string_error()));
        return Err(error(ErrorName::SyntaxError, "Cannot convert string to a BigInt"));
    }
    let mut k: usize = 0;
    while k < unsigned.len()
        invariant
            radix == 2 || radix == 8 || radix == 10 || radix == 16,
            radix as nat == radix_of(ts),
            ts == t@,
            ts == trimmed(text@),
            ts.len() > 0,
            digits@ == (if radix == 10 {
                ts
            } else {
                ts.skip(2)
            }),
            signed == (radix == 10 && digits@.len() > 0 && (digits@[0] == 43 || digits@[0] == 45)),
            unsigned@ == (if signed {
                digits@.skip(1)
            } else {
                digits@
            }),
            unsigned@.len() > 0,
            k <= unsigned@.len(),
            forall|j: int| 0 <= j < k ==> is_radix_digit(#[trigger] unsigned@[j], radix as nat),
        decreases unsigned@.len() - k,
    {
        if !is_digit_of(unsigned[k], radix) {
            assert(!is_radix_digit(unsigned@[k as int], radix as nat));
            assert(unsigned@ == text_unsigned(ts));
            assert(!is_radix_digit(text_unsigned(ts)[k as int], radix as nat));
            assert(integer_of_text(ts) == Err::<int, ErrorModel>(string_error()));
            return Err(error(ErrorName::SyntaxError, "Cannot convert string to a BigInt"));
        }
        k += 1;
    }
    let negative = signed && digits[0] == 45;
    Ok(JsBigInt::from_radix_units(negative, unsigned.as_slice(), radix))
}

/// `String(value)` as `BigInt` reads it: the text of a value that is not
/// `null`, a boolean or a number, or the error that converting an object
/// with a `toString` member raises.
pub fn purust_json_bigint_string(value: &JsValue) -> (r: Result<Vec<u16>, JsonError>)
    requires
        text_convertible(value.model()),
    ensures
        match to_text(value.model()) {
            Ok(t) => r matches Ok(x) && x@ == t,
            Err(e) => r matches Err(x) && x@ == e,
        },
    decreases value,
{
    match value {
        JsValue::Str(s) => Ok(copy_units(s.as_slice())),
        JsValue::Null | JsValue::Undefined => Ok(Vec::new()),
        JsValue::Bool(b) => if *b {
            Ok(ascii_units("true"))
        } else {
            Ok(ascii_units("false"))
        },
        JsValue::Number(n) => Ok(copy_units(n.text.as_slice())),
        JsValue::BigInt(b) => Ok(b.to_decimal()),
        JsValue::Array(values) => {
            let ghost items = values_model(values@);
            let mut out: Vec<u16> = Vec::new();
            let mut i: usize = 0;
            assert(items.take(0) =~= Seq::<Json>::empty());
            while i < values.len()
                invariant
                    *value == JsValue::Array(*values),
                    items == values_model(values@),
                    text_convertible(value.model()),
                    i <= values@.len(),
                    items_text(items.take(i as int)) == Ok::<Seq<u16>, ErrorModel>(out@),
                decreases values@.len() - i,
            {
                let ghost before = items.take(i as int);
                assert(items.take(i + 1).drop_last() =~= before);
                assert(items.take(i + 1).last() == values@[i as int].model());
                proof {
                    lemma_item_convertible(items, i as int);
                    assert(decreases_to!(*value => value->Array_0));
                    assert(decreases_to!(value->Array_0 => value->Array_0@));
                    assert(decreases_to!(value->Array_0@ => values@[i as int]));
                }
                let t = match purust_json_bigint_string(&values[i]) {
                    Ok(t) => t,
                    Err(e) => {
                        assert(items_text(items.take(i + 1)) is Err);
                        proof {
                            lemma_items_text_error(items, i as int + 1);
                        }
                        return Err(e);
                    },
                };
                let ghost old_out = out@;
                if i > 0 {
                    out.push(44);
                }
                push_units(&mut out, t.as_slice());
                if i == 0 {
                    assert(old_out.len() == 0);
                    assert(out@ =~= t@);
                } else {
                    assert(out@ =~= old_out + seq![44u16] + t@);
                }
                assert(items.take(i + 1).len() == i + 1);
                assert(items_text(items.take(i + 1)) == Ok::<Seq<u16>, ErrorModel>(out@));
                i += 1;
            }
            assert(items.take(values@.len() as int) =~= items);
            Ok(out)
        },
        JsValue::Object(fields) => {
            let key = ascii_units("toString");
            let mut i: usize = 0;
            while i < fields.len()
                invariant
                    *value == JsValue::Object(*fields),
                    i <= fields@.len(),
                    key@ == units_of("toString"@),
                    forall|j: int| 0 <= j < i ==> #[trigger] fields@[j].0@ != key@,
                decreases fields@.len() - i,
            {
                if units_equal(fields[i].0.as_slice(), key.as_slice()) {
                    proof {
                        let fs = entries_model(fields@);
                        assert(fs[i as int].0 == units_of("toString"@));
                        assert(has_to_string(fs));
                        assert(value.model() == Json::Object(fs));
                    }
                    return Err(error(ErrorName::TypeError, "Cannot convert object to primitive value"));
                }
                i += 1;
            }
            proof {
                let fs = entries_model(fields@);
                assert(!has_to_string(fs)) by {
                    assert forall|j: int| 0 <= j < fs.len() implies #[trigger] fs[j].0 != units_of(
                        "toString"@,
                    ) by {
                        assert(fs[j].0 == fields@[j].0@);
                    }
                }
            }
            Ok(ascii_units("[object Object]"))
        },
        _ => Ok(ascii_units("[object Object]")),
    }
}

proof fn lemma_item_convertible(items: Seq<Json>, i: int)
    requires
        items_convertible(items),
        0 <= i < items.len(),
    ensures
        text_convertible(items[i]),
    decreases items.len(),
{
    if i < items.len() - 1 {
        lemma_item_convertible(items.drop_last(), i);
    }
}

/// An error in a prefix is the error of the whole.
proof fn lemma_items_text_error(items: Seq<Json>, m: int)
    requires
        0 <= m <= items.len(),
        items_text(items.take(m)) is Err,
    ensures
        items_text(items) == items_text(items.take(m)),
    decreases items.len() - m,
{
    if m < items.len() {
        let next = items.take(m + 1);
        assert(next.drop_last() =~= items.take(m));
        lemma_items_text_error(items, m + 1);
    } else {
        assert(items.take(m) =~= items);
    }
}

/// `BigInt(value)`: the integer, or the error that the conversion raises.
pub fn purust_json_bigint(value: &JsValue) -> (r: Result<JsValue, JsonError>)
    requires
        text_convertible(value.model()),
    ensures
        match bigint_of(value.model()) {
            Ok(i) => r matches Ok(w) && w.model() == Json::BigInt(i),
            Err(e) => r matches Err(x) && x@ == e,
        },
{
    match value {
        JsValue::Null => Err(error(ErrorName::TypeError, "Cannot convert null to a BigInt")),
        JsValue::Bool(b) => Ok(JsValue::BigInt(JsBigInt::from_bool(*b))),
        JsValue::Number(n) => match &n.integral {
            None => Err(
                error(
                    ErrorName::RangeError,
                    "The number cannot be converted to a BigInt because it is not an integer",
                ),
            ),
            Some(t) => {
                let negative = t.len() > 0 && t[0] == 45;
                let digits = if negative {
                    units_from(t.as_slice(), 1)
                } else {
                    units_from(t.as_slice(), 0)
                };
                proof {
                    assert(!negative ==> t@.skip(0) =~= t@);
                    assert(decimal_spelling(t@));
                    assert forall|k: int| 0 <= k < digits@.len() implies is_radix_digit(
                        #[trigger] digits@[k],
                        10,
                    ) by {
                        assert(digits@ == decimal_digits(t@));
                        assert(48 <= decimal_digits(t@)[k] <= 57);
                    }
                }
                Ok(JsValue::BigInt(JsBigInt::from_radix_units(negative, digits.as_slice(), 10)))
            },
        },
        _ => {
            let text = match purust_json_bigint_string(value) {
                Ok(t) => t,
                Err(e) => {
                    return Err(e);
                },
            };
            match text_to_bigint(text.as_slice()) {
                Ok(b) => Ok(JsValue::BigInt(b)),
                Err(e) => Err(e),
            }
        },
    }
}

/// A pending step of the reviver's walk, as the walk holds it.
enum Visit {
    Enter(Vec<u16>, JsValue),
    Array(Vec<u16>, usize),
    Object(Vec<u16>, Vec<Vec<u16>>),
}

/// The keys, as unit sequences.
pub open spec fn keys_model(keys: Seq<Vec<u16>>) -> Seq<Seq<u16>> {
    Seq::new(keys.len(), |i: int| keys[i]@)
}

impl Visit {
    spec fn task(&self) -> Task {
        match self {
            Visit::Enter(k, v) => Task::Enter(k@, v.model()),
            Visit::Array(k, n) => Task::Array(k@, *n as nat),
            Visit::Object(k, keys) => Task::Object(k@, keys_model(keys@)),
        }
    }
}

spec fn tasks_model(visits: Seq<Visit>) -> Seq<Task> {
    Seq::new(visits.len(), |i: int| visits[i].task())
}

proof fn lemma_tasks_push(visits: Seq<Visit>, v: Visit)
    ensures
        tasks_model(visits.push(v)) == tasks_model(visits).push(v.task()),
{
    assert(tasks_model(visits.push(v)) =~= tasks_model(visits).push(v.task()));
}

pub(crate) proof fn lemma_values_model_subrange(vs: Seq<JsValue>, a: int, b: int)
    requires
        0 <= a <= b <= vs.len(),
    ensures
        values_model(vs.subrange(a, b)) == values_model(vs).subrange(a, b),
{
    assert(values_model(vs.subrange(a, b)) =~= values_model(vs).subrange(a, b));
}

proof fn lemma_entries_model_subrange(fs: Seq<(Vec<u16>, JsValue)>, a: int, b: int)
    requires
        0 <= a <= b <= fs.len(),
    ensures
        entries_model(fs.subrange(a, b)) == entries_model(fs).subrange(a, b),
{
    assert(entries_model(fs.subrange(a, b)) =~= entries_model(fs).subrange(a, b));
}

/// Pushes the rebuilding of the array `items` under `key`, then its
/// elements under their indices, the first on top.
fn enter_array(visits: &mut Vec<Visit>, key: Vec<u16>, items: Vec<JsValue>)
    requires
        items_parsed(values_model(items@)),
        tasks_parsed(tasks_model(old(visits)@)),
    ensures
        tasks_model(final(visits)@) == tasks_model(old(visits)@).push(
            Task::Array(key@, items@.len() as nat),
        ) + enters(index_pairs(values_model(items@), 0)),
        weight(tasks_model(final(visits)@)) == weight(tasks_model(old(visits)@)) + 1 + 2
            * items_size(values_model(items@)),
        tasks_parsed(tasks_model(final(visits)@)),
{
    let ghost all = values_model(items@);
    let ghost ps = index_pairs(all, 0);
    let n = items.len();
    let mut items = items;
    proof {
        lemma_tasks_push(visits@, Visit::Array(key, n));
        lemma_weight_push(tasks_model(visits@), Task::Array(key@, n as nat));
    }
    let ghost base = tasks_model(visits@).push(Task::Array(key@, n as nat));
    let ghost start = weight(tasks_model(visits@)) + 1 + 2 * items_size(all);
    visits.push(Visit::Array(key, n));
    proof {
        assert(ps.skip(n as int) =~= Seq::<(Seq<u16>, Json)>::empty());
        assert(enters(ps.skip(n as int)) =~= Seq::<Task>::empty());
        assert(base + Seq::<Task>::empty() =~= base);
        assert(values_model(items@) =~= all.take(n as int));
        assert(all.take(n as int) =~= all);
    }
    let mut i: usize = n;
    while i > 0
        invariant
            i <= n,
            n == all.len(),
            ps == index_pairs(all, 0),
            items_parsed(all),
            items@.len() == i,
            values_model(items@) == all.take(i as int),
            tasks_model(visits@) == base + enters(ps.skip(i as int)),
            weight(tasks_model(visits@)) + 2 * items_size(values_model(items@)) == start,
            tasks_parsed(tasks_model(visits@)),
        decreases i,
    {
        let ghost before = items@;
        let item = items.pop().unwrap();
        i -= 1;
        proof {
            lemma_values_model_subrange(before, 0, i as int);
            assert(values_model(before).drop_last() =~= values_model(items@));
            assert(item.model() == all[i as int]);
            assert(values_model(before).last() == all[i as int]);
            lemma_items_parsed(all, i as int);
            lemma_enters_step(ps, i as int + 1);
            assert(ps[i as int] == (nat_decimal(i as nat), all[i as int]));
            assert(all.take(i as int) =~= all.take(i as int + 1).drop_last());
        }
        let idx = usize_decimal(i);
        proof {
            lemma_tasks_push(visits@, Visit::Enter(idx, item));
            lemma_weight_push(tasks_model(visits@), Task::Enter(idx@, item.model()));
            assert((base + enters(ps.skip(i + 1))).push(Task::Enter(idx@, item.model())) =~= base
                + enters(ps.skip(i + 1)).push(Task::Enter(idx@, item.model())));
            let ts = tasks_model(visits@).push(Task::Enter(idx@, item.model()));
            assert forall|j: int| 0 <= j < ts.len() implies #[trigger] task_parsed(ts[j]) by {
                if j < ts.len() - 1 {
                    assert(ts[j] == tasks_model(visits@)[j]);
                }
            }
        }
        visits.push(Visit::Enter(idx, item));
    }
    proof {
        assert(ps.skip(0) =~= ps);
    }
}

/// Pushes the rebuilding of the object `fields` under `key`, then its
/// members under their keys, the first on top.
fn enter_object(visits: &mut Vec<Visit>, key: Vec<u16>, fields: Vec<(Vec<u16>, JsValue)>)
    requires
        members_parsed(entries_model(fields@)),
        tasks_parsed(tasks_model(old(visits)@)),
    ensures
        tasks_model(final(visits)@) == tasks_model(old(visits)@).push(
            Task::Object(key@, keys_of(entries_model(fields@))),
        ) + enters(entries_model(fields@)),
        weight(tasks_model(final(visits)@)) == weight(tasks_model(old(visits)@)) + 1 + 2
            * members_size(entries_model(fields@)),
        tasks_parsed(tasks_model(final(visits)@)),
{
    let ghost fs = entries_model(fields@);
    let n = fields.len();
    let mut keys: Vec<Vec<u16>> = Vec::new();
    let mut j: usize = 0;
    while j < n
        invariant
            n == fields@.len(),
            fs == entries_model(fields@),
            j <= n,
            keys@.len() == j,
            keys_model(keys@) == keys_of(fs).take(j as int),
        decreases n - j,
    {
        let k = copy_units(fields[j].0.as_slice());
        proof {
            assert(fs[j as int] == (fields@[j as int].0@, fields@[j as int].1.model()));
            assert(keys_of(fs)[j as int] == k@);
            assert forall|m: int| 0 <= m < j implies #[trigger] keys_model(keys@.push(k))[m]
                == keys_of(fs)[m] by {
                assert(keys_model(keys@)[m] == keys_of(fs).take(j as int)[m]);
            }
            assert(keys_model(keys@.push(k)) =~= keys_of(fs).take(j + 1));
        }
        keys.push(k);
        j += 1;
    }
    proof {
        assert(keys_of(fs).take(n as int) =~= keys_of(fs));
        lemma_tasks_push(visits@, Visit::Object(key, keys));
        lemma_weight_push(tasks_model(visits@), Task::Object(key@, keys_of(fs)));
    }
    let ghost base = tasks_model(visits@).push(Task::Object(key@, keys_of(fs)));
    let ghost start = weight(tasks_model(visits@)) + 1 + 2 * members_size(fs);
    visits.push(Visit::Object(key, keys));
    let mut fields = fields;
    proof {
        assert(fs.skip(n as int) =~= Seq::<(Seq<u16>, Json)>::empty());
        assert(enters(fs.skip(n as int)) =~= Seq::<Task>::empty());
        assert(base + Seq::<Task>::empty() =~= base);
        assert(fs.take(n as int) =~= fs);
    }
    let mut i: usize = n;
    while i > 0
        invariant
            i <= n,
            n == fs.len(),
            members_parsed(fs),
            fields@.len() == i,
            entries_model(fields@) == fs.take(i as int),
            tasks_model(visits@) == base + enters(fs.skip(i as int)),
            weight(tasks_model(visits@)) + 2 * members_size(entries_model(fields@)) == start,
            tasks_parsed(tasks_model(visits@)),
        decreases i,
    {
        let ghost before = fields@;
        let (k, v) = fields.pop().unwrap();
        i -= 1;
        proof {
            lemma_entries_model_subrange(before, 0, i as int);
            assert(entries_model(before).drop_last() =~= entries_model(fields@));
            assert(entries_model(before).last() == fs[i as int]);
            assert(before[i as int] == (k, v));
            assert(fs[i as int] == (k@, v.model()));
            lemma_members_parsed(fs, i as int);
            lemma_enters_step(fs, i as int + 1);
            lemma_tasks_push(visits@, Visit::Enter(k, v));
            lemma_weight_push(tasks_model(visits@), Task::Enter(k@, v.model()));
            assert((base + enters(fs.skip(i + 1))).push(Task::Enter(k@, v.model())) =~= base
                + enters(fs.skip(i + 1)).push(Task::Enter(k@, v.model())));
            let ts = tasks_model(visits@).push(Task::Enter(k@, v.model()));
            assert forall|m: int| 0 <= m < ts.len() implies #[trigger] task_parsed(ts[m]) by {
                if m < ts.len() - 1 {
                    assert(ts[m] == tasks_model(visits@)[m]);
                }
            }
        }
        visits.push(Visit::Enter(k, v));
    }
    proof {
        assert(fs.skip(0) =~= fs);
    }
}

/// Entering a value that is neither an array nor an object finishes it at
/// once.
proof fn lemma_step_scalar(ts: Seq<Task>, res: Seq<Json>, k: Seq<u16>, v: Json)
    requires
        ts.len() > 0,
        ts.last() == Task::Enter(k, v),
        !(v is Array),
        !(v is Object),
    ensures
        run(ts, res) == match finish(k, v) {
            Err(e) => Outcome::Failed(e),
            Ok(w) => run(ts.drop_last(), res.push(w)),
        },
{
    reveal(run);
}

/// Rebuilding an array takes its elements from the last results.
proof fn lemma_step_array(ts: Seq<Task>, res: Seq<Json>, k: Seq<u16>, n: nat)
    requires
        ts.len() > 0,
        ts.last() == Task::Array(k, n),
        !(run(ts, res) is Stuck),
    ensures
        n <= res.len(),
        run(ts, res) == match finish(k, Json::Array(res.skip(res.len() - n))) {
            Err(e) => Outcome::Failed(e),
            Ok(w) => run(ts.drop_last(), res.take(res.len() - n).push(w)),
        },
{
    reveal(run);
}

/// Rebuilding an object takes its values from the last results.
proof fn lemma_step_object(ts: Seq<Task>, res: Seq<Json>, k: Seq<u16>, keys: Seq<Seq<u16>>)
    requires
        ts.len() > 0,
        ts.last() == Task::Object(k, keys),
        !(run(ts, res) is Stuck),
    ensures
        keys.len() <= res.len(),
        run(ts, res) == match finish(
            k,
            Json::Object(pair_up(keys, res.skip(res.len() - keys.len()))),
        ) {
            Err(e) => Outcome::Failed(e),
            Ok(w) => run(ts.drop_last(), res.take(res.len() - keys.len()).push(w)),
        },
{
    reveal(run);
}

/// The walk that starts with the root alone ends with its revived value.
proof fn lemma_run_root(root: Json)
    ensures
        run(seq![Task::Enter(Seq::empty(), root)], Seq::empty()) == match revive(
            Seq::<u16>::empty(),
            root,
        ) {
            Ok(w) => Outcome::Done(seq![w]),
            Err(e) => Outcome::Failed(e),
        },
{
    reveal(run);
    let ts = seq![Task::Enter(Seq::<u16>::empty(), root)];
    assert(ts.drop_last() =~= Seq::<Task>::empty());
    match revive(Seq::<u16>::empty(), root) {
        Ok(w) => {
            assert(Seq::<Json>::empty().push(w) =~= seq![w]);
            assert(run(Seq::<Task>::empty(), seq![w]) == Outcome::Done(seq![w]));
        },
        Err(_) => {},
    }
}

/// Pushing a revived value onto the first `at` results keeps every result
/// convertible.
proof fn lemma_results_push(kept: Seq<JsValue>, w: JsValue, at: int, res: Seq<Json>)
    requires
        0 <= at <= res.len(),
        values_model(kept) == res.take(at),
        all_convertible(res),
        text_convertible(w.model()),
    ensures
        values_model(kept.push(w)) == res.take(at).push(w.model()),
        all_convertible(values_model(kept.push(w))),
{
    assert(values_model(kept.push(w)) =~= values_model(kept).push(w.model()));
    let rs = res.take(at).push(w.model());
    assert forall|i: int| 0 <= i < rs.len() implies #[trigger] text_convertible(rs[i]) by {
        if i < at {
            assert(rs[i] == res[i]);
        }
    }
}

/// The members with the keys `keys` and the values `values`, in order.
pub(crate) fn pair_members(keys: Vec<Vec<u16>>, values: Vec<JsValue>) -> (r: Vec<(Vec<u16>, JsValue)>)
    requires
        keys@.len() == values@.len(),
    ensures
        entries_model(r@) == pair_up(keys_model(keys@), values_model(values@)),
{
    let ghost ks = keys_model(keys@);
    let ghost vs = values_model(values@);
    let n = keys.len();
    let mut keys = keys;
    let mut values = values;
    let mut rev: Vec<(Vec<u16>, JsValue)> = Vec::new();
    while keys.len() > 0
        invariant
            n == ks.len(),
            n == vs.len(),
            keys@.len() == values@.len(),
            keys@.len() + rev@.len() == n,
            keys_model(keys@) == ks.take(keys@.len() as int),
            values_model(values@) == vs.take(values@.len() as int),
            forall|t: int|
                0 <= t < rev@.len() ==> (#[trigger] rev@[t]).0@ == ks[n - 1 - t] && rev@[t].1.model()
                    == vs[n - 1 - t],
        decreases keys@.len(),
    {
        let ghost m = keys@.len() - 1;
        let ghost kb = keys@;
        let ghost vb = values@;
        let k = keys.pop().unwrap();
        let v = values.pop().unwrap();
        proof {
            assert(keys_model(kb)[m] == ks.take(m + 1)[m]);
            assert(values_model(vb)[m] == vs.take(m + 1)[m]);
            assert(keys_model(keys@) =~= ks.take(m));
            assert(values_model(values@) =~= vs.take(m));
        }
        rev.push((k, v));
    }
    let mut out: Vec<(Vec<u16>, JsValue)> = Vec::new();
    while rev.len() > 0
        invariant
            n == ks.len(),
            n == vs.len(),
            rev@.len() + out@.len() == n,
            forall|t: int|
                0 <= t < rev@.len() ==> (#[trigger] rev@[t]).0@ == ks[n - 1 - t] && rev@[t].1.model()
                    == vs[n - 1 - t],
            forall|t: int|
                0 <= t < out@.len() ==> (#[trigger] out@[t]).0@ == ks[t] && out@[t].1.model()
                    == vs[t],
        decreases rev@.len(),
    {
        let p = rev.pop().unwrap();
        out.push(p);
    }
    assert(entries_model(out@) =~= pair_up(ks, vs));
    out
}

/// What the reviver makes of `value` found under `key`, once its children
/// are revived: `BigInt(value)` under the key `big`, `value` elsewhere.
fn finish_value(key: &Vec<u16>, value: JsValue) -> (r: Result<JsValue, JsonError>)
    requires
        text_convertible(value.model()),
    ensures
        match finish(key@, value.model()) {
            Ok(w) => r matches Ok(x) && x.model() == w,
            Err(e) => r matches Err(x) && x@ == e,
        },
{
    let big = ascii_units("big");
    if units_equal(key.as_slice(), big.as_slice()) {
        purust_json_bigint(&value)
    } else {
        Ok(value)
    }
}

/// The reviver that decoding applies to a decoded value: every value under
/// the key `big` becomes `BigInt(value)`, children before their parents and
/// in order; the first conversion that fails is the error. The walk keeps
/// its own stack, so deep nesting does not exhaust the call stack.
pub fn purust_json_revive(value: JsValue) -> (r: Result<JsValue, JsonError>)
    requires
        parsed(value.model()),
    ensures
        match revive(Seq::empty(), value.model()) {
            Ok(w) => r matches Ok(x) && x.model() == w,
            Err(e) => r matches Err(x) && x@ == e,
        },
{
    let ghost root = value.model();
    let ghost target = match revive(Seq::<u16>::empty(), root) {
        Ok(w) => Outcome::Done(seq![w]),
        Err(e) => Outcome::Failed(e),
    };
    let mut visits: Vec<Visit> = Vec::new();
    let mut results: Vec<JsValue> = Vec::new();
    let first = Visit::Enter(Vec::new(), value);
    proof {
        lemma_tasks_push(visits@, first);
        assert(tasks_model(visits@) =~= Seq::<Task>::empty());
        assert(Seq::<Task>::empty().push(first.task()) =~= seq![Task::Enter(Seq::empty(), root)]);
        assert(values_model(results@) =~= Seq::<Json>::empty());
        lemma_run_root(root);
        assert(task_parsed(tasks_model(visits@.push(first))[0]));
    }
    visits.push(first);
    while visits.len() > 0
        invariant
            root == value.model(),
            target == match revive(Seq::<u16>::empty(), root) {
                Ok(w) => Outcome::Done(seq![w]),
                Err(e) => Outcome::Failed(e),
            },
            run(tasks_model(visits@), values_model(results@)) == target,
            tasks_parsed(tasks_model(visits@)),
            all_convertible(values_model(results@)),
        decreases weight(tasks_model(visits@)),
    {
        let ghost ts = tasks_model(visits@);
        let ghost res = values_model(results@);
        let ghost rest = ts.drop_last();
        let visit = visits.pop().unwrap();
        proof {
            assert(tasks_model(visits@) =~= rest);
            assert(ts.last() == visit.task());
            assert(rest.push(visit.task()) =~= ts);
            lemma_weight_push(rest, visit.task());
            assert(task_parsed(ts[ts.len() - 1]));
            assert forall|i: int| 0 <= i < rest.len() implies #[trigger] task_parsed(rest[i]) by {
                assert(rest[i] == ts[i]);
            }
        }
        match visit {
            Visit::Enter(key, value) => {
                match value {
                    JsValue::Array(items) => {
                        proof {
                            lemma_enter_array(rest, key@, values_model(items@), res);
                        }
                        enter_array(&mut visits, key, items);
                    },
                    JsValue::Object(fields) => {
                        proof {
                            lemma_enter_object(rest, key@, entries_model(fields@), res);
                        }
                        enter_object(&mut visits, key, fields);
                    },
                    value => {
                        proof {
                            lemma_step_scalar(ts, res, key@, value.model());
                        }
                        let w = match finish_value(&key, value) {
                            Ok(w) => w,
                            Err(e) => {
                                return Err(e);
                            },
                        };
                        proof {
                            assert(res.take(res.len() as int) =~= res);
                            lemma_results_push(results@, w, res.len() as int, res);
                        }
                        results.push(w);
                    },
                }
            },
            Visit::Array(key, n) => {
                proof {
                    lemma_step_array(ts, res, key@, n as nat);
                }
                let ghost rb = results@;
                let at = results.len() - n;
                let items = results.split_off(at);
                proof {
                    lemma_values_model_subrange(rb, 0, at as int);
                    lemma_values_model_subrange(rb, at as int, rb.len() as int);
                    assert(values_model(items@) =~= res.skip(at as int));
                    assert(values_model(results@) =~= res.take(at as int));
                    let vs = values_model(items@);
                    assert forall|i: int| 0 <= i < vs.len() implies #[trigger] text_convertible(
                        vs[i],
                    ) by {
                        assert(vs[i] == res[at + i]);
                    }
                    lemma_all_convertible(vs);
                }
                let w = match finish_value(&key, JsValue::Array(items)) {
                    Ok(w) => w,
                    Err(e) => {
                        return Err(e);
                    },
                };
                proof {
                    lemma_results_push(results@, w, at as int, res);
                }
                results.push(w);
            },
            Visit::Object(key, keys) => {
                proof {
                    lemma_step_object(ts, res, key@, keys_model(keys@));
                }
                let ghost rb = results@;
                let at = results.len() - keys.len();
                let items = results.split_off(at);
                proof {
                    lemma_values_model_subrange(rb, 0, at as int);
                    lemma_values_model_subrange(rb, at as int, rb.len() as int);
                    assert(values_model(items@) =~= res.skip(at as int));
                    assert(values_model(results@) =~= res.take(at as int));
                }
                let entries = pair_members(keys, items);
                let w = match finish_value(&key, JsValue::Object(entries)) {
                    Ok(w) => w,
                    Err(e) => {
                        return Err(e);
                    },
                };
                proof {
                    lemma_results_push(results@, w, at as int, res);
                }
                results.push(w);
            },
        }
    }
    proof {
        reveal(run);
        assert(tasks_model(visits@) =~= Seq::<Task>::empty());
        let res = values_model(results@);
        assert(run(Seq::<Task>::empty(), res) == Outcome::Done(res));
        if let Ok(w) = revive(Seq::<u16>::empty(), root) {
            assert(res == seq![w]);
            assert(results@.len() == 1);
            assert(results@[0].model() == res[0]);
        }
    }
    let r = results.pop().unwrap();
    Ok(r)
}

} // verus!
