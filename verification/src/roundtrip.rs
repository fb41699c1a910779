//! Laws of the JSON text that encoding writes: it is well-formed UTF-16;
//! decoding reads it, compact or indented, back as the value's tree; and
//! plain JSON data decodes to the very same value.
use vstd::prelude::*;
use crate::decode::{
    count, fill, fill_items, fill_members, items_count, items_spellings, lemma_all_items_parsed,
    lemma_all_members_parsed, members_count, members_spellings, spellings, tree_keys,
};
use crate::grammar::{
    at, digit_at, exponent_end, fraction_end, hex4_value, hex_prefix_value, hex_run, hex_value,
    insert_member, int_part_end, is_digit, is_first_key, is_hex, is_ws, items, literal_at,
    matched_units, members, number_at, parse_text, property_at, skip_digits, skip_ws, string_at,
    string_body, value, value_at, Failure, Tree,
};
use crate::pretty::{newline, pretty, pretty_elements, pretty_members, repeat_units};
use crate::revive::{lemma_revive_without_big, no_big, pair_up, parsed, revive, values_of};
use crate::stringify::{
    elements_text, escape_unit, is_high_surrogate, is_low_surrogate, items_stringifiable,
    lemma_element_stringifiable, lemma_member_stringifiable, members_stringifiable, members_text,
    quote_body, quoted, stringifiable, stringify,
};
use crate::text::{
    char_units, hex_digit, int_decimal, lemma_nat_decimal_digits, nat_decimal, unicode_escape,
    units_of,
};
use crate::value::{
    decimal_spelling, is_omitted, number_wf, structural_unit, ErrorModel, Json, NumberModel,
};

verus! {

/// The units that can continue a number: digits, signs, `.`, `e` and `E`.
pub open spec fn number_unit(u: u16) -> bool {
    is_digit(u) || u == 43 || u == 45 || u == 46 || u == 69 || u == 101
}

/// `t` reads as exactly one JSON number.
pub open spec fn json_number(t: Seq<u16>) -> bool {
    number_at(t, 0) == Ok::<(Seq<u16>, int), Failure>((t, t.len() as int))
}

/// `s` holds `t` at `p`, and no unit that could continue a number follows.
pub open spec fn holds_number(s: Seq<u16>, p: int, t: Seq<u16>) -> bool {
    &&& 0 <= p
    &&& p + t.len() <= s.len()
    &&& s.subrange(p, p + t.len()) == t
    &&& (p + t.len() == s.len() || !number_unit(s[p + t.len()]))
}

proof fn lemma_held_at(s: Seq<u16>, p: int, t: Seq<u16>, i: int, u: u16)
    requires
        holds_number(s, p, t),
        0 <= i <= t.len(),
        number_unit(u),
    ensures
        at(s, p + i, u) == at(t, i, u),
        digit_at(s, p + i) == digit_at(t, i),
        (0 <= p + i < s.len() && 49 <= s[p + i] <= 57) == (0 <= i < t.len() && 49 <= t[i] <= 57),
{
    if i < t.len() {
        assert(s[p + i] == s.subrange(p, p + t.len())[i]);
    }
}

proof fn lemma_held_digits(s: Seq<u16>, p: int, t: Seq<u16>, i: int)
    requires
        holds_number(s, p, t),
        0 <= i <= t.len(),
    ensures
        skip_digits(s, p + i) == p + skip_digits(t, i),
    decreases t.len() - i,
{
    lemma_held_at(s, p, t, i, 48);
    if i < t.len() {
        assert(s[p + i] == s.subrange(p, p + t.len())[i]);
        if is_digit(t[i]) {
            lemma_held_digits(s, p, t, i + 1);
        }
    }
}

/// A JSON number reads the same wherever it stands, when no unit that could
/// continue it follows.
proof fn lemma_number_in_context(s: Seq<u16>, p: int, t: Seq<u16>)
    requires
        holds_number(s, p, t),
        json_number(t),
    ensures
        number_at(s, p) == Ok::<(Seq<u16>, int), Failure>((t, p + t.len())),
{
    let n = t.len() as int;
    lemma_held_at(s, p, t, 0, 45);
    let q0 = if at(t, 0, 45) {
        1int
    } else {
        0int
    };
    assert(q0 <= n) by {
        if q0 == 1 {
            assert(at(t, 0, 45));
        }
    }
    lemma_held_at(s, p, t, q0, 48);
    lemma_held_digits(s, p, t, q0);
    assert(int_part_end(t, q0) is Ok);
    let q1 = int_part_end(t, q0)->Ok_0.1;
    assert(int_part_end(s, p + q0) == Ok::<((), int), Failure>(((), p + q1)));
    crate::grammar::lemma_skip_digits(t, q0);
    assert(q1 <= n);
    lemma_held_at(s, p, t, q1, 46);
    if at(t, q1, 46) {
        lemma_held_at(s, p, t, q1 + 1, 48);
        if digit_at(t, q1 + 1) {
            lemma_held_digits(s, p, t, q1 + 1);
        }
    }
    assert(fraction_end(t, q1) is Ok);
    let q2 = fraction_end(t, q1)->Ok_0.1;
    assert(fraction_end(s, p + q1) == Ok::<((), int), Failure>(((), p + q2)));
    if at(t, q1, 46) {
        crate::grammar::lemma_skip_digits(t, q1 + 1);
    }
    assert(q2 <= n);
    lemma_held_at(s, p, t, q2, 69);
    lemma_held_at(s, p, t, q2, 101);
    if at(t, q2, 69) || at(t, q2, 101) {
        lemma_held_at(s, p, t, q2 + 1, 43);
        lemma_held_at(s, p, t, q2 + 1, 45);
        let r = if at(t, q2 + 1, 43) || at(t, q2 + 1, 45) {
            q2 + 2
        } else {
            q2 + 1
        };
        lemma_held_at(s, p, t, r, 48);
        if digit_at(t, r) {
            lemma_held_digits(s, p, t, r);
        }
    }
    assert(exponent_end(t, q2) is Ok);
    let q3 = exponent_end(t, q2)->Ok_0.1;
    assert(exponent_end(s, p + q2) == Ok::<((), int), Failure>(((), p + q3)));
    assert(q3 == n);
}

/// The decimal numeral of an integer is a JSON number.
proof fn lemma_int_json_number(i: int)
    ensures
        json_number(int_decimal(i)),
{
    let t = int_decimal(i);
    let m: nat = if i < 0 {
        (-i) as nat
    } else {
        i as nat
    };
    let d = nat_decimal(m);
    lemma_nat_decimal_digits(m);
    let q0: int = if i < 0 {
        1
    } else {
        0
    };
    assert(forall|k: int| q0 <= k < t.len() ==> t[k] == d[k - q0]);
    assert(at(t, 0, 45) == (i < 0));
    lemma_all_digits(t, q0);
    if m == 0 {
        assert(d == seq![48u16]);
        assert(at(t, q0, 48));
    } else {
        assert(!at(t, q0, 48));
        assert(49 <= t[q0] <= 57);
    }
    assert(int_part_end(t, q0) == Ok::<((), int), Failure>(((), t.len() as int)));
    assert(t.subrange(0, t.len() as int) =~= t);
}

proof fn lemma_all_digits(t: Seq<u16>, q: int)
    requires
        0 <= q <= t.len(),
        forall|k: int| q <= k < t.len() ==> is_digit(#[trigger] t[k]),
    ensures
        skip_digits(t, q) == t.len(),
    decreases t.len() - q,
{
    if q < t.len() {
        lemma_all_digits(t, q + 1);
    }
}

/// `s` holds `t` at `p`.
pub open spec fn holds(s: Seq<u16>, p: int, t: Seq<u16>) -> bool {
    &&& 0 <= p
    &&& p + t.len() <= s.len()
    &&& s.subrange(p, p + t.len()) == t
}

proof fn lemma_holds_index(s: Seq<u16>, p: int, t: Seq<u16>, i: int)
    requires
        holds(s, p, t),
        0 <= i < t.len(),
    ensures
        s[p + i] == t[i],
{
    assert(s[p + i] == s.subrange(p, p + t.len())[i]);
}

proof fn lemma_holds_split(s: Seq<u16>, p: int, a: Seq<u16>, b: Seq<u16>)
    requires
        holds(s, p, a + b),
    ensures
        holds(s, p, a),
        holds(s, p + a.len(), b),
{
    assert forall|i: int| 0 <= i < a.len() implies #[trigger] s.subrange(p, p + a.len())[i] == a[i] by {
        lemma_holds_index(s, p, a + b, i);
    }
    assert(s.subrange(p, p + a.len()) =~= a);
    assert forall|i: int| 0 <= i < b.len() implies #[trigger] s.subrange(
        p + a.len(),
        p + a.len() + b.len(),
    )[i] == b[i] by {
        lemma_holds_index(s, p, a + b, a.len() + i);
    }
    assert(s.subrange(p + a.len(), p + a.len() + b.len()) =~= b);
}

proof fn lemma_hex_digit(d: int)
    requires
        0 <= d < 16,
    ensures
        is_hex(hex_digit(d)),
        hex_value(hex_digit(d)) == d,
{
}

proof fn lemma_hex_digits_value(u: u16)
    ensures
        ((((u / 4096) as int) * 16 + ((u / 256) % 16) as int) * 16 + ((u / 16) % 16) as int) * 16
            + (u % 16) as int == u,
{
    assert(((((u / 4096) as int) * 16 + ((u / 256) % 16) as int) * 16 + ((u / 16) % 16) as int)
        * 16 + (u % 16) as int == u) by (nonlinear_arith);
}

/// A `\uXXXX` escape reads back as its unit.
proof fn lemma_unicode_escape_reads(s: Seq<u16>, q: int, u: u16)
    requires
        holds(s, q, unicode_escape(u)),
    ensures
        hex_run(s, q + 2, 0) == 4,
        hex4_value(s, q + 2) == u,
{
    let e = unicode_escape(u);
    let d0 = (u / 4096) as int;
    let d1 = ((u / 256) % 16) as int;
    let d2 = ((u / 16) % 16) as int;
    let d3 = (u % 16) as int;
    lemma_hex_digit(d0);
    lemma_hex_digit(d1);
    lemma_hex_digit(d2);
    lemma_hex_digit(d3);
    lemma_holds_index(s, q, e, 2);
    lemma_holds_index(s, q, e, 3);
    lemma_holds_index(s, q, e, 4);
    lemma_holds_index(s, q, e, 5);
    assert(hex_run(s, q + 2, 4) == 4);
    assert(hex_run(s, q + 2, 3) == 4);
    assert(hex_run(s, q + 2, 2) == 4);
    assert(hex_run(s, q + 2, 1) == 4);
    assert(hex_prefix_value(s, q + 2, 0) == 0);
    assert(hex_prefix_value(s, q + 2, 1) == d0);
    assert(hex_prefix_value(s, q + 2, 2) == d0 * 16 + d1);
    assert(hex_prefix_value(s, q + 2, 3) == (d0 * 16 + d1) * 16 + d2);
    assert(hex_prefix_value(s, q + 2, 4) == ((d0 * 16 + d1) * 16 + d2) * 16 + d3);
    lemma_hex_digits_value(u);
}

/// The inside of a string literal, then its closing quote, reads back as
/// the units it was written from.
proof fn lemma_string_body_reads(s: Seq<u16>, p: int, x: Seq<u16>, acc: Seq<u16>)
    requires
        holds(s, p, quote_body(x) + seq![34u16]),
    ensures
        string_body(s, p, acc) == Ok::<(Seq<u16>, int), Failure>(
            (acc + x, p + quote_body(x).len() + 1),
        ),
    decreases x.len(),
{
    let rest = quote_body(x) + seq![34u16];
    if x.len() == 0 {
        lemma_holds_index(s, p, rest, 0);
        assert(acc + x =~= acc);
    } else if x.len() >= 2 && is_high_surrogate(x[0]) && is_low_surrogate(x[1]) {
        let head = seq![x[0], x[1]];
        let tail = quote_body(x.skip(2)) + seq![34u16];
        assert(rest =~= head + tail);
        lemma_holds_split(s, p, head, tail);
        lemma_holds_index(s, p, head, 0);
        lemma_holds_index(s, p, head, 1);
        lemma_string_body_reads(s, p + 2, x.skip(2), acc.push(x[0]).push(x[1]));
        assert(acc.push(x[0]).push(x[1]) + x.skip(2) =~= acc + x);
        assert(string_body(s, p + 1, acc.push(x[0])) == string_body(s, p + 2, acc.push(x[0]).push(x[1])));
        assert(string_body(s, p, acc) == string_body(s, p + 2, acc.push(x[0]).push(x[1])));
    } else {
        let u = x[0];
        let head = escape_unit(u);
        let tail = quote_body(x.skip(1)) + seq![34u16];
        assert(rest =~= head + tail);
        lemma_holds_split(s, p, head, tail);
        lemma_holds_index(s, p, head, 0);
        if head.len() > 1 {
            lemma_holds_index(s, p, head, 1);
        }
        if u <= 0x1f && u != 8 && u != 9 && u != 10 && u != 12 && u != 13 || (0xd800 <= u
            <= 0xdfff) {
            lemma_unicode_escape_reads(s, p, u);
        }
        lemma_string_body_reads(s, p + head.len(), x.skip(1), acc.push(u));
        assert(acc.push(u) + x.skip(1) =~= acc + x);
        assert(quote_body(x).len() == head.len() + quote_body(x.skip(1)).len());
        assert(string_body(s, p, acc) == string_body(s, p + head.len(), acc.push(u)));
    }
}

/// A string literal reads back as the units it was written from.
proof fn lemma_quoted_reads(s: Seq<u16>, p: int, x: Seq<u16>)
    requires
        holds(s, p, quoted(x)),
    ensures
        string_at(s, p) == Ok::<(Seq<u16>, int), Failure>((x, p + quoted(x).len())),
{
    let body = quote_body(x) + seq![34u16];
    assert(quoted(x) =~= seq![34u16] + body);
    lemma_holds_split(s, p, seq![34u16], body);
    lemma_holds_index(s, p, seq![34u16], 0);
    lemma_string_body_reads(s, p + 1, x, Seq::empty());
    assert(Seq::<u16>::empty() + x =~= x);
}

proof fn lemma_matched_all(s: Seq<u16>, q: int, lit: Seq<u16>, k: int)
    requires
        holds(s, q, lit),
        0 <= k <= lit.len(),
    ensures
        matched_units(s, q, lit, k) == lit.len(),
    decreases lit.len() - k,
{
    if k < lit.len() {
        lemma_holds_index(s, q, lit, k);
        lemma_matched_all(s, q, lit, k + 1);
    }
}

/// `null`, `true` and `false` read back as themselves.
proof fn lemma_literal_reads(s: Seq<u16>, q: int, v: Tree)
    requires
        v is Null || v is Bool,
        holds(s, q, literal_text(v)),
    ensures
        literal_at(s, q) == Ok::<(Tree, int), Failure>((v, q + literal_text(v).len())),
{
    reveal_strlit("null");
    reveal_strlit("true");
    reveal_strlit("false");
    let lit = literal_text(v);
    lemma_holds_index(s, q, lit, 0);
    lemma_matched_all(s, q, lit, 0);
}

/// The text of `null`, `true` or `false`.
pub open spec fn literal_text(v: Tree) -> Seq<u16> {
    match v {
        Tree::Bool(true) => units_of("true"@),
        Tree::Bool(false) => units_of("false"@),
        _ => units_of("null"@),
    }
}

/// The text of an array element: `null` for an omitted one.
pub open spec fn element_text(v: Json) -> Seq<u16> {
    if is_omitted(v) {
        units_of("null"@)
    } else {
        stringify(v)
    }
}

/// The elements' text, read from the first element on.
proof fn lemma_elements_front(items: Seq<Json>)
    requires
        items.len() > 0,
    ensures
        elements_text(items) == if items.len() == 1 {
            element_text(items[0])
        } else {
            element_text(items[0]) + seq![44u16] + elements_text(items.skip(1))
        },
    decreases items.len(),
{
    if items.len() == 2 {
        assert(items.drop_last().len() == 1);
        assert(items.skip(1).len() == 1);
        assert(elements_text(items.drop_last()) == element_text(items[0]));
        assert(elements_text(items.skip(1)) == element_text(items[1]));
    } else if items.len() > 2 {
        let d = items.drop_last();
        lemma_elements_front(d);
        assert(d.skip(1) =~= items.skip(1).drop_last());
        assert(items.skip(1).last() == items.last());
        assert(elements_text(items) =~= element_text(items[0]) + seq![44u16] + elements_text(
            items.skip(1),
        ));
    }
}

/// The text of a member that is not omitted: `"key":value`.
pub open spec fn member_text(m: (Seq<u16>, Json)) -> Seq<u16> {
    quoted(m.0) + seq![58u16] + stringify(m.1)
}

/// The members' text, read from the first member on.
pub open spec fn front_members(fs: Seq<(Seq<u16>, Json)>) -> Seq<u16>
    decreases fs.len(),
{
    if fs.len() == 0 {
        Seq::empty()
    } else if is_omitted(fs[0].1) {
        front_members(fs.skip(1))
    } else {
        let rest = front_members(fs.skip(1));
        member_text(fs[0]) + if rest.len() == 0 {
            Seq::empty()
        } else {
            seq![44u16] + rest
        }
    }
}

/// The members' text after one more member.
spec fn join_member(r: Seq<u16>, m: (Seq<u16>, Json)) -> Seq<u16> {
    if is_omitted(m.1) {
        r
    } else if r.len() == 0 {
        member_text(m)
    } else {
        r + seq![44u16] + member_text(m)
    }
}

proof fn lemma_front_members_push(fs: Seq<(Seq<u16>, Json)>, m: (Seq<u16>, Json))
    ensures
        front_members(fs.push(m)) == join_member(front_members(fs), m),
    decreases fs.len(),
{
    assert(member_text(m).len() > 0);
    let fm = fs.push(m);
    if fs.len() == 0 {
        assert(fm.skip(1) =~= Seq::<(Seq<u16>, Json)>::empty());
        assert(front_members(fm.skip(1)) == Seq::<u16>::empty());
        assert(fm[0] == m);
        if !is_omitted(m.1) {
            assert(member_text(m) + Seq::<u16>::empty() =~= member_text(m));
        }
    } else {
        assert(fm.skip(1) =~= fs.skip(1).push(m));
        assert(fm[0] == fs[0]);
        lemma_front_members_push(fs.skip(1), m);
        let r = front_members(fs.skip(1));
        let m0 = fs[0];
        let j = join_member(r, m);
        assert(front_members(fm.skip(1)) == j);
        if is_omitted(m0.1) {
            assert(front_members(fm) == j);
            assert(front_members(fs) == r);
        } else {
            let t0 = member_text(m0);
            assert(t0.len() > 0);
            assert(front_members(fm) == t0 + if j.len() == 0 {
                Seq::<u16>::empty()
            } else {
                seq![44u16] + j
            });
            assert(front_members(fs) == t0 + if r.len() == 0 {
                Seq::<u16>::empty()
            } else {
                seq![44u16] + r
            });
            if is_omitted(m.1) {
                assert(j == r);
            } else if r.len() == 0 {
                assert(j == member_text(m));
                assert(t0 + (seq![44u16] + member_text(m)) =~= (t0 + Seq::<u16>::empty()) + seq![
                    44u16,
                ] + member_text(m));
            } else {
                assert(j == r + seq![44u16] + member_text(m));
                assert(t0 + (seq![44u16] + (r + seq![44u16] + member_text(m))) =~= (t0 + (seq![
                    44u16,
                ] + r)) + seq![44u16] + member_text(m));
            }
        }
    }
}

/// The members' text, as the encoder writes it, read from the first
/// member on.
proof fn lemma_members_front(fs: Seq<(Seq<u16>, Json)>)
    ensures
        members_text(fs) == front_members(fs),
    decreases fs.len(),
{
    if fs.len() > 0 {
        lemma_members_front(fs.drop_last());
        lemma_front_members_push(fs.drop_last(), fs.last());
        assert(fs.drop_last().push(fs.last()) =~= fs);
    }
}

/// Every finite number inside `v` prints as a JSON number.
pub open spec fn numbers_json(v: Json) -> bool
    decreases v, 1nat,
{
    match v {
        Json::Number(n) => n.finite ==> json_number(n.text),
        Json::Array(items) => items_numbers_json(items),
        Json::Object(fs) => members_numbers_json(fs),
        Json::Record(fs) => members_numbers_json(fs),
        _ => true,
    }
}

pub open spec fn items_numbers_json(items: Seq<Json>) -> bool
    decreases items, 0nat,
{
    items.len() == 0 || (numbers_json(items[0]) && items_numbers_json(items.skip(1)))
}

pub open spec fn members_numbers_json(fs: Seq<(Seq<u16>, Json)>) -> bool
    decreases fs, 0nat,
{
    fs.len() == 0 || (numbers_json(fs[0].1) && members_numbers_json(fs.skip(1)))
}

/// The tree that the JSON text of `v` decodes to: a number by its text
/// (`null` when it is not finite), a character or a `BigInt` as a string,
/// an omitted element as `null`, an omitted member left out, and a repeated
/// key in its first place with its last value.
pub open spec fn tree_of(v: Json) -> Tree
    decreases v, 1nat,
{
    match v {
        Json::Null => Tree::Null,
        Json::Bool(b) => Tree::Bool(b),
        Json::Int(n) => Tree::Number(int_decimal(n)),
        Json::Number(n) => if n.finite {
            Tree::Number(n.text)
        } else {
            Tree::Null
        },
        Json::Str(s) => Tree::Str(s),
        Json::Char(c) => Tree::Str(char_units(c)),
        Json::BigInt(i) => Tree::Str(int_decimal(i)),
        Json::Array(items) => Tree::Array(element_trees(items)),
        Json::Object(fs) => Tree::Object(member_trees(fs, Seq::empty())),
        Json::Record(fs) => Tree::Object(member_trees(fs, Seq::empty())),
        _ => Tree::Null,
    }
}

pub open spec fn element_trees(items: Seq<Json>) -> Seq<Tree>
    decreases items, 0nat,
{
    if items.len() == 0 {
        Seq::empty()
    } else {
        seq![
            if is_omitted(items[0]) {
                Tree::Null
            } else {
                tree_of(items[0])
            },
        ] + element_trees(items.skip(1))
    }
}

/// The members `acc`, then those of `fs` that are not omitted, each set as
/// decoding sets a member.
pub open spec fn member_trees(fs: Seq<(Seq<u16>, Json)>, acc: Seq<(Seq<u16>, Tree)>) -> Seq<
    (Seq<u16>, Tree),
>
    decreases fs, 0nat,
{
    if fs.len() == 0 {
        acc
    } else if is_omitted(fs[0].1) {
        member_trees(fs.skip(1), acc)
    } else {
        member_trees(fs.skip(1), insert_member(acc, fs[0].0, tree_of(fs[0].1)))
    }
}

/// The units that can start the text of a value.
pub open spec fn starts_value(u: u16) -> bool {
    u == 34 || u == 45 || is_digit(u) || u == 110 || u == 116 || u == 102 || u == 91 || u == 123
}

/// What may follow a value: nothing, or a unit that cannot continue a
/// number.
pub open spec fn ends_value(s: Seq<u16>, e: int) -> bool {
    e == s.len() || (0 <= e < s.len() && !number_unit(s[e]))
}

proof fn lemma_json_number_start(t: Seq<u16>)
    requires
        json_number(t),
    ensures
        t.len() > 0,
        t[0] == 45 || is_digit(t[0]),
{
}

proof fn lemma_text_start(v: Json)
    requires
        stringifiable(v),
        numbers_json(v),
    ensures
        stringify(v).len() > 0,
        starts_value(stringify(v)[0]),
{
    reveal_strlit("null");
    reveal_strlit("true");
    reveal_strlit("false");
    match v {
        Json::Int(n) => {
            lemma_int_json_number(n);
            lemma_json_number_start(int_decimal(n));
        },
        Json::Number(n) => {
            if n.finite {
                lemma_json_number_start(n.text);
            }
        },
        _ => {},
    }
}

proof fn lemma_front_members_start(fs: Seq<(Seq<u16>, Json)>, acc: Seq<(Seq<u16>, Tree)>)
    ensures
        front_members(fs).len() == 0 ==> member_trees(fs, acc) == acc,
        front_members(fs).len() > 0 ==> front_members(fs)[0] == 34,
    decreases fs.len(),
{
    if fs.len() > 0 {
        if is_omitted(fs[0].1) {
            lemma_front_members_start(fs.skip(1), acc);
        } else {
            assert(member_text(fs[0])[0] == 34);
            assert(member_text(fs[0]).len() > 0);
        }
    }
}

proof fn lemma_skip_no_ws(s: Seq<u16>, p: int)
    requires
        0 <= p <= s.len(),
        p < s.len() ==> !is_ws(s[p]),
    ensures
        skip_ws(s, p) == p,
{
}

/// `null` reads back as itself.
proof fn lemma_null_reads(s: Seq<u16>, p: int)
    requires
        holds(s, p, units_of("null"@)),
    ensures
        value(s, p) == Ok::<(Tree, int), Failure>((Tree::Null, p + 4)),
{
    reveal_strlit("null");
    lemma_holds_index(s, p, units_of("null"@), 0);
    lemma_skip_no_ws(s, p);
    lemma_literal_reads(s, p, Tree::Null);
}

/// The text of a value reads back as its tree.
proof fn lemma_value_reads(s: Seq<u16>, p: int, v: Json)
    requires
        stringifiable(v),
        numbers_json(v),
        holds(s, p, stringify(v)),
        ends_value(s, p + stringify(v).len()),
    ensures
        value(s, p) == Ok::<(Tree, int), Failure>((tree_of(v), p + stringify(v).len())),
    decreases v, 2nat,
{
    let t = stringify(v);
    let e = p + t.len();
    lemma_text_start(v);
    lemma_holds_index(s, p, t, 0);
    lemma_skip_no_ws(s, p);
    reveal_strlit("null");
    reveal_strlit("true");
    reveal_strlit("false");
    match v {
        Json::Null => {
            lemma_literal_reads(s, p, Tree::Null);
        },
        Json::Bool(b) => {
            lemma_literal_reads(s, p, Tree::Bool(b));
        },
        Json::Int(n) => {
            lemma_int_json_number(n);
            lemma_number_in_context(s, p, t);
        },
        Json::Number(n) => {
            if n.finite {
                lemma_number_in_context(s, p, t);
            } else {
                lemma_literal_reads(s, p, Tree::Null);
            }
        },
        Json::Str(x) => {
            lemma_quoted_reads(s, p, x);
        },
        Json::Char(c) => {
            lemma_quoted_reads(s, p, char_units(c));
        },
        Json::BigInt(i) => {
            lemma_quoted_reads(s, p, int_decimal(i));
        },
        Json::Array(items) => {
            let inner = elements_text(items) + seq![93u16];
            assert(t =~= seq![91u16] + inner);
            lemma_holds_split(s, p, seq![91u16], inner);
            if items.len() == 0 {
                lemma_holds_index(s, p, t, 1);
                lemma_skip_no_ws(s, p + 1);
                assert(element_trees(items) =~= Seq::<Tree>::empty());
            } else {
                lemma_elements_front(items);
                assert forall|j: int| 0 <= j < items.len() implies is_omitted(#[trigger] items[j])
                    || stringifiable(items[j]) by {
                    lemma_element_stringifiable(items, j);
                }
                let e0 = element_text(items[0]);
                if is_omitted(items[0]) {
                    assert(e0[0] == 110);
                } else {
                    lemma_text_start(items[0]);
                }
                assert(inner[0] == e0[0]);
                lemma_holds_index(s, p + 1, inner, 0);
                lemma_skip_no_ws(s, p + 1);
                lemma_items_reads(s, p + 1, items, Seq::empty());
                assert(Seq::<Tree>::empty() + element_trees(items) =~= element_trees(items));
            }
        },
        Json::Object(fs) => {
            lemma_object_reads(s, p, fs);
        },
        Json::Record(fs) => {
            lemma_object_reads(s, p, fs);
        },
        _ => {},
    }
}

/// The text of an object's members, between braces, reads back as the
/// object's tree.
proof fn lemma_object_reads(s: Seq<u16>, p: int, fs: Seq<(Seq<u16>, Json)>)
    requires
        members_stringifiable(fs),
        members_numbers_json(fs),
        holds(s, p, seq![123u16] + members_text(fs) + seq![125u16]),
    ensures
        value_at(s, p) == Ok::<(Tree, int), Failure>(
            (Tree::Object(member_trees(fs, Seq::empty())), p + members_text(fs).len() + 2),
        ),
    decreases fs, 2nat,
{
    let t = seq![123u16] + members_text(fs) + seq![125u16];
    lemma_members_front(fs);
    let body = front_members(fs);
    let inner = body + seq![125u16];
    assert(t =~= seq![123u16] + inner);
    lemma_holds_split(s, p, seq![123u16], inner);
    lemma_holds_index(s, p, t, 0);
    lemma_front_members_start(fs, Seq::empty());
    lemma_holds_index(s, p + 1, inner, 0);
    lemma_skip_no_ws(s, p + 1);
    if body.len() > 0 {
        assert forall|j: int| 0 <= j < fs.len() implies is_omitted(#[trigger] fs[j].1)
            || stringifiable(fs[j].1) by {
            lemma_member_stringifiable(fs, j);
        }
        lemma_members_reads(s, p + 1, fs, Seq::empty());
    }
}

/// Array elements and the closing bracket read back as the elements' trees.
proof fn lemma_items_reads(s: Seq<u16>, p: int, elems: Seq<Json>, acc: Seq<Tree>)
    requires
        elems.len() > 0,
        forall|j: int| 0 <= j < elems.len() ==> is_omitted(#[trigger] elems[j]) || stringifiable(elems[j]),
        items_numbers_json(elems),
        holds(s, p, elements_text(elems) + seq![93u16]),
    ensures
        items(s, p, acc) == Ok::<(Tree, int), Failure>(
            (Tree::Array(acc + element_trees(elems)), p + elements_text(elems).len() + 1),
        ),
    decreases elems, 1nat,
{
    lemma_elements_front(elems);
    let x = elems[0];
    let e0 = element_text(x);
    let tail = if elems.len() == 1 {
        seq![93u16]
    } else {
        seq![44u16] + elements_text(elems.skip(1)) + seq![93u16]
    };
    assert(elements_text(elems) + seq![93u16] =~= e0 + tail);
    lemma_holds_split(s, p, e0, tail);
    lemma_holds_index(s, p + e0.len(), tail, 0);
    let t0 = if is_omitted(x) {
        Tree::Null
    } else {
        tree_of(x)
    };
    if is_omitted(x) {
        reveal_strlit("null");
        lemma_null_reads(s, p);
    } else {
        lemma_value_reads(s, p, x);
    }
    let r = p + e0.len();
    lemma_skip_no_ws(s, r);
    let acc1 = acc.push(t0);
    if elems.len() == 1 {
        assert(elems.skip(1) =~= Seq::<Json>::empty());
        assert(element_trees(elems.skip(1)) == Seq::<Tree>::empty());
        assert(element_trees(elems) == seq![t0] + element_trees(elems.skip(1)));
        assert(acc1 =~= acc + element_trees(elems));
    } else {
        let rest = elems.skip(1);
        let tail2 = elements_text(rest) + seq![93u16];
        assert(tail =~= seq![44u16] + tail2);
        lemma_holds_split(s, r, seq![44u16], tail2);
        assert forall|j: int| 0 <= j < rest.len() implies is_omitted(#[trigger] rest[j])
            || stringifiable(rest[j]) by {
            assert(rest[j] == elems[j + 1]);
        }
        lemma_items_reads(s, r + 1, rest, acc1);
        assert(element_trees(elems) == seq![t0] + element_trees(rest));
        assert(acc1 + element_trees(rest) =~= acc + element_trees(elems));
    }
}

/// Object members, from the first property name on, and the closing brace
/// read back as the members' trees, each set as decoding sets a member.
proof fn lemma_members_reads(
    s: Seq<u16>,
    p: int,
    fs: Seq<(Seq<u16>, Json)>,
    acc: Seq<(Seq<u16>, Tree)>,
)
    requires
        front_members(fs).len() > 0,
        forall|j: int| 0 <= j < fs.len() ==> is_omitted(#[trigger] fs[j].1) || stringifiable(fs[j].1),
        members_numbers_json(fs),
        holds(s, p, front_members(fs) + seq![125u16]),
    ensures
        property_at(s, p) matches Ok((k, r)) && p < r <= s.len() && members(s, r, acc, k) == Ok::<
            (Tree, int),
            Failure,
        >((Tree::Object(member_trees(fs, acc)), p + front_members(fs).len() + 1)),
    decreases fs, 1nat,
{
    let rest = fs.skip(1);
    assert forall|j: int| 0 <= j < rest.len() implies is_omitted(#[trigger] rest[j].1)
        || stringifiable(rest[j].1) by {
        assert(rest[j] == fs[j + 1]);
    }
    if is_omitted(fs[0].1) {
        lemma_members_reads(s, p, rest, acc);
    } else {
        let (k0, v0) = fs[0];
        let q0 = quoted(k0);
        let t0 = stringify(v0);
        let rt = front_members(rest);
        let tail = if rt.len() == 0 {
            seq![125u16]
        } else {
            seq![44u16] + rt + seq![125u16]
        };
        assert(front_members(fs) + seq![125u16] =~= q0 + (seq![58u16] + (t0 + tail)));
        lemma_holds_split(s, p, q0, seq![58u16] + (t0 + tail));
        lemma_holds_split(s, p + q0.len(), seq![58u16], t0 + tail);
        lemma_holds_split(s, p + q0.len() + 1, t0, tail);
        lemma_holds_index(s, p + q0.len(), seq![58u16], 0);
        lemma_holds_index(s, p + q0.len() + 1 + t0.len(), tail, 0);
        lemma_holds_index(s, p, q0, 0);
        lemma_skip_no_ws(s, p);
        lemma_quoted_reads(s, p, k0);
        let q = p + q0.len();
        lemma_skip_no_ws(s, q);
        let r = q + 1;
        assert(property_at(s, p) == Ok::<(Seq<u16>, int), Failure>((k0, r)));
        lemma_value_reads(s, r, v0);
        let e = r + t0.len();
        lemma_skip_no_ws(s, e);
        let acc1 = insert_member(acc, k0, tree_of(v0));
        if rt.len() == 0 {
            lemma_front_members_start(rest, acc1);
        } else {
            let tail2 = rt + seq![125u16];
            assert(tail =~= seq![44u16] + tail2);
            lemma_holds_split(s, e, seq![44u16], tail2);
            lemma_members_reads(s, e + 1, rest, acc1);
        }
    }
}

/// Decoding the JSON text of a value gives back its tree: what
/// `JSON.stringify` writes, `JSON.parse` reads as the same strings, the
/// same number spellings, the same literals, and arrays and objects of
/// those, for every value that has a text and whose finite numbers print
/// as JSON numbers.
pub proof fn lemma_parse_stringify(v: Json)
    requires
        stringifiable(v),
        numbers_json(v),
    ensures
        parse_text(stringify(v)) == Ok::<Tree, Failure>(tree_of(v)),
{
    let s = stringify(v);
    assert(s.subrange(0, s.len() as int) =~= s);
    lemma_value_reads(s, 0, v);
    lemma_skip_no_ws(s, s.len() as int);
}

/// The unit at `i` is in place: a high surrogate is followed by a low one,
/// and a low surrogate follows a high one.
pub open spec fn unit_in_place(s: Seq<u16>, i: int) -> bool {
    &&& is_high_surrogate(s[i]) ==> i + 1 < s.len() && is_low_surrogate(s[i + 1])
    &&& is_low_surrogate(s[i]) ==> i > 0 && is_high_surrogate(s[i - 1])
}

/// `s` is well-formed UTF-16: every surrogate is part of a pair.
pub open spec fn well_formed_utf16(s: Seq<u16>) -> bool {
    forall|i: int| 0 <= i < s.len() ==> #[trigger] unit_in_place(s, i)
}

proof fn lemma_wf_concat(a: Seq<u16>, b: Seq<u16>)
    requires
        well_formed_utf16(a),
        well_formed_utf16(b),
    ensures
        well_formed_utf16(a + b),
{
    let s = a + b;
    assert forall|i: int| 0 <= i < s.len() implies #[trigger] unit_in_place(s, i) by {
        if i < a.len() {
            assert(unit_in_place(a, i));
            assert(s[i] == a[i]);
            if i + 1 < a.len() {
                assert(s[i + 1] == a[i + 1]);
            }
            if i > 0 {
                assert(s[i - 1] == a[i - 1]);
            }
        } else {
            let j = i - a.len();
            assert(unit_in_place(b, j));
            assert(s[i] == b[j]);
            if j + 1 < b.len() {
                assert(s[i + 1] == b[j + 1]);
            }
            if j > 0 {
                assert(s[i - 1] == b[j - 1]);
            }
        }
    }
}

/// Units below the surrogates form well-formed UTF-16.
proof fn lemma_wf_plain(s: Seq<u16>)
    requires
        forall|i: int| 0 <= i < s.len() ==> #[trigger] s[i] < 0xd800,
    ensures
        well_formed_utf16(s),
{
    assert forall|i: int| 0 <= i < s.len() implies #[trigger] unit_in_place(s, i) by {
        assert(s[i] < 0xd800);
    }
}

proof fn lemma_wf_escape(u: u16)
    ensures
        well_formed_utf16(escape_unit(u)),
{
    let e = escape_unit(u);
    if u == 0x22 || u == 0x5c || u == 8 || u == 9 || u == 10 || u == 12 || u == 13 || u <= 0x1f
        || (0xd800 <= u <= 0xdfff) {
        if !(u == 0x22 || u == 0x5c || u == 8 || u == 9 || u == 10 || u == 12 || u == 13) {
            let d0 = (u / 4096) as int;
            let d1 = ((u / 256) % 16) as int;
            let d2 = ((u / 16) % 16) as int;
            let d3 = (u % 16) as int;
            assert(e == seq![92u16, 117u16, hex_digit(d0), hex_digit(d1), hex_digit(d2), hex_digit(d3)]);
        }
        lemma_wf_plain(e);
    } else {
        assert(e == seq![u]);
        assert(unit_in_place(e, 0));
    }
}

proof fn lemma_wf_quote_body(x: Seq<u16>)
    ensures
        well_formed_utf16(quote_body(x)),
    decreases x.len(),
{
    if x.len() == 0 {
        assert(well_formed_utf16(quote_body(x)));
    } else if x.len() >= 2 && is_high_surrogate(x[0]) && is_low_surrogate(x[1]) {
        let pair = seq![x[0], x[1]];
        assert(unit_in_place(pair, 0));
        assert(unit_in_place(pair, 1));
        lemma_wf_quote_body(x.skip(2));
        lemma_wf_concat(pair, quote_body(x.skip(2)));
    } else {
        lemma_wf_escape(x[0]);
        lemma_wf_quote_body(x.skip(1));
        lemma_wf_concat(escape_unit(x[0]), quote_body(x.skip(1)));
    }
}

/// A string literal is well-formed UTF-16, whatever units it holds: a lone
/// surrogate is written as an escape.
proof fn lemma_wf_quoted(x: Seq<u16>)
    ensures
        well_formed_utf16(quoted(x)),
{
    lemma_wf_quote_body(x);
    lemma_wf_plain(seq![34u16]);
    lemma_wf_concat(seq![34u16], quote_body(x));
    lemma_wf_concat(seq![34u16] + quote_body(x), seq![34u16]);
}

proof fn lemma_wf_char(c: char)
    ensures
        well_formed_utf16(char_units(c)),
{
    let t = char_units(c);
    let v = c as int;
    if v < 0x10000 {
        assert(t == seq![v as u16]);
        assert(unit_in_place(t, 0));
    } else {
        assert(unit_in_place(t, 0));
        assert(unit_in_place(t, 1));
    }
}

proof fn lemma_wf_int(i: int)
    ensures
        well_formed_utf16(int_decimal(i)),
{
    let n: nat = if i < 0 {
        (-i) as nat
    } else {
        i as nat
    };
    lemma_nat_decimal_digits(n);
    let t = int_decimal(i);
    assert forall|k: int| 0 <= k < t.len() implies #[trigger] t[k] < 0xd800 by {
        if i < 0 {
            if k > 0 {
                assert(t[k] == nat_decimal(n)[k - 1]);
            }
        }
    }
    lemma_wf_plain(t);
}

/// The units of a JSON number are all below the surrogates.
proof fn lemma_wf_json_number(t: Seq<u16>)
    requires
        json_number(t),
    ensures
        well_formed_utf16(t),
{
    let q0 = if at(t, 0, 45) {
        1int
    } else {
        0int
    };
    let q1 = int_part_end(t, q0)->Ok_0.1;
    let q2 = fraction_end(t, q1)->Ok_0.1;
    let q3 = exponent_end(t, q2)->Ok_0.1;
    if at(t, q0, 48) {
    } else {
        lemma_digits_run(t, q0);
    }
    if at(t, q1, 46) {
        lemma_digits_run(t, q1 + 1);
    }
    if at(t, q2, 69) || at(t, q2, 101) {
        let r = if at(t, q2 + 1, 43) || at(t, q2 + 1, 45) {
            q2 + 2
        } else {
            q2 + 1
        };
        lemma_digits_run(t, r);
    }
    assert forall|k: int| 0 <= k < t.len() implies #[trigger] t[k] < 0xd800 by {
        if k < q0 {
        } else if k < q1 {
        } else if k < q2 {
        } else {
        }
    }
    lemma_wf_plain(t);
}

proof fn lemma_digits_run(t: Seq<u16>, p: int)
    requires
        0 <= p <= t.len(),
    ensures
        forall|k: int| p <= k < skip_digits(t, p) ==> is_digit(#[trigger] t[k]),
        p <= skip_digits(t, p) <= t.len(),
    decreases t.len() - p,
{
    if p < t.len() && is_digit(t[p]) {
        lemma_digits_run(t, p + 1);
    }
}

/// Every finite number of `v` is a JSON number, and `v` has a text: its
/// text is well-formed UTF-16.
proof fn lemma_wf_value(v: Json)
    requires
        stringifiable(v),
        numbers_json(v),
    ensures
        well_formed_utf16(stringify(v)),
    decreases v, 2nat,
{
    reveal_strlit("null");
    reveal_strlit("true");
    reveal_strlit("false");
    match v {
        Json::Int(n) => lemma_wf_int(n),
        Json::Number(n) => {
            if n.finite {
                lemma_wf_json_number(n.text);
            } else {
                lemma_wf_plain(stringify(v));
            }
        },
        Json::Str(x) => lemma_wf_quoted(x),
        Json::Char(c) => {
            lemma_wf_char(c);
            lemma_wf_quoted(char_units(c));
        },
        Json::BigInt(i) => lemma_wf_quoted(int_decimal(i)),
        Json::Array(items) => {
            lemma_wf_elements(items);
            lemma_wf_plain(seq![91u16]);
            lemma_wf_plain(seq![93u16]);
            lemma_wf_concat(seq![91u16], elements_text(items));
            lemma_wf_concat(seq![91u16] + elements_text(items), seq![93u16]);
        },
        Json::Object(fs) => {
            lemma_wf_members(fs);
            lemma_wf_plain(seq![123u16]);
            lemma_wf_plain(seq![125u16]);
            lemma_wf_concat(seq![123u16], members_text(fs));
            lemma_wf_concat(seq![123u16] + members_text(fs), seq![125u16]);
        },
        Json::Record(fs) => {
            lemma_wf_members(fs);
            lemma_wf_plain(seq![123u16]);
            lemma_wf_plain(seq![125u16]);
            lemma_wf_concat(seq![123u16], members_text(fs));
            lemma_wf_concat(seq![123u16] + members_text(fs), seq![125u16]);
        },
        _ => lemma_wf_plain(stringify(v)),
    }
}

proof fn lemma_wf_elements(items: Seq<Json>)
    requires
        items_stringifiable(items),
        items_numbers_json(items),
    ensures
        well_formed_utf16(elements_text(items)),
    decreases items, 1nat,
{
    if items.len() > 0 {
        lemma_items_numbers_json_drop_last(items);
        lemma_wf_elements(items.drop_last());
        let last = items.last();
        lemma_items_numbers_json_last(items);
        if is_omitted(last) {
            reveal_strlit("null");
            lemma_wf_plain(units_of("null"@));
        } else {
            lemma_wf_value(last);
        }
        let e = element_text(last);
        if items.len() > 1 {
            lemma_wf_plain(seq![44u16]);
            lemma_wf_concat(elements_text(items.drop_last()), seq![44u16]);
            lemma_wf_concat(elements_text(items.drop_last()) + seq![44u16], e);
        }
    } else {
        assert(well_formed_utf16(elements_text(items)));
    }
}

proof fn lemma_wf_members(fs: Seq<(Seq<u16>, Json)>)
    requires
        members_stringifiable(fs),
        members_numbers_json(fs),
    ensures
        well_formed_utf16(members_text(fs)),
    decreases fs, 1nat,
{
    if fs.len() > 0 {
        lemma_members_numbers_json_drop_last(fs);
        lemma_wf_members(fs.drop_last());
        let (k, v) = fs.last();
        lemma_members_numbers_json_last(fs);
        if !is_omitted(v) {
            let rest = members_text(fs.drop_last());
            lemma_wf_value(v);
            lemma_wf_quoted(k);
            lemma_wf_plain(seq![58u16]);
            lemma_wf_plain(seq![44u16]);
            lemma_wf_concat(quoted(k), seq![58u16]);
            lemma_wf_concat(quoted(k) + seq![58u16], stringify(v));
            if rest.len() > 0 {
                lemma_wf_concat(rest, seq![44u16]);
                lemma_wf_concat(rest + seq![44u16], quoted(k));
                lemma_wf_concat(rest + seq![44u16] + quoted(k), seq![58u16]);
                lemma_wf_concat(rest + seq![44u16] + quoted(k) + seq![58u16], stringify(v));
            }
        }
    } else {
        assert(well_formed_utf16(members_text(fs)));
    }
}

proof fn lemma_items_numbers_json_all(items: Seq<Json>)
    ensures
        items_numbers_json(items) <==> forall|j: int| 0 <= j < items.len() ==> numbers_json(
            #[trigger] items[j],
        ),
    decreases items.len(),
{
    if items.len() > 0 {
        lemma_items_numbers_json_all(items.skip(1));
        assert forall|j: int| 0 <= j < items.len() - 1 implies #[trigger] items.skip(1)[j] == items[j
            + 1] by {}
        if forall|j: int| 0 <= j < items.len() ==> numbers_json(#[trigger] items[j]) {
            assert(numbers_json(items[0]));
            assert forall|j: int| 0 <= j < items.skip(1).len() implies numbers_json(
                #[trigger] items.skip(1)[j],
            ) by {
                assert(numbers_json(items[j + 1]));
            }
        }
        if items_numbers_json(items) {
            assert forall|j: int| 0 <= j < items.len() implies numbers_json(#[trigger] items[j]) by {
                if j > 0 {
                    assert(numbers_json(items.skip(1)[j - 1]));
                }
            }
        }
    }
}

proof fn lemma_items_numbers_json_drop_last(items: Seq<Json>)
    requires
        items.len() > 0,
        items_numbers_json(items),
    ensures
        items_numbers_json(items.drop_last()),
{
    lemma_items_numbers_json_all(items);
    lemma_items_numbers_json_all(items.drop_last());
    assert forall|j: int| 0 <= j < items.drop_last().len() implies numbers_json(
        #[trigger] items.drop_last()[j],
    ) by {
        assert(numbers_json(items[j]));
    }
}

proof fn lemma_items_numbers_json_last(items: Seq<Json>)
    requires
        items.len() > 0,
        items_numbers_json(items),
    ensures
        numbers_json(items.last()),
{
    lemma_items_numbers_json_all(items);
    assert(numbers_json(items[items.len() - 1]));
}

proof fn lemma_members_numbers_json_all(fs: Seq<(Seq<u16>, Json)>)
    ensures
        members_numbers_json(fs) <==> forall|j: int| 0 <= j < fs.len() ==> numbers_json(
            #[trigger] fs[j].1,
        ),
    decreases fs.len(),
{
    if fs.len() > 0 {
        lemma_members_numbers_json_all(fs.skip(1));
        if forall|j: int| 0 <= j < fs.len() ==> numbers_json(#[trigger] fs[j].1) {
            assert(numbers_json(fs[0].1));
            assert forall|j: int| 0 <= j < fs.skip(1).len() implies numbers_json(
                #[trigger] fs.skip(1)[j].1,
            ) by {
                assert(fs.skip(1)[j] == fs[j + 1]);
                assert(numbers_json(fs[j + 1].1));
            }
        }
        if members_numbers_json(fs) {
            assert forall|j: int| 0 <= j < fs.len() implies numbers_json(#[trigger] fs[j].1) by {
                if j > 0 {
                    assert(fs.skip(1)[j - 1] == fs[j]);
                    assert(numbers_json(fs.skip(1)[j - 1].1));
                }
            }
        }
    }
}

proof fn lemma_members_numbers_json_drop_last(fs: Seq<(Seq<u16>, Json)>)
    requires
        fs.len() > 0,
        members_numbers_json(fs),
    ensures
        members_numbers_json(fs.drop_last()),
{
    lemma_members_numbers_json_all(fs);
    lemma_members_numbers_json_all(fs.drop_last());
    assert forall|j: int| 0 <= j < fs.drop_last().len() implies numbers_json(
        #[trigger] fs.drop_last()[j].1,
    ) by {
        assert(fs.drop_last()[j] == fs[j]);
        assert(numbers_json(fs[j].1));
    }
}

proof fn lemma_members_numbers_json_last(fs: Seq<(Seq<u16>, Json)>)
    requires
        fs.len() > 0,
        members_numbers_json(fs),
    ensures
        numbers_json(fs.last().1),
{
    lemma_members_numbers_json_all(fs);
    assert(numbers_json(fs[fs.len() - 1].1));
}

/// The JSON text that encoding writes is well-formed UTF-16, so it is a
/// valid string whatever units the value's strings hold: every surrogate
/// that is not part of a pair is written as an escape.
pub proof fn lemma_stringify_well_formed(v: Json)
    requires
        stringifiable(v),
        numbers_json(v),
    ensures
        well_formed_utf16(stringify(v)),
{
    lemma_wf_value(v);
}

proof fn lemma_wf_repeat(gap: Seq<u16>, n: nat)
    requires
        well_formed_utf16(gap),
    ensures
        well_formed_utf16(repeat_units(gap, n)),
    decreases n,
{
    if n == 0 {
        assert(well_formed_utf16(repeat_units(gap, n)));
    } else {
        lemma_wf_repeat(gap, (n - 1) as nat);
        lemma_wf_concat(repeat_units(gap, (n - 1) as nat), gap);
    }
}

proof fn lemma_wf_newline(gap: Seq<u16>, n: nat)
    requires
        well_formed_utf16(gap),
    ensures
        well_formed_utf16(newline(gap, n)),
{
    lemma_wf_repeat(gap, n);
    lemma_wf_plain(seq![10u16]);
    lemma_wf_concat(seq![10u16], repeat_units(gap, n));
}

/// Wraps an indented body in its brackets: well-formed pieces give a
/// well-formed whole.
proof fn lemma_wf_block(open: u16, body: Seq<u16>, close: u16, gap: Seq<u16>, d: nat)
    requires
        open < 0xd800,
        close < 0xd800,
        well_formed_utf16(body),
        well_formed_utf16(gap),
    ensures
        well_formed_utf16(seq![open] + newline(gap, d + 1) + body + newline(gap, d) + seq![close]),
{
    lemma_wf_plain(seq![open]);
    lemma_wf_plain(seq![close]);
    lemma_wf_newline(gap, d + 1);
    lemma_wf_newline(gap, d);
    lemma_wf_concat(seq![open], newline(gap, d + 1));
    lemma_wf_concat(seq![open] + newline(gap, d + 1), body);
    lemma_wf_concat(seq![open] + newline(gap, d + 1) + body, newline(gap, d));
    lemma_wf_concat(seq![open] + newline(gap, d + 1) + body + newline(gap, d), seq![close]);
}

proof fn lemma_wf_pretty(v: Json, gap: Seq<u16>, d: nat)
    requires
        stringifiable(v),
        numbers_json(v),
        well_formed_utf16(gap),
    ensures
        well_formed_utf16(pretty(v, gap, d)),
    decreases v, 2nat,
{
    match v {
        Json::Array(items) => {
            if items.len() == 0 {
                lemma_wf_plain(seq![91u16, 93u16]);
            } else {
                lemma_wf_pretty_elements(items, gap, d + 1);
                lemma_wf_block(91, pretty_elements(items, gap, d + 1), 93, gap, d);
            }
        },
        Json::Object(fs) => {
            if members_text(fs).len() == 0 {
                lemma_wf_plain(seq![123u16, 125u16]);
            } else {
                lemma_wf_pretty_members(fs, gap, d + 1);
                lemma_wf_block(123, pretty_members(fs, gap, d + 1), 125, gap, d);
            }
        },
        Json::Record(fs) => {
            if members_text(fs).len() == 0 {
                lemma_wf_plain(seq![123u16, 125u16]);
            } else {
                lemma_wf_pretty_members(fs, gap, d + 1);
                lemma_wf_block(123, pretty_members(fs, gap, d + 1), 125, gap, d);
            }
        },
        _ => lemma_wf_value(v),
    }
}

proof fn lemma_wf_pretty_elements(items: Seq<Json>, gap: Seq<u16>, d: nat)
    requires
        items_stringifiable(items),
        items_numbers_json(items),
        well_formed_utf16(gap),
    ensures
        well_formed_utf16(pretty_elements(items, gap, d)),
    decreases items, 1nat,
{
    if items.len() > 0 {
        lemma_items_numbers_json_drop_last(items);
        lemma_wf_pretty_elements(items.drop_last(), gap, d);
        let last = items.last();
        lemma_items_numbers_json_last(items);
        let e = if is_omitted(last) {
            units_of("null"@)
        } else {
            pretty(last, gap, d)
        };
        if is_omitted(last) {
            reveal_strlit("null");
            lemma_wf_plain(units_of("null"@));
        } else {
            lemma_wf_pretty(last, gap, d);
        }
        if items.len() > 1 {
            let rest = pretty_elements(items.drop_last(), gap, d);
            lemma_wf_plain(seq![44u16]);
            lemma_wf_newline(gap, d);
            lemma_wf_concat(rest, seq![44u16]);
            lemma_wf_concat(rest + seq![44u16], newline(gap, d));
            lemma_wf_concat(rest + seq![44u16] + newline(gap, d), e);
        }
    } else {
        assert(well_formed_utf16(pretty_elements(items, gap, d)));
    }
}

proof fn lemma_wf_pretty_members(fs: Seq<(Seq<u16>, Json)>, gap: Seq<u16>, d: nat)
    requires
        members_stringifiable(fs),
        members_numbers_json(fs),
        well_formed_utf16(gap),
    ensures
        well_formed_utf16(pretty_members(fs, gap, d)),
    decreases fs, 1nat,
{
    if fs.len() > 0 {
        lemma_members_numbers_json_drop_last(fs);
        lemma_wf_pretty_members(fs.drop_last(), gap, d);
        let (k, v) = fs.last();
        lemma_members_numbers_json_last(fs);
        if !is_omitted(v) {
            let rest = pretty_members(fs.drop_last(), gap, d);
            let m = quoted(k) + seq![58u16, 32u16] + pretty(v, gap, d);
            lemma_wf_pretty(v, gap, d);
            lemma_wf_quoted(k);
            lemma_wf_plain(seq![58u16, 32u16]);
            lemma_wf_concat(quoted(k), seq![58u16, 32u16]);
            lemma_wf_concat(quoted(k) + seq![58u16, 32u16], pretty(v, gap, d));
            lemma_wf_plain(seq![44u16]);
            lemma_wf_newline(gap, d);
            lemma_wf_concat(rest, seq![44u16]);
            lemma_wf_concat(rest + seq![44u16], newline(gap, d));
            lemma_wf_concat(rest + seq![44u16] + newline(gap, d), m);
        }
    } else {
        assert(well_formed_utf16(pretty_members(fs, gap, d)));
    }
}

/// The indented JSON text is well-formed UTF-16 too, for any indentation
/// step that is.
pub proof fn lemma_pretty_well_formed(v: Json, gap: Seq<u16>)
    requires
        stringifiable(v),
        numbers_json(v),
        well_formed_utf16(gap),
    ensures
        well_formed_utf16(pretty(v, gap, 0)),
{
    lemma_wf_pretty(v, gap, 0);
}

/// No two members of `fs` have the same key.
pub open spec fn unique_keys(fs: Seq<(Seq<u16>, Json)>) -> bool {
    forall|i: int, j: int| 0 <= i < j < fs.len() ==> fs[i].0 != fs[j].0
}

/// The values that JSON text carries exactly: `null`, booleans, strings,
/// finite numbers that print as JSON numbers, and arrays and objects of
/// such, with no key twice in an object.
pub open spec fn json_data(v: Json) -> bool
    decreases v, 1nat,
{
    match v {
        Json::Null | Json::Bool(_) | Json::Str(_) => true,
        Json::Number(n) => n.finite && json_number(n.text) && number_wf(n),
        Json::Array(items) => items_json_data(items),
        Json::Object(fs) => unique_keys(fs) && members_json_data(fs),
        _ => false,
    }
}

pub open spec fn items_json_data(items: Seq<Json>) -> bool
    decreases items, 0nat,
{
    items.len() == 0 || (json_data(items[0]) && items_json_data(items.skip(1)))
}

pub open spec fn members_json_data(fs: Seq<(Seq<u16>, Json)>) -> bool
    decreases fs, 0nat,
{
    fs.len() == 0 || (json_data(fs[0].1) && members_json_data(fs.skip(1)))
}

/// The numbers of `v`, in document order.
pub open spec fn numbers_of(v: Json) -> Seq<NumberModel>
    decreases v, 1nat,
{
    match v {
        Json::Number(n) => seq![n],
        Json::Array(items) => items_numbers(items),
        Json::Object(fs) => members_numbers(fs),
        _ => Seq::empty(),
    }
}

pub open spec fn items_numbers(items: Seq<Json>) -> Seq<NumberModel>
    decreases items, 0nat,
{
    if items.len() == 0 {
        Seq::empty()
    } else {
        numbers_of(items[0]) + items_numbers(items.skip(1))
    }
}

pub open spec fn members_numbers(fs: Seq<(Seq<u16>, Json)>) -> Seq<NumberModel>
    decreases fs, 0nat,
{
    if fs.len() == 0 {
        Seq::empty()
    } else {
        numbers_of(fs[0].1) + members_numbers(fs.skip(1))
    }
}

/// The texts of the numbers.
pub open spec fn number_texts(ns: Seq<NumberModel>) -> Seq<Seq<u16>> {
    Seq::new(ns.len(), |i: int| ns[i].text)
}

/// The members of `fs` with their values' trees.
pub open spec fn tree_pairs(fs: Seq<(Seq<u16>, Json)>) -> Seq<(Seq<u16>, Tree)> {
    Seq::new(fs.len(), |i: int| (fs[i].0, tree_of(fs[i].1)))
}

proof fn lemma_items_json_data_all(items: Seq<Json>, j: int)
    requires
        items_json_data(items),
        0 <= j < items.len(),
    ensures
        json_data(items[j]),
    decreases j,
{
    if j > 0 {
        lemma_items_json_data_all(items.skip(1), j - 1);
    }
}

proof fn lemma_members_json_data_all(fs: Seq<(Seq<u16>, Json)>, j: int)
    requires
        members_json_data(fs),
        0 <= j < fs.len(),
    ensures
        json_data(fs[j].1),
    decreases j,
{
    if j > 0 {
        lemma_members_json_data_all(fs.skip(1), j - 1);
        assert(fs.skip(1)[j - 1] == fs[j]);
    }
}

proof fn lemma_all_items_stringifiable(items: Seq<Json>)
    requires
        forall|j: int| 0 <= j < items.len() ==> stringifiable(#[trigger] items[j]),
    ensures
        items_stringifiable(items),
    decreases items.len(),
{
    if items.len() > 0 {
        assert(stringifiable(items[items.len() - 1]));
        assert forall|j: int| 0 <= j < items.drop_last().len() implies stringifiable(
            #[trigger] items.drop_last()[j],
        ) by {
            assert(items.drop_last()[j] == items[j]);
        }
        lemma_all_items_stringifiable(items.drop_last());
    }
}

proof fn lemma_all_members_stringifiable(fs: Seq<(Seq<u16>, Json)>)
    requires
        forall|j: int| 0 <= j < fs.len() ==> stringifiable(#[trigger] fs[j].1),
    ensures
        members_stringifiable(fs),
    decreases fs.len(),
{
    if fs.len() > 0 {
        assert(stringifiable(fs[fs.len() - 1].1));
        assert forall|j: int| 0 <= j < fs.drop_last().len() implies stringifiable(
            #[trigger] fs.drop_last()[j].1,
        ) by {
            assert(fs.drop_last()[j] == fs[j]);
        }
        lemma_all_members_stringifiable(fs.drop_last());
    }
}

/// JSON data has a text, prints its numbers as JSON numbers, and is a
/// value that decoding can hand the reviver.
proof fn lemma_json_data_kinds(v: Json)
    requires
        json_data(v),
    ensures
        stringifiable(v),
        numbers_json(v),
        parsed(v),
    decreases v, 2nat,
{
    match v {
        Json::Array(items) => {
            lemma_items_json_data_kinds(items);
            assert forall|j: int| 0 <= j < items.len() implies stringifiable(#[trigger] items[j])
                && parsed(items[j]) by {
                lemma_items_json_data_all(items, j);
                lemma_json_data_kinds(items[j]);
            }
            lemma_all_items_stringifiable(items);
            lemma_all_items_parsed(items);
        },
        Json::Object(fs) => {
            lemma_members_json_data_kinds(fs);
            assert forall|j: int| 0 <= j < fs.len() implies stringifiable(#[trigger] fs[j].1)
                && parsed(fs[j].1) by {
                lemma_members_json_data_all(fs, j);
                lemma_json_data_kinds(fs[j].1);
            }
            lemma_all_members_stringifiable(fs);
            lemma_all_members_parsed(fs);
        },
        _ => {},
    }
}

proof fn lemma_items_json_data_kinds(items: Seq<Json>)
    requires
        items_json_data(items),
    ensures
        items_numbers_json(items),
    decreases items, 1nat,
{
    if items.len() > 0 {
        lemma_json_data_kinds(items[0]);
        lemma_items_json_data_kinds(items.skip(1));
    }
}

proof fn lemma_members_json_data_kinds(fs: Seq<(Seq<u16>, Json)>)
    requires
        members_json_data(fs),
    ensures
        members_numbers_json(fs),
    decreases fs, 1nat,
{
    if fs.len() > 0 {
        lemma_json_data_kinds(fs[0].1);
        lemma_members_json_data_kinds(fs.skip(1));
    }
}

/// Setting members with keys that are all new appends them in order.
proof fn lemma_member_trees_unique(fs: Seq<(Seq<u16>, Json)>, acc: Seq<(Seq<u16>, Tree)>)
    requires
        unique_keys(fs),
        forall|i: int, j: int| 0 <= i < acc.len() && 0 <= j < fs.len() ==> acc[i].0 != fs[j].0,
        forall|j: int| 0 <= j < fs.len() ==> !is_omitted(#[trigger] fs[j].1),
    ensures
        member_trees(fs, acc) == acc + tree_pairs(fs),
    decreases fs.len(),
{
    if fs.len() == 0 {
        assert(acc + tree_pairs(fs) =~= acc);
    } else {
        let k = fs[0].0;
        assert(!is_omitted(fs[0].1));
        assert(!(exists|i: int| is_first_key(acc, k, i)));
        let acc1 = acc.push((k, tree_of(fs[0].1)));
        assert(insert_member(acc, k, tree_of(fs[0].1)) == acc1);
        let rest = fs.skip(1);
        assert forall|i: int, j: int| 0 <= i < acc1.len() && 0 <= j < rest.len() implies acc1[i].0
            != rest[j].0 by {
            assert(rest[j] == fs[j + 1]);
            if i < acc.len() {
                assert(acc1[i] == acc[i]);
            }
        }
        assert forall|j: int| 0 <= j < rest.len() implies !is_omitted(#[trigger] rest[j].1) by {
            assert(rest[j] == fs[j + 1]);
        }
        lemma_member_trees_unique(rest, acc1);
        assert(acc1 + tree_pairs(rest) =~= acc + tree_pairs(fs));
    }
}

/// JSON data is what its tree, with its own numbers, builds: the numbers
/// it reads are its own, in order, and their spellings are their texts.
proof fn lemma_fill_tree_of(v: Json, rest: Seq<NumberModel>)
    requires
        json_data(v),
    ensures
        count(tree_of(v)) == numbers_of(v).len(),
        spellings(tree_of(v)) == number_texts(numbers_of(v)),
        fill(tree_of(v), numbers_of(v) + rest) == v,
    decreases v, 2nat,
{
    match v {
        Json::Number(n) => {
            assert(number_texts(seq![n]) =~= seq![n.text]);
        },
        Json::Array(items) => {
            lemma_fill_items(items, rest);
        },
        Json::Object(fs) => {
            assert forall|j: int| 0 <= j < fs.len() implies !is_omitted(#[trigger] fs[j].1) by {
                lemma_members_json_data_all(fs, j);
            }
            lemma_member_trees_unique(fs, Seq::empty());
            let tp = tree_pairs(fs);
            assert(Seq::<(Seq<u16>, Tree)>::empty() + tp =~= tp);
            lemma_fill_members(fs, rest);
            assert(tree_keys(tp) =~= keys_of_members(fs));
            assert(pair_up(keys_of_members(fs), values_of(fs)) =~= fs);
        },
        _ => {
            assert(number_texts(Seq::<NumberModel>::empty()) =~= Seq::<Seq<u16>>::empty());
        },
    }
}

/// The keys of the members, in order.
spec fn keys_of_members(fs: Seq<(Seq<u16>, Json)>) -> Seq<Seq<u16>> {
    Seq::new(fs.len(), |i: int| fs[i].0)
}

proof fn lemma_fill_items(items: Seq<Json>, rest: Seq<NumberModel>)
    requires
        items_json_data(items),
    ensures
        items_count(element_trees(items)) == items_numbers(items).len(),
        items_spellings(element_trees(items)) == number_texts(items_numbers(items)),
        fill_items(element_trees(items), items_numbers(items) + rest) == items,
        element_trees(items).len() == items.len(),
    decreases items, 1nat,
{
    if items.len() == 0 {
        assert(number_texts(Seq::<NumberModel>::empty()) =~= Seq::<Seq<u16>>::empty());
        assert(element_trees(items) =~= Seq::<Tree>::empty());
    } else {
        let x = items[0];
        let tail = items.skip(1);
        let ts = element_trees(items);
        assert(ts[0] == tree_of(x));
        assert(ts.skip(1) =~= element_trees(tail));
        lemma_fill_tree_of(x, items_numbers(tail) + rest);
        lemma_fill_items(tail, rest);
        let nx = numbers_of(x);
        let ns = items_numbers(items) + rest;
        assert(ns =~= nx + (items_numbers(tail) + rest));
        assert(ns.skip(nx.len() as int) =~= items_numbers(tail) + rest);
        assert(number_texts(items_numbers(items)) =~= number_texts(nx) + number_texts(
            items_numbers(tail),
        ));
        assert(fill_items(ts, ns) =~= items);
    }
}

proof fn lemma_fill_members(fs: Seq<(Seq<u16>, Json)>, rest: Seq<NumberModel>)
    requires
        members_json_data(fs),
    ensures
        members_count(tree_pairs(fs)) == members_numbers(fs).len(),
        members_spellings(tree_pairs(fs)) == number_texts(members_numbers(fs)),
        fill_members(tree_pairs(fs), members_numbers(fs) + rest) == values_of(fs),
    decreases fs, 1nat,
{
    if fs.len() == 0 {
        assert(number_texts(Seq::<NumberModel>::empty()) =~= Seq::<Seq<u16>>::empty());
        assert(values_of(fs) =~= Seq::<Json>::empty());
    } else {
        let x = fs[0].1;
        let tail = fs.skip(1);
        let tp = tree_pairs(fs);
        assert(tp[0] == (fs[0].0, tree_of(x)));
        assert(tp.skip(1) =~= tree_pairs(tail));
        lemma_fill_tree_of(x, members_numbers(tail) + rest);
        lemma_fill_members(tail, rest);
        let nx = numbers_of(x);
        let ns = members_numbers(fs) + rest;
        assert(ns =~= nx + (members_numbers(tail) + rest));
        assert(ns.skip(nx.len() as int) =~= members_numbers(tail) + rest);
        assert(number_texts(members_numbers(fs)) =~= number_texts(nx) + number_texts(
            members_numbers(tail),
        ));
        assert(values_of(fs) =~= seq![x] + values_of(tail));
        assert(fill_members(tp, ns) =~= values_of(fs));
    }
}

/// What a read gives back of a write: the JSON text of plain JSON data,
/// with no member `big`, decodes to the very same value. Decoding hands out
/// the spellings of the value's numbers, which are their texts; given those
/// numbers back, in the same order, it builds the value, and the reviver
/// leaves it as it is.
pub proof fn lemma_decode_stringify(v: Json)
    requires
        json_data(v),
        no_big(v),
    ensures
        parse_text(stringify(v)) == Ok::<Tree, Failure>(tree_of(v)),
        spellings(tree_of(v)) == number_texts(numbers_of(v)),
        count(tree_of(v)) == numbers_of(v).len(),
        revive(Seq::empty(), fill(tree_of(v), numbers_of(v))) == Ok::<Json, ErrorModel>(v),
{
    lemma_json_data_kinds(v);
    lemma_parse_stringify(v);
    lemma_fill_tree_of(v, Seq::empty());
    assert(numbers_of(v) + Seq::<NumberModel>::empty() =~= numbers_of(v));
    reveal_strlit("big");
    assert(units_of("big"@).len() == 3);
    assert(Seq::<u16>::empty() != units_of("big"@));
    lemma_revive_without_big(Seq::empty(), v);
}

/// Every unit of `w` is whitespace.
pub open spec fn all_ws(w: Seq<u16>) -> bool {
    forall|i: int| 0 <= i < w.len() ==> is_ws(#[trigger] w[i])
}

proof fn lemma_all_ws_concat(a: Seq<u16>, b: Seq<u16>)
    requires
        all_ws(a),
        all_ws(b),
    ensures
        all_ws(a + b),
{
    assert forall|i: int| 0 <= i < (a + b).len() implies is_ws(#[trigger] (a + b)[i]) by {
        if i < a.len() {
            assert((a + b)[i] == a[i]);
        } else {
            assert((a + b)[i] == b[i - a.len()]);
        }
    }
}

proof fn lemma_ws_repeat(gap: Seq<u16>, n: nat)
    requires
        all_ws(gap),
    ensures
        all_ws(repeat_units(gap, n)),
    decreases n,
{
    if n > 0 {
        lemma_ws_repeat(gap, (n - 1) as nat);
        lemma_all_ws_concat(repeat_units(gap, (n - 1) as nat), gap);
    }
}

proof fn lemma_ws_newline(gap: Seq<u16>, n: nat)
    requires
        all_ws(gap),
    ensures
        all_ws(newline(gap, n)),
{
    lemma_ws_repeat(gap, n);
    assert(all_ws(seq![10u16]));
    lemma_all_ws_concat(seq![10u16], repeat_units(gap, n));
}

/// Whitespace is skipped up to the first unit that is not whitespace.
proof fn lemma_skip_over(s: Seq<u16>, p: int, w: Seq<u16>)
    requires
        holds(s, p, w),
        all_ws(w),
        p + w.len() < s.len() ==> !is_ws(s[p + w.len()]),
    ensures
        skip_ws(s, p) == p + w.len(),
    decreases w.len(),
{
    if w.len() == 0 {
        lemma_skip_no_ws(s, p);
    } else {
        lemma_holds_index(s, p, w, 0);
        assert(w =~= seq![w[0]] + w.skip(1));
        lemma_holds_split(s, p, seq![w[0]], w.skip(1));
        assert(is_ws(w[0]));
        assert forall|i: int| 0 <= i < w.skip(1).len() implies is_ws(#[trigger] w.skip(1)[i]) by {
            assert(w.skip(1)[i] == w[i + 1]);
        }
        lemma_skip_over(s, p + 1, w.skip(1));
    }
}

/// The indented text of an array element: `null` for an omitted one.
pub open spec fn pretty_element(v: Json, gap: Seq<u16>, d: nat) -> Seq<u16> {
    if is_omitted(v) {
        units_of("null"@)
    } else {
        pretty(v, gap, d)
    }
}

proof fn lemma_pretty_elements_front(items: Seq<Json>, gap: Seq<u16>, d: nat)
    requires
        items.len() > 0,
    ensures
        pretty_elements(items, gap, d) == if items.len() == 1 {
            pretty_element(items[0], gap, d)
        } else {
            pretty_element(items[0], gap, d) + (seq![44u16] + newline(gap, d)) + pretty_elements(
                items.skip(1),
                gap,
                d,
            )
        },
    decreases items.len(),
{
    if items.len() == 2 {
        assert(items.drop_last().len() == 1);
        assert(items.skip(1).len() == 1);
        assert(pretty_elements(items.drop_last(), gap, d) == pretty_element(items[0], gap, d));
        assert(pretty_elements(items.skip(1), gap, d) == pretty_element(items[1], gap, d));
        assert(pretty_elements(items, gap, d) =~= pretty_element(items[0], gap, d) + (seq![44u16]
            + newline(gap, d)) + pretty_elements(items.skip(1), gap, d));
    } else if items.len() > 2 {
        let dl = items.drop_last();
        lemma_pretty_elements_front(dl, gap, d);
        assert(dl.skip(1) =~= items.skip(1).drop_last());
        assert(items.skip(1).last() == items.last());
        assert(pretty_elements(items, gap, d) =~= pretty_element(items[0], gap, d) + (seq![44u16]
            + newline(gap, d)) + pretty_elements(items.skip(1), gap, d));
    }
}

/// The indented text of a member that is not omitted: `"key": value`.
pub open spec fn pretty_member(m: (Seq<u16>, Json), gap: Seq<u16>, d: nat) -> Seq<u16> {
    quoted(m.0) + seq![58u16, 32u16] + pretty(m.1, gap, d)
}

/// The indented members' text, read from the first member on.
pub open spec fn front_pretty_members(fs: Seq<(Seq<u16>, Json)>, gap: Seq<u16>, d: nat) -> Seq<
    u16,
>
    decreases fs.len(),
{
    if fs.len() == 0 {
        Seq::empty()
    } else if is_omitted(fs[0].1) {
        front_pretty_members(fs.skip(1), gap, d)
    } else {
        let rest = front_pretty_members(fs.skip(1), gap, d);
        pretty_member(fs[0], gap, d) + if rest.len() == 0 {
            Seq::empty()
        } else {
            seq![44u16] + newline(gap, d) + rest
        }
    }
}

/// Every member is omitted.
pub open spec fn all_omitted(fs: Seq<(Seq<u16>, Json)>) -> bool {
    forall|j: int| 0 <= j < fs.len() ==> is_omitted(#[trigger] fs[j].1)
}

proof fn lemma_members_empty(fs: Seq<(Seq<u16>, Json)>, gap: Seq<u16>, d: nat)
    ensures
        (front_members(fs).len() == 0) == all_omitted(fs),
        (front_pretty_members(fs, gap, d).len() == 0) == all_omitted(fs),
    decreases fs.len(),
{
    if fs.len() > 0 {
        lemma_members_empty(fs.skip(1), gap, d);
        assert(member_text(fs[0]).len() > 0);
        assert(pretty_member(fs[0], gap, d).len() > 0);
        if all_omitted(fs) {
            assert(is_omitted(fs[0].1));
            assert forall|j: int| 0 <= j < fs.skip(1).len() implies is_omitted(
                #[trigger] fs.skip(1)[j].1,
            ) by {
                assert(fs.skip(1)[j] == fs[j + 1]);
            }
        }
        if is_omitted(fs[0].1) && all_omitted(fs.skip(1)) {
            assert forall|j: int| 0 <= j < fs.len() implies is_omitted(#[trigger] fs[j].1) by {
                if j > 0 {
                    assert(fs.skip(1)[j - 1] == fs[j]);
                }
            }
        }
    }
}

proof fn lemma_front_pretty_members_push(
    fs: Seq<(Seq<u16>, Json)>,
    m: (Seq<u16>, Json),
    gap: Seq<u16>,
    d: nat,
)
    ensures
        front_pretty_members(fs.push(m), gap, d) == if is_omitted(m.1) {
            front_pretty_members(fs, gap, d)
        } else if front_pretty_members(fs, gap, d).len() == 0 {
            pretty_member(m, gap, d)
        } else {
            front_pretty_members(fs, gap, d) + seq![44u16] + newline(gap, d) + pretty_member(m, gap, d)
        },
    decreases fs.len(),
{
    let sep = seq![44u16] + newline(gap, d);
    let pm = pretty_member(m, gap, d);
    assert(pm.len() > 0);
    let fm = fs.push(m);
    if fs.len() == 0 {
        assert(fm.skip(1) =~= Seq::<(Seq<u16>, Json)>::empty());
        assert(front_pretty_members(fm.skip(1), gap, d) == Seq::<u16>::empty());
        assert(fm[0] == m);
        if !is_omitted(m.1) {
            assert(pm + Seq::<u16>::empty() =~= pm);
        }
    } else {
        assert(fm.skip(1) =~= fs.skip(1).push(m));
        assert(fm[0] == fs[0]);
        lemma_front_pretty_members_push(fs.skip(1), m, gap, d);
        let r = front_pretty_members(fs.skip(1), gap, d);
        let m0 = fs[0];
        let j = if is_omitted(m.1) {
            r
        } else if r.len() == 0 {
            pm
        } else {
            r + seq![44u16] + newline(gap, d) + pm
        };
        assert(front_pretty_members(fm.skip(1), gap, d) == j);
        if !is_omitted(m0.1) {
            let t0 = pretty_member(m0, gap, d);
            assert(t0.len() > 0);
            assert(front_pretty_members(fm, gap, d) == t0 + if j.len() == 0 {
                Seq::<u16>::empty()
            } else {
                seq![44u16] + newline(gap, d) + j
            });
            assert(front_pretty_members(fs, gap, d) == t0 + if r.len() == 0 {
                Seq::<u16>::empty()
            } else {
                seq![44u16] + newline(gap, d) + r
            });
            if !is_omitted(m.1) {
                if r.len() == 0 {
                    assert(t0 + (seq![44u16] + newline(gap, d) + pm) =~= (t0 + Seq::<u16>::empty())
                        + seq![44u16] + newline(gap, d) + pm);
                } else {
                    assert(t0 + (seq![44u16] + newline(gap, d) + (r + seq![44u16] + newline(gap, d)
                        + pm)) =~= (t0 + (seq![44u16] + newline(gap, d) + r)) + seq![44u16]
                        + newline(gap, d) + pm);
                }
            }
        }
    }
}

/// The indented members' text, as the encoder writes it, read from the
/// first member on.
proof fn lemma_pretty_members_front(fs: Seq<(Seq<u16>, Json)>, gap: Seq<u16>, d: nat)
    ensures
        pretty_members(fs, gap, d) == front_pretty_members(fs, gap, d),
    decreases fs.len(),
{
    if fs.len() > 0 {
        let dl = fs.drop_last();
        lemma_pretty_members_front(dl, gap, d);
        lemma_front_pretty_members_push(dl, fs.last(), gap, d);
        lemma_members_front(dl);
        lemma_members_empty(dl, gap, d);
        assert(dl.push(fs.last()) =~= fs);
        let (k, v) = fs.last();
        assert(pretty_member(fs.last(), gap, d) == quoted(k) + seq![58u16, 32u16] + pretty(
            v,
            gap,
            d,
        ));
        if !is_omitted(v) && members_text(dl).len() != 0 {
            assert(pretty_members(fs, gap, d) =~= front_pretty_members(dl, gap, d) + seq![44u16]
                + newline(gap, d) + pretty_member(fs.last(), gap, d));
        }
    }
}

proof fn lemma_pretty_start(v: Json, gap: Seq<u16>, d: nat)
    requires
        stringifiable(v),
        numbers_json(v),
    ensures
        pretty(v, gap, d).len() > 0,
        starts_value(pretty(v, gap, d)[0]),
{
    lemma_text_start(v);
}

/// The indented text of a value reads back as its tree.
proof fn lemma_pretty_value_reads(s: Seq<u16>, p: int, v: Json, gap: Seq<u16>, d: nat)
    requires
        stringifiable(v),
        numbers_json(v),
        all_ws(gap),
        holds(s, p, pretty(v, gap, d)),
        ends_value(s, p + pretty(v, gap, d).len()),
    ensures
        value_at(s, p) == Ok::<(Tree, int), Failure>((tree_of(v), p + pretty(v, gap, d).len())),
    decreases v, 2nat,
{
    let t = pretty(v, gap, d);
    lemma_pretty_start(v, gap, d);
    lemma_holds_index(s, p, t, 0);
    lemma_skip_no_ws(s, p);
    match v {
        Json::Array(items) => {
            if items.len() == 0 {
                lemma_holds_index(s, p, t, 1);
                lemma_skip_no_ws(s, p + 1);
                assert(element_trees(items) =~= Seq::<Tree>::empty());
            } else {
                let body = pretty_elements(items, gap, d + 1);
                let w = newline(gap, d);
                let lead = newline(gap, d + 1);
                let inner = body + w + seq![93u16];
                assert(t =~= seq![91u16] + (lead + inner));
                lemma_holds_split(s, p, seq![91u16], lead + inner);
                lemma_holds_split(s, p + 1, lead, inner);
                lemma_pretty_elements_front(items, gap, d + 1);
                assert forall|j: int| 0 <= j < items.len() implies is_omitted(#[trigger] items[j])
                    || stringifiable(items[j]) by {
                    lemma_element_stringifiable(items, j);
                }
                let e0 = pretty_element(items[0], gap, d + 1);
                if is_omitted(items[0]) {
                    reveal_strlit("null");
                    assert(e0[0] == 110);
                } else {
                    lemma_pretty_start(items[0], gap, d + 1);
                }
                assert(inner[0] == e0[0]);
                lemma_holds_index(s, p + 1 + lead.len(), inner, 0);
                lemma_ws_newline(gap, d + 1);
                lemma_ws_newline(gap, d);
                lemma_skip_over(s, p + 1, lead);
                lemma_pretty_items_reads(s, p + 1 + lead.len(), items, Seq::empty(), gap, d + 1, w);
                assert(Seq::<Tree>::empty() + element_trees(items) =~= element_trees(items));
            }
        },
        Json::Object(fs) => {
            lemma_pretty_object_reads(s, p, fs, gap, d);
        },
        Json::Record(fs) => {
            lemma_pretty_object_reads(s, p, fs, gap, d);
        },
        _ => {
            lemma_value_reads(s, p, v);
        },
    }
}

proof fn lemma_pretty_object_reads(
    s: Seq<u16>,
    p: int,
    fs: Seq<(Seq<u16>, Json)>,
    gap: Seq<u16>,
    d: nat,
)
    requires
        members_stringifiable(fs),
        members_numbers_json(fs),
        all_ws(gap),
        holds(
            s,
            p,
            if members_text(fs).len() == 0 {
                seq![123u16, 125u16]
            } else {
                seq![123u16] + newline(gap, d + 1) + pretty_members(fs, gap, d + 1) + newline(gap, d)
                    + seq![125u16]
            },
        ),
    ensures
        value_at(s, p) == Ok::<(Tree, int), Failure>(
            (
                Tree::Object(member_trees(fs, Seq::empty())),
                p + (if members_text(fs).len() == 0 {
                    2
                } else {
                    newline(gap, d + 1).len() + pretty_members(fs, gap, d + 1).len() + newline(
                        gap,
                        d,
                    ).len() + 2
                }),
            ),
        ),
    decreases fs, 2nat,
{
    lemma_members_front(fs);
    lemma_members_empty(fs, gap, d + 1);
    lemma_front_members_start(fs, Seq::empty());
    if members_text(fs).len() == 0 {
        let t = seq![123u16, 125u16];
        lemma_holds_index(s, p, t, 0);
        lemma_holds_index(s, p, t, 1);
        lemma_skip_no_ws(s, p + 1);
    } else {
        lemma_pretty_members_front(fs, gap, d + 1);
        let body = front_pretty_members(fs, gap, d + 1);
        let lead = newline(gap, d + 1);
        let w = newline(gap, d);
        let inner = body + w + seq![125u16];
        let t = seq![123u16] + lead + pretty_members(fs, gap, d + 1) + w + seq![125u16];
        assert(t =~= seq![123u16] + (lead + inner));
        lemma_holds_index(s, p, t, 0);
        lemma_holds_split(s, p, seq![123u16], lead + inner);
        lemma_holds_split(s, p + 1, lead, inner);
        lemma_ws_newline(gap, d + 1);
        lemma_ws_newline(gap, d);
        lemma_front_pretty_start(fs, gap, d + 1);
        lemma_holds_index(s, p + 1 + lead.len(), inner, 0);
        lemma_skip_over(s, p + 1, lead);
        assert forall|j: int| 0 <= j < fs.len() implies is_omitted(#[trigger] fs[j].1)
            || stringifiable(fs[j].1) by {
            lemma_member_stringifiable(fs, j);
        }
        assert(Seq::<u16>::empty() + inner =~= inner);
        lemma_pretty_members_reads(
            s,
            p + 1 + lead.len(),
            Seq::empty(),
            fs,
            Seq::empty(),
            gap,
            d + 1,
            w,
        );
    }
}

proof fn lemma_front_pretty_start(fs: Seq<(Seq<u16>, Json)>, gap: Seq<u16>, d: nat)
    ensures
        front_pretty_members(fs, gap, d).len() > 0 ==> front_pretty_members(fs, gap, d)[0] == 34,
    decreases fs.len(),
{
    if fs.len() > 0 {
        if is_omitted(fs[0].1) {
            lemma_front_pretty_start(fs.skip(1), gap, d);
        } else {
            assert(pretty_member(fs[0], gap, d)[0] == 34);
        }
    }
}

/// Indented array elements, the whitespace `w` and the closing bracket read
/// back as the elements' trees.
proof fn lemma_pretty_items_reads(
    s: Seq<u16>,
    p: int,
    elems: Seq<Json>,
    acc: Seq<Tree>,
    gap: Seq<u16>,
    d: nat,
    w: Seq<u16>,
)
    requires
        elems.len() > 0,
        forall|j: int| 0 <= j < elems.len() ==> is_omitted(#[trigger] elems[j]) || stringifiable(elems[j]),
        items_numbers_json(elems),
        all_ws(gap),
        all_ws(w),
        holds(s, p, pretty_elements(elems, gap, d) + w + seq![93u16]),
    ensures
        items(s, p, acc) == Ok::<(Tree, int), Failure>(
            (
                Tree::Array(acc + element_trees(elems)),
                p + pretty_elements(elems, gap, d).len() + w.len() + 1,
            ),
        ),
    decreases elems, 1nat,
{
    lemma_pretty_elements_front(elems, gap, d);
    lemma_ws_newline(gap, d);
    let x = elems[0];
    let e0 = pretty_element(x, gap, d);
    let sep = seq![44u16] + newline(gap, d);
    let tail = if elems.len() == 1 {
        w + seq![93u16]
    } else {
        sep + pretty_elements(elems.skip(1), gap, d) + w + seq![93u16]
    };
    assert(pretty_elements(elems, gap, d) + w + seq![93u16] =~= e0 + tail);
    lemma_holds_split(s, p, e0, tail);
    let r = p + e0.len();
    let t0 = if is_omitted(x) {
        Tree::Null
    } else {
        tree_of(x)
    };
    if elems.len() == 1 {
        assert(tail =~= w + seq![93u16]);
        lemma_holds_split(s, r, w, seq![93u16]);
        lemma_holds_index(s, r + w.len(), seq![93u16], 0);
    } else {
        lemma_holds_index(s, r, tail, 0);
    }
    assert(0 <= r < s.len());
    if elems.len() == 1 {
        lemma_skip_over(s, r, w);
        if w.len() > 0 {
            lemma_holds_index(s, r, w, 0);
            assert(is_ws(w[0]));
        }
    }
    assert(!number_unit(s[r]));
    if is_omitted(x) {
        reveal_strlit("null");
        lemma_null_reads(s, p);
    } else {
        lemma_pretty_value_reads(s, p, x, gap, d);
        lemma_pretty_start(x, gap, d);
        lemma_holds_index(s, p, e0, 0);
        lemma_skip_no_ws(s, p);
    }
    assert(value(s, p) == Ok::<(Tree, int), Failure>((t0, r)));
    let acc1 = acc.push(t0);
    if elems.len() == 1 {
        assert(elems.skip(1) =~= Seq::<Json>::empty());
        assert(element_trees(elems.skip(1)) == Seq::<Tree>::empty());
        assert(element_trees(elems) == seq![t0] + element_trees(elems.skip(1)));
        assert(acc1 =~= acc + element_trees(elems));
        assert(pretty_elements(elems, gap, d) == e0);
    } else {
        let rest = elems.skip(1);
        let tail2 = newline(gap, d) + (pretty_elements(rest, gap, d) + w + seq![93u16]);
        assert(tail =~= seq![44u16] + tail2);
        lemma_holds_split(s, r, seq![44u16], tail2);
        lemma_holds_index(s, r, seq![44u16], 0);
        lemma_skip_no_ws(s, r);
        lemma_holds_split(s, r + 1, newline(gap, d), pretty_elements(rest, gap, d) + w + seq![93u16]);
        assert forall|j: int| 0 <= j < rest.len() implies is_omitted(#[trigger] rest[j])
            || stringifiable(rest[j]) by {
            assert(rest[j] == elems[j + 1]);
        }
        let q = r + 1 + newline(gap, d).len();
        lemma_pretty_elements_front(rest, gap, d);
        if is_omitted(rest[0]) {
            reveal_strlit("null");
            assert(pretty_element(rest[0], gap, d)[0] == 110);
        } else {
            assert(items_numbers_json(rest));
            assert(numbers_json(rest[0]));
            lemma_pretty_start(rest[0], gap, d);
        }
        lemma_holds_index(s, q, pretty_elements(rest, gap, d) + w + seq![93u16], 0);
        lemma_pretty_items_reads(s, q, rest, acc1, gap, d, w);
        lemma_items_shift(s, r + 1, newline(gap, d), rest, acc1, gap, d);
        assert(element_trees(elems) == seq![t0] + element_trees(rest));
        assert(acc1 + element_trees(rest) =~= acc + element_trees(elems));
    }
}

/// Reading elements after whitespace reads them where the whitespace ends.
proof fn lemma_items_shift(
    s: Seq<u16>,
    p: int,
    lead: Seq<u16>,
    elems: Seq<Json>,
    acc: Seq<Tree>,
    gap: Seq<u16>,
    d: nat,
)
    requires
        elems.len() > 0,
        holds(s, p, lead),
        all_ws(lead),
        p + lead.len() < s.len(),
        !is_ws(s[p + lead.len()]),
    ensures
        items(s, p, acc) == items(s, p + lead.len(), acc),
{
    lemma_skip_over(s, p, lead);
    lemma_skip_no_ws(s, p + lead.len());
    assert(value(s, p) == value(s, p + lead.len()));
    crate::grammar::lemma_value_progress(s, p + lead.len());
}

/// Indented object members, after the whitespace `lead`, then the
/// whitespace `w` and the closing brace read back as the members' trees.
#[verifier::rlimit(60)]
proof fn lemma_pretty_members_reads(
    s: Seq<u16>,
    p: int,
    lead: Seq<u16>,
    fs: Seq<(Seq<u16>, Json)>,
    acc: Seq<(Seq<u16>, Tree)>,
    gap: Seq<u16>,
    d: nat,
    w: Seq<u16>,
)
    requires
        front_pretty_members(fs, gap, d).len() > 0,
        forall|j: int| 0 <= j < fs.len() ==> is_omitted(#[trigger] fs[j].1) || stringifiable(fs[j].1),
        members_numbers_json(fs),
        all_ws(gap),
        all_ws(lead),
        all_ws(w),
        holds(s, p, lead + (front_pretty_members(fs, gap, d) + w + seq![125u16])),
    ensures
        property_at(s, p) matches Ok((k, r)) && p < r <= s.len() && members(s, r, acc, k) == Ok::<
            (Tree, int),
            Failure,
        >(
            (
                Tree::Object(member_trees(fs, acc)),
                p + lead.len() + front_pretty_members(fs, gap, d).len() + w.len() + 1,
            ),
        ),
    decreases fs, 1nat,
{
    let rest = fs.skip(1);
    assert forall|j: int| 0 <= j < rest.len() implies is_omitted(#[trigger] rest[j].1)
        || stringifiable(rest[j].1) by {
        assert(rest[j] == fs[j + 1]);
    }
    lemma_ws_newline(gap, d);
    if is_omitted(fs[0].1) {
        lemma_pretty_members_reads(s, p, lead, rest, acc, gap, d, w);
    } else {
        let (k0, v0) = fs[0];
        let q0 = quoted(k0);
        let t0 = pretty(v0, gap, d);
        let rt = front_pretty_members(rest, gap, d);
        let nl = newline(gap, d);
        let tail = if rt.len() == 0 {
            w + seq![125u16]
        } else {
            seq![44u16] + (nl + (rt + w + seq![125u16]))
        };
        assert(lead + (front_pretty_members(fs, gap, d) + w + seq![125u16]) =~= lead + (q0 + (
        seq![58u16, 32u16] + (t0 + tail))));
        lemma_holds_split(s, p, lead, q0 + (seq![58u16, 32u16] + (t0 + tail)));
        let p1 = p + lead.len();
        lemma_holds_split(s, p1, q0, seq![58u16, 32u16] + (t0 + tail));
        lemma_holds_split(s, p1 + q0.len(), seq![58u16, 32u16], t0 + tail);
        lemma_holds_split(s, p1 + q0.len() + 2, t0, tail);
        lemma_holds_index(s, p1 + q0.len(), seq![58u16, 32u16], 0);
        lemma_holds_index(s, p1 + q0.len(), seq![58u16, 32u16], 1);
        lemma_holds_index(s, p1, q0, 0);
        lemma_skip_over(s, p, lead);
        lemma_quoted_reads(s, p1, k0);
        let q = p1 + q0.len();
        lemma_skip_no_ws(s, q);
        let r = q + 1;
        assert(property_at(s, p) == Ok::<(Seq<u16>, int), Failure>((k0, r)));
        let e = r + 1 + t0.len();
        if rt.len() == 0 {
            lemma_holds_split(s, e, w, seq![125u16]);
            lemma_holds_index(s, e + w.len(), seq![125u16], 0);
            if w.len() > 0 {
                lemma_holds_index(s, e, w, 0);
                assert(is_ws(w[0]));
            }
        } else {
            lemma_holds_index(s, e, tail, 0);
        }
        assert(!number_unit(s[e]));
        lemma_pretty_value_reads(s, r + 1, v0, gap, d);
        lemma_pretty_start(v0, gap, d);
        lemma_holds_index(s, r + 1, t0, 0);
        assert(is_ws(s[r]));
        lemma_skip_no_ws(s, r + 1);
        assert(skip_ws(s, r) == r + 1);
        assert(value(s, r) == Ok::<(Tree, int), Failure>((tree_of(v0), e)));
        let acc1 = insert_member(acc, k0, tree_of(v0));
        if rt.len() == 0 {
            lemma_skip_over(s, e, w);
            lemma_members_empty(rest, gap, d);
            lemma_members_front(rest);
            lemma_front_members_start(rest, acc1);
        } else {
            lemma_holds_split(s, e, seq![44u16], nl + (rt + w + seq![125u16]));
            lemma_holds_index(s, e, seq![44u16], 0);
            lemma_skip_no_ws(s, e);
            lemma_pretty_members_reads(s, e + 1, nl, rest, acc1, gap, d, w);
        }
    }
}

/// `JSON.parse` reads the indented text as it reads the compact one: the
/// whitespace that indentation adds is skipped, so the tree is the value's.
pub proof fn lemma_parse_pretty(v: Json, gap: Seq<u16>)
    requires
        stringifiable(v),
        numbers_json(v),
        all_ws(gap),
    ensures
        parse_text(pretty(v, gap, 0)) == Ok::<Tree, Failure>(tree_of(v)),
{
    let s = pretty(v, gap, 0);
    assert(s.subrange(0, s.len() as int) =~= s);
    lemma_pretty_value_reads(s, 0, v, gap, 0);
    lemma_pretty_start(v, gap, 0);
    lemma_skip_no_ws(s, 0);
    lemma_skip_no_ws(s, s.len() as int);
}

/// Every unit of a JSON number is one that can continue a number: digits,
/// signs, the point and the exponent letters.
proof fn lemma_json_number_units(t: Seq<u16>)
    requires
        json_number(t),
    ensures
        t.len() > 0,
        forall|k: int| 0 <= k < t.len() ==> number_unit(#[trigger] t[k]),
{
    lemma_json_number_start(t);
    let q0 = if at(t, 0, 45) {
        1int
    } else {
        0int
    };
    let q1 = int_part_end(t, q0)->Ok_0.1;
    let q2 = fraction_end(t, q1)->Ok_0.1;
    let q3 = exponent_end(t, q2)->Ok_0.1;
    if !at(t, q0, 48) {
        lemma_digits_run(t, q0);
    }
    if at(t, q1, 46) {
        lemma_digits_run(t, q1 + 1);
    }
    let r = if at(t, q2 + 1, 43) || at(t, q2 + 1, 45) {
        q2 + 2
    } else {
        q2 + 1
    };
    if at(t, q2, 69) || at(t, q2, 101) {
        lemma_digits_run(t, r);
    }
    assert forall|k: int| 0 <= k < t.len() implies number_unit(#[trigger] t[k]) by {
        if k < q0 {
            assert(t[k] == 45);
        } else if k < q1 {
            assert(is_digit(t[k]));
        } else if k < q2 {
            if k == q1 {
                assert(t[k] == 46);
            } else {
                assert(is_digit(t[k]));
            }
        } else if k == q2 {
            assert(t[k] == 69 || t[k] == 101);
        } else if k < r {
            assert(t[k] == 43 || t[k] == 45);
        } else {
            assert(is_digit(t[k]));
        }
    }
}

/// What a finite double prints is a well formed number, whatever its
/// digits, sign, decimal point or exponent: every finite number whose text
/// is a JSON number (such as `1.5` or `-1.25e-7`), and whose integral digits,
/// if it has them, are a decimal numeral, is well formed.
pub proof fn lemma_printed_number_wf(n: NumberModel)
    requires
        n.finite,
        json_number(n.text),
        match n.integral {
            Some(t) => decimal_spelling(t),
            None => true,
        },
    ensures
        number_wf(n),
{
    lemma_json_number_units(n.text);
    assert forall|k: int| 0 <= k < n.text.len() implies !structural_unit(#[trigger] n.text[k]) by {
        assert(number_unit(n.text[k]));
    }
}

/// The upper-case hexadecimal digit of `d < 16`.
pub open spec fn upper_hex_digit(d: int) -> u16 {
    if d < 10 {
        (48 + d) as u16
    } else {
        (55 + d) as u16
    }
}

/// `\u` followed by the four upper-case hexadecimal digits of `u`.
pub open spec fn upper_escape(u: u16) -> Seq<u16> {
    seq![
        92u16,
        117u16,
        upper_hex_digit((u / 4096) as int),
        upper_hex_digit(((u / 256) % 16) as int),
        upper_hex_digit(((u / 16) % 16) as int),
        upper_hex_digit((u % 16) as int),
    ]
}

proof fn lemma_upper_hex_digit(d: int)
    requires
        0 <= d < 16,
    ensures
        is_hex(upper_hex_digit(d)),
        hex_value(upper_hex_digit(d)) == d,
{
}

/// A string literal holding one `\u` escape whose four digits are
/// hexadecimal with the values of `u`'s digits decodes to `[u]`.
proof fn lemma_escape_literal_parses(s: Seq<u16>, u: u16)
    requires
        s.len() == 8,
        s[0] == 34 && s[1] == 92 && s[2] == 117 && s[7] == 34,
        is_hex(s[3]) && is_hex(s[4]) && is_hex(s[5]) && is_hex(s[6]),
        hex_value(s[3]) == (u / 4096) as int,
        hex_value(s[4]) == ((u / 256) % 16) as int,
        hex_value(s[5]) == ((u / 16) % 16) as int,
        hex_value(s[6]) == (u % 16) as int,
    ensures
        parse_text(s) == Ok::<Tree, Failure>(Tree::Str(seq![u])),
{
    let d0 = (u / 4096) as int;
    let d1 = ((u / 256) % 16) as int;
    let d2 = ((u / 16) % 16) as int;
    let d3 = (u % 16) as int;
    lemma_hex_digits_value(u);
    assert(hex_run(s, 3, 4) == 4);
    assert(hex_run(s, 3, 3) == 4);
    assert(hex_run(s, 3, 2) == 4);
    assert(hex_run(s, 3, 1) == 4);
    assert(hex_run(s, 3, 0) == 4);
    assert(hex_prefix_value(s, 3, 0) == 0);
    assert(hex_prefix_value(s, 3, 1) == d0);
    assert(hex_prefix_value(s, 3, 2) == d0 * 16 + d1);
    assert(hex_prefix_value(s, 3, 3) == (d0 * 16 + d1) * 16 + d2);
    assert(hex_prefix_value(s, 3, 4) == ((d0 * 16 + d1) * 16 + d2) * 16 + d3);
    assert(hex4_value(s, 3) == u);
    assert(Seq::<u16>::empty().push(u) == seq![u]);
    assert(string_body(s, 7, seq![u]) == Ok::<(Seq<u16>, int), Failure>((seq![u], 8)));
    assert(string_body(s, 1, Seq::empty()) == Ok::<(Seq<u16>, int), Failure>((seq![u], 8)));
    assert(string_at(s, 0) == Ok::<(Seq<u16>, int), Failure>((seq![u], 8)));
    lemma_skip_no_ws(s, 0);
    lemma_skip_no_ws(s, 8);
    assert(value(s, 0) == Ok::<(Tree, int), Failure>((Tree::Str(seq![u]), 8)));
}

/// Hexadecimal digits are read in either case: a string literal holding
/// only `\u` and the four upper-case hexadecimal digits of `u` decodes to
/// the one-unit string `u`, and so does the one with lower-case digits.
pub proof fn lemma_unicode_escape_any_case(u: u16)
    ensures
        parse_text(seq![34u16] + upper_escape(u) + seq![34u16]) == Ok::<Tree, Failure>(
            Tree::Str(seq![u]),
        ),
        parse_text(seq![34u16] + unicode_escape(u) + seq![34u16]) == Ok::<Tree, Failure>(
            Tree::Str(seq![u]),
        ),
{
    let d0 = (u / 4096) as int;
    let d1 = ((u / 256) % 16) as int;
    let d2 = ((u / 16) % 16) as int;
    let d3 = (u % 16) as int;
    lemma_upper_hex_digit(d0);
    lemma_upper_hex_digit(d1);
    lemma_upper_hex_digit(d2);
    lemma_upper_hex_digit(d3);
    lemma_hex_digit(d0);
    lemma_hex_digit(d1);
    lemma_hex_digit(d2);
    lemma_hex_digit(d3);
    lemma_escape_literal_parses(seq![34u16] + upper_escape(u) + seq![34u16], u);
    lemma_escape_literal_parses(seq![34u16] + unicode_escape(u) + seq![34u16], u);
}

/// A record encodes as the object with the same members: it has a text
/// exactly when that object has one, and the same text; so a record whose
/// members are each omitted or encodable has a text.
pub proof fn lemma_record_encodes_as_object(fs: Seq<(Seq<u16>, Json)>)
    ensures
        stringifiable(Json::Record(fs)) == stringifiable(Json::Object(fs)),
        stringify(Json::Record(fs)) == stringify(Json::Object(fs)),
        (forall|j: int| 0 <= j < fs.len() ==> is_omitted(#[trigger] fs[j].1) || stringifiable(fs[j].1))
            ==> stringifiable(Json::Record(fs)),
{
    if forall|j: int| 0 <= j < fs.len() ==> is_omitted(#[trigger] fs[j].1) || stringifiable(fs[j].1) {
        lemma_members_encodable(fs);
    }
}

proof fn lemma_members_encodable(fs: Seq<(Seq<u16>, Json)>)
    requires
        forall|j: int| 0 <= j < fs.len() ==> is_omitted(#[trigger] fs[j].1) || stringifiable(fs[j].1),
    ensures
        members_stringifiable(fs),
    decreases fs.len(),
{
    if fs.len() > 0 {
        assert(is_omitted(fs[fs.len() - 1].1) || stringifiable(fs[fs.len() - 1].1));
        assert forall|j: int| 0 <= j < fs.drop_last().len() implies is_omitted(
            #[trigger] fs.drop_last()[j].1,
        ) || stringifiable(fs.drop_last()[j].1) by {
            assert(fs.drop_last()[j] == fs[j]);
        }
        lemma_members_encodable(fs.drop_last());
    }
}

} // verus!
