//! Indented JSON: `JSON.stringify(value, null, spaces)`, produced by
//! re-flowing the compact text so that quoting and member order stay those
//! of the compact form.
use vstd::prelude::*;
use crate::stringify::{
    Yoga_JSON__unsafeStringify, elements_text, escape_unit, is_high_surrogate, is_low_surrogate, items_stringifiable,
    members_stringifiable, members_text, quote_body, quoted, stringifiable, stringify,
};
use crate::text::{digit_unit, hex_digit, int_decimal, lemma_nat_decimal_digits, nat_decimal, unicode_escape, units_of};
use crate::value::{
    is_omitted, items_numbers_wf, members_numbers_wf, numbers_wf, structural_unit, JsValue, Json,
};

verus! {

/// The state of the re-flowing scanner.
pub struct ScanState {
    /// How many arrays and objects are open.
    pub depth: int,
    /// Inside a string literal.
    pub quoted: bool,
    /// Right after a backslash inside a string literal.
    pub escaped: bool,
    /// A bracket closed with none open: the scan has stopped.
    pub fault: bool,
}

/// The state at the start of a text.
pub open spec fn initial_state() -> ScanState {
    ScanState { depth: 0, quoted: false, escaped: false, fault: false }
}

/// `n` copies of `s`.
pub open spec fn repeat_units(s: Seq<u16>, n: nat) -> Seq<u16>
    decreases n,
{
    if n == 0 {
        Seq::empty()
    } else {
        repeat_units(s, (n - 1) as nat) + s
    }
}

/// A line break and `n` indentation steps.
pub open spec fn newline(gap: Seq<u16>, n: nat) -> Seq<u16> {
    seq![10u16] + repeat_units(gap, n)
}

/// The closing bracket of an opening one.
pub open spec fn closer(open: u16) -> u16 {
    if open == 91 {
        93
    } else {
        125
    }
}

/// The opening bracket of a closing one.
pub open spec fn opener(close: u16) -> u16 {
    if close == 93 {
        91
    } else {
        123
    }
}

/// What the unit at `i` of `c` turns into, and the state after it.
pub open spec fn scan_step(c: Seq<u16>, gap: Seq<u16>, i: int, st: ScanState) -> (
    Seq<u16>,
    ScanState,
) {
    let ch = c[i];
    if st.fault {
        (Seq::empty(), st)
    } else if st.quoted {
        let next = if st.escaped {
            ScanState { escaped: false, ..st }
        } else if ch == 92 {
            ScanState { escaped: true, ..st }
        } else if ch == 34 {
            ScanState { quoted: false, ..st }
        } else {
            st
        };
        (seq![ch], next)
    } else if ch == 34 {
        (seq![ch], ScanState { quoted: true, ..st })
    } else if ch == 91 || ch == 123 {
        let d = st.depth + 1;
        let out = if i + 1 < c.len() && c[i + 1] == closer(ch) {
            seq![ch]
        } else {
            seq![ch] + newline(gap, d as nat)
        };
        (out, ScanState { depth: d, ..st })
    } else if ch == 93 || ch == 125 {
        if st.depth <= 0 {
            (Seq::empty(), ScanState { fault: true, ..st })
        } else {
            let d = st.depth - 1;
            let out = if i > 0 && c[i - 1] != opener(ch) {
                newline(gap, d as nat) + seq![ch]
            } else {
                seq![ch]
            };
            (out, ScanState { depth: d, ..st })
        }
    } else if ch == 44 {
        (seq![44u16] + newline(gap, st.depth as nat), st)
    } else if ch == 58 {
        (seq![58u16, 32u16], st)
    } else {
        (seq![ch], st)
    }
}

/// What the units `i..j` of `c` turn into from state `st`, and the state after them.
pub open spec fn scan_range(c: Seq<u16>, gap: Seq<u16>, i: int, j: int, st: ScanState) -> (
    Seq<u16>,
    ScanState,
)
    decreases j - i,
{
    if i >= j {
        (Seq::empty(), st)
    } else {
        let (o1, s1) = scan_step(c, gap, i, st);
        let (o2, s2) = scan_range(c, gap, i + 1, j, s1);
        (o1 + o2, s2)
    }
}

/// The re-flowed text of `c` with indentation step `gap`.
pub open spec fn reflow(c: Seq<u16>, gap: Seq<u16>) -> Seq<u16> {
    scan_range(c, gap, 0, c.len() as int, initial_state()).0
}

/// Whether re-flowing `c` never meets a closing bracket with none open.
pub open spec fn reflows(c: Seq<u16>, gap: Seq<u16>) -> bool {
    !scan_range(c, gap, 0, c.len() as int, initial_state()).1.fault
}

pub proof fn lemma_fault_persists(c: Seq<u16>, gap: Seq<u16>, i: int, j: int, st: ScanState)
    requires
        st.fault,
    ensures
        scan_range(c, gap, i, j, st).1.fault,
    decreases j - i,
{
    if i < j {
        lemma_fault_persists(c, gap, i + 1, j, scan_step(c, gap, i, st).1);
    }
}

pub proof fn lemma_scan_split(c: Seq<u16>, gap: Seq<u16>, i: int, j: int, k: int, st: ScanState)
    requires
        i <= j <= k,
    ensures
        ({
            let (o1, s1) = scan_range(c, gap, i, j, st);
            let (o2, s2) = scan_range(c, gap, j, k, s1);
            scan_range(c, gap, i, k, st) == (o1 + o2, s2)
        }),
    decreases j - i,
{
    if i < j {
        let (o0, s0) = scan_step(c, gap, i, st);
        lemma_scan_split(c, gap, i + 1, j, k, s0);
        let (o1, s1) = scan_range(c, gap, i + 1, j, s0);
        let (o2, s2) = scan_range(c, gap, j, k, s1);
        assert(o0 + (o1 + o2) == (o0 + o1) + o2);
    } else {
        let (o2, s2) = scan_range(c, gap, j, k, st);
        assert(Seq::<u16>::empty() + o2 == o2);
    }
}

/// The indented JSON text of `v` at depth `d`, with indentation step `gap`:
/// a non-empty array or object puts each element or member on a line of its
/// own, one step deeper, and its closing bracket on a line of its own.
pub open spec fn pretty(v: Json, gap: Seq<u16>, d: nat) -> Seq<u16>
    decreases v, 2nat,
{
    match v {
        Json::Array(items) => if items.len() == 0 {
            seq![91u16, 93u16]
        } else {
            seq![91u16] + newline(gap, d + 1) + pretty_elements(items, gap, d + 1) + newline(gap, d)
                + seq![93u16]
        },
        Json::Object(fs) => if members_text(fs).len() == 0 {
            seq![123u16, 125u16]
        } else {
            seq![123u16] + newline(gap, d + 1) + pretty_members(fs, gap, d + 1) + newline(gap, d)
                + seq![125u16]
        },
        Json::Record(fs) => if members_text(fs).len() == 0 {
            seq![123u16, 125u16]
        } else {
            seq![123u16] + newline(gap, d + 1) + pretty_members(fs, gap, d + 1) + newline(gap, d)
                + seq![125u16]
        },
        _ => stringify(v),
    }
}

/// The elements of an array at depth `d`, one per line; an omitted one is `null`.
pub open spec fn pretty_elements(items: Seq<Json>, gap: Seq<u16>, d: nat) -> Seq<u16>
    decreases items, 1nat,
{
    if items.len() == 0 {
        Seq::empty()
    } else {
        let last = items.last();
        let e = if is_omitted(last) {
            units_of("null"@)
        } else {
            pretty(last, gap, d)
        };
        if items.len() == 1 {
            e
        } else {
            pretty_elements(items.drop_last(), gap, d) + seq![44u16] + newline(gap, d) + e
        }
    }
}

/// The members of an object at depth `d` that are not omitted, one per
/// line, as `"key": value`.
pub open spec fn pretty_members(fs: Seq<(Seq<u16>, Json)>, gap: Seq<u16>, d: nat) -> Seq<u16>
    decreases fs, 1nat,
{
    if fs.len() == 0 {
        Seq::empty()
    } else {
        let rest = pretty_members(fs.drop_last(), gap, d);
        let (k, v) = fs.last();
        let m = quoted(k) + seq![58u16, 32u16] + pretty(v, gap, d);
        if is_omitted(v) {
            rest
        } else if members_text(fs.drop_last()).len() == 0 {
            m
        } else {
            rest + seq![44u16] + newline(gap, d) + m
        }
    }
}

/// The scanner state outside any string literal at depth `d`.
pub open spec fn plain_state(d: nat) -> ScanState {
    ScanState { depth: d as int, quoted: false, escaped: false, fault: false }
}

/// The state inside a string literal at depth `d`.
pub open spec fn quoted_state(d: nat) -> ScanState {
    ScanState { depth: d as int, quoted: true, escaped: false, fault: false }
}

/// Units that the scanner copies unchanged in state `st`.
pub open spec fn passive(t: Seq<u16>, st: ScanState) -> bool {
    forall|k: int|
        0 <= k < t.len() ==> if st.quoted {
            #[trigger] t[k] != 92 && t[k] != 34
        } else {
            !structural_unit(#[trigger] t[k])
        }
}

/// Where `c` holds `t` from `i` on, it holds every piece of `t` there too.
proof fn lemma_window(c: Seq<u16>, i: int, t: Seq<u16>, a: int, b: int)
    requires
        0 <= i,
        i + t.len() <= c.len(),
        c.subrange(i, i + t.len()) == t,
        0 <= a <= b <= t.len(),
    ensures
        c.subrange(i + a, i + b) == t.subrange(a, b),
        a < t.len() ==> c[i + a] == t[a],
{
    assert(c.subrange(i + a, i + b) =~= t.subrange(a, b)) by {
        assert forall|k: int| 0 <= k < b - a implies c.subrange(i + a, i + b)[k] == t.subrange(
            a,
            b,
        )[k] by {
            assert(c.subrange(i, i + t.len())[a + k] == c[i + a + k]);
        }
    }
    if a < t.len() {
        assert(c.subrange(i, i + t.len())[a] == c[i + a]);
    }
}

proof fn lemma_scan_one(c: Seq<u16>, gap: Seq<u16>, i: int, st: ScanState)
    ensures
        scan_range(c, gap, i, i + 1, st) == scan_step(c, gap, i, st),
{
    let (o1, s1) = scan_step(c, gap, i, st);
    assert(scan_range(c, gap, i + 1, i + 1, s1) == (Seq::<u16>::empty(), s1));
    assert(o1 + Seq::<u16>::empty() == o1);
}

/// Passive units come out unchanged and leave the state as it was.
proof fn lemma_scan_passive(c: Seq<u16>, gap: Seq<u16>, i: int, t: Seq<u16>, st: ScanState)
    requires
        0 <= i,
        i + t.len() <= c.len(),
        c.subrange(i, i + t.len()) == t,
        passive(t, st),
        !st.fault,
        st.quoted ==> !st.escaped,
    ensures
        scan_range(c, gap, i, i + t.len(), st) == (t, st),
    decreases t.len(),
{
    if t.len() > 0 {
        assert(c[i] == t[0]);
        let rest = t.skip(1);
        assert(c.subrange(i + 1, i + 1 + rest.len()) =~= rest);
        assert(passive(rest, st)) by {
            assert forall|k: int| 0 <= k < rest.len() implies (if st.quoted {
                #[trigger] rest[k] != 92 && rest[k] != 34
            } else {
                !structural_unit(#[trigger] rest[k])
            }) by {
                assert(rest[k] == t[k + 1]);
            }
        }
        lemma_scan_passive(c, gap, i + 1, rest, st);
        if st.quoted {
            assert(t[0] != 92 && t[0] != 34);
        } else {
            assert(!structural_unit(t[0]));
        }
        assert(scan_step(c, gap, i, st) == (seq![t[0]], st));
        assert(seq![t[0]] + rest =~= t);
    } else {
        assert(scan_range(c, gap, i, i, st) == (Seq::<u16>::empty(), st));
        assert(t =~= Seq::<u16>::empty());
    }
}

/// Scanning two adjacent pieces, each with a known outcome.
proof fn lemma_scan_concat(
    c: Seq<u16>,
    gap: Seq<u16>,
    i: int,
    t1: Seq<u16>,
    t2: Seq<u16>,
    st: ScanState,
    o1: Seq<u16>,
    s1: ScanState,
    o2: Seq<u16>,
    s2: ScanState,
)
    requires
        0 <= i,
        scan_range(c, gap, i, i + t1.len(), st) == (o1, s1),
        scan_range(c, gap, i + t1.len(), i + t1.len() + t2.len(), s1) == (o2, s2),
    ensures
        scan_range(c, gap, i, i + (t1 + t2).len(), st) == (o1 + o2, s2),
{
    lemma_scan_split(c, gap, i, i + t1.len(), i + t1.len() + t2.len(), st);
}

/// The inside of a string literal comes out unchanged, in the quoted state.
proof fn lemma_scan_body(c: Seq<u16>, gap: Seq<u16>, i: int, s: Seq<u16>, d: nat)
    requires
        0 <= i,
        i + quote_body(s).len() <= c.len(),
        c.subrange(i, i + quote_body(s).len()) == quote_body(s),
    ensures
        scan_range(c, gap, i, i + quote_body(s).len(), quoted_state(d)) == (
            quote_body(s),
            quoted_state(d),
        ),
    decreases s.len(),
{
    let b = quote_body(s);
    let st = quoted_state(d);
    if s.len() == 0 {
        assert(scan_range(c, gap, i, i, st) == (Seq::<u16>::empty(), st));
    } else {
        let (piece, rest) = if s.len() >= 2 && is_high_surrogate(s[0]) && is_low_surrogate(s[1]) {
            (seq![s[0], s[1]], s.skip(2))
        } else {
            (escape_unit(s[0]), s.skip(1))
        };
        assert(b == piece + quote_body(rest));
        lemma_window(c, i, b, 0, piece.len() as int);
        lemma_window(c, i, b, piece.len() as int, b.len() as int);
        assert(b.subrange(0, piece.len() as int) =~= piece);
        assert(b.subrange(piece.len() as int, b.len() as int) =~= quote_body(rest));
        lemma_scan_body(c, gap, i + piece.len(), rest, d);
        lemma_scan_piece(c, gap, i, s, d);
        lemma_scan_concat(
            c,
            gap,
            i,
            piece,
            quote_body(rest),
            st,
            piece,
            st,
            quote_body(rest),
            st,
        );
    }
}

/// One piece of a string literal comes out unchanged, in the quoted state.
proof fn lemma_scan_piece(c: Seq<u16>, gap: Seq<u16>, i: int, s: Seq<u16>, d: nat)
    requires
        0 <= i,
        s.len() > 0,
        ({
            let piece = if s.len() >= 2 && is_high_surrogate(s[0]) && is_low_surrogate(s[1]) {
                seq![s[0], s[1]]
            } else {
                escape_unit(s[0])
            };
            i + piece.len() <= c.len() && c.subrange(i, i + piece.len()) == piece
        }),
    ensures
        ({
            let piece = if s.len() >= 2 && is_high_surrogate(s[0]) && is_low_surrogate(s[1]) {
                seq![s[0], s[1]]
            } else {
                escape_unit(s[0])
            };
            scan_range(c, gap, i, i + piece.len(), quoted_state(d)) == (piece, quoted_state(d))
        }),
{
    let st = quoted_state(d);
    let u = s[0];
    if s.len() >= 2 && is_high_surrogate(s[0]) && is_low_surrogate(s[1]) {
        let piece = seq![s[0], s[1]];
        assert(passive(piece, st));
        lemma_scan_passive(c, gap, i, piece, st);
    } else {
        let piece = escape_unit(u);
        if u == 0x22 || u == 0x5c || u == 8 || u == 9 || u == 10 || u == 12 || u == 13 {
            assert(piece.len() == 2 && piece[0] == 92);
            let esc = ScanState { escaped: true, ..st };
            assert(c[i] == 92);
            lemma_scan_one(c, gap, i, st);
            lemma_scan_one(c, gap, i + 1, esc);
            lemma_scan_split(c, gap, i, i + 1, i + 2, st);
            assert(seq![piece[0]] + seq![piece[1]] =~= piece);
        } else if u <= 0x1f || (0xd800 <= u <= 0xdfff) {
            assert(piece == unicode_escape(u));
            let esc = ScanState { escaped: true, ..st };
            assert(c[i] == 92);
            lemma_scan_one(c, gap, i, st);
            lemma_scan_one(c, gap, i + 1, esc);
            lemma_scan_split(c, gap, i, i + 1, i + 2, st);
            let hex = piece.skip(2);
            assert(passive(hex, st)) by {
                assert forall|k: int| 0 <= k < hex.len() implies #[trigger] hex[k] != 92 && hex[k]
                    != 34 by {
                    assert(hex[k] == piece[k + 2]);
                }
            }
            assert(c.subrange(i + 2, i + 2 + hex.len()) =~= hex);
            lemma_scan_passive(c, gap, i + 2, hex, st);
            lemma_scan_split(c, gap, i, i + 2, i + 6, st);
            assert(seq![piece[0]] + seq![piece[1]] + hex =~= piece);
        } else {
            assert(piece == seq![u]);
            assert(passive(piece, st));
            lemma_scan_passive(c, gap, i, piece, st);
        }
    }
}

/// A string literal comes out unchanged and leaves the state as it was.
proof fn lemma_scan_quoted(c: Seq<u16>, gap: Seq<u16>, i: int, s: Seq<u16>, d: nat)
    requires
        0 <= i,
        i + quoted(s).len() <= c.len(),
        c.subrange(i, i + quoted(s).len()) == quoted(s),
    ensures
        scan_range(c, gap, i, i + quoted(s).len(), plain_state(d)) == (quoted(s), plain_state(d)),
{
    let q = quoted(s);
    let b = quote_body(s);
    assert(q == seq![34u16] + b + seq![34u16]);
    lemma_window(c, i, q, 0, 1);
    let n = b.len() as int;
    lemma_window(c, i, q, 1, 1 + n);
    lemma_window(c, i, q, 1 + n, 2 + n);
    assert(q.subrange(1, 1 + n) =~= b);
    lemma_scan_one(c, gap, i, plain_state(d));
    lemma_scan_body(c, gap, i + 1, s, d);
    lemma_scan_one(c, gap, i + 1 + b.len(), quoted_state(d));
    lemma_scan_split(c, gap, i, i + 1, i + 1 + b.len(), plain_state(d));
    lemma_scan_split(c, gap, i, i + 1 + b.len(), i + 2 + b.len(), plain_state(d));
}

/// The text of a scalar that is not a string holds no structural unit.
proof fn lemma_plain_scalar(v: Json, d: nat)
    requires
        numbers_wf(v),
        v is Null || v is Int || v is Number || v is Bool,
    ensures
        passive(stringify(v), plain_state(d)),
        stringify(v).len() > 0,
{
    reveal_strlit("null");
    reveal_strlit("true");
    reveal_strlit("false");
    let t = stringify(v);
    match v {
        Json::Int(n) => {
            let m: nat = if n < 0 {
                (-n) as nat
            } else {
                n as nat
            };
            lemma_nat_decimal_digits(m);
            assert forall|k: int| 0 <= k < t.len() implies !structural_unit(#[trigger] t[k]) by {
                if n < 0 && k > 0 {
                    assert(t[k] == nat_decimal(m)[k - 1]);
                }
            }
        },
        Json::Number(x) => {
            if !x.finite {
                assert(t == units_of("null"@));
            }
        },
        _ => {},
    }
}

/// A closing bracket or brace.
pub open spec fn is_closer(u: u16) -> bool {
    u == 93 || u == 125
}

/// An opening bracket or brace.
pub open spec fn is_opener(u: u16) -> bool {
    u == 91 || u == 123
}

/// The text of a value is not empty, does not start with a closing bracket
/// and does not end with an opening one.
proof fn lemma_text_ends(v: Json)
    requires
        stringifiable(v),
        numbers_wf(v),
    ensures
        stringify(v).len() > 0,
        !is_closer(stringify(v)[0]),
        !is_opener(stringify(v).last()),
{
    let t = stringify(v);
    match v {
        Json::Null | Json::Int(_) | Json::Number(_) | Json::Bool(_) => {
            lemma_plain_scalar(v, 0);
            assert(!structural_unit(t[0]));
            assert(!structural_unit(t[t.len() - 1]));
        },
        Json::Str(x) => {
            assert(t == quoted(x));
        },
        Json::Char(x) => {},
        Json::BigInt(x) => {},
        _ => {},
    }
}

/// The elements of a non-empty array: not empty, not starting with a
/// closing bracket, not ending with an opening one.
proof fn lemma_elements_ends(items: Seq<Json>)
    requires
        items.len() > 0,
        items_stringifiable(items),
        items_numbers_wf(items),
    ensures
        elements_text(items).len() > 0,
        !is_closer(elements_text(items)[0]),
        !is_opener(elements_text(items).last()),
    decreases items.len(),
{
    reveal_strlit("null");
    let last = items.last();
    let e = if is_omitted(last) {
        units_of("null"@)
    } else {
        stringify(last)
    };
    if !is_omitted(last) {
        lemma_text_ends(last);
    }
    if items.len() > 1 {
        lemma_elements_ends(items.drop_last());
        let rest = elements_text(items.drop_last());
        assert(elements_text(items) == rest + seq![44u16] + e);
        assert(elements_text(items)[0] == rest[0]);
    }
}

/// The members of an object, when any is kept: starting with a quote and
/// not ending with an opening bracket.
proof fn lemma_members_ends(fs: Seq<(Seq<u16>, Json)>)
    requires
        members_text(fs).len() > 0,
        members_stringifiable(fs),
        members_numbers_wf(fs),
    ensures
        members_text(fs)[0] == 34,
        !is_opener(members_text(fs).last()),
    decreases fs.len(),
{
    let rest = members_text(fs.drop_last());
    let (k, v) = fs.last();
    if is_omitted(v) {
        lemma_members_ends(fs.drop_last());
    } else {
        lemma_text_ends(v);
        let m = quoted(k) + seq![58u16] + stringify(v);
        assert(m.last() == stringify(v).last());
        if rest.len() > 0 {
            lemma_members_ends(fs.drop_last());
            assert(members_text(fs) == rest + seq![44u16] + m);
            assert(members_text(fs)[0] == rest[0]);
        } else {
            assert(members_text(fs) == m);
            assert(m[0] == quoted(k)[0]);
        }
    }
}

/// A comma in the plain state: a line break at the same depth.
proof fn lemma_scan_comma(c: Seq<u16>, gap: Seq<u16>, i: int, d: nat)
    requires
        0 <= i < c.len(),
        c[i] == 44,
    ensures
        scan_range(c, gap, i, i + 1, plain_state(d)) == (
            seq![44u16] + newline(gap, d),
            plain_state(d),
        ),
{
    lemma_scan_one(c, gap, i, plain_state(d));
}

/// The text of a value comes out as its indented text, and the scanner
/// ends where it started.
pub proof fn lemma_scan_value(c: Seq<u16>, gap: Seq<u16>, i: int, v: Json, d: nat)
    requires
        stringifiable(v),
        numbers_wf(v),
        0 <= i,
        i + stringify(v).len() <= c.len(),
        c.subrange(i, i + stringify(v).len()) == stringify(v),
    ensures
        scan_range(c, gap, i, i + stringify(v).len(), plain_state(d)) == (
            pretty(v, gap, d),
            plain_state(d),
        ),
    decreases v, 2nat,
{
    let t = stringify(v);
    let n = t.len() as int;
    match v {
        Json::Array(items) => {
            let e = elements_text(items);
            let m = e.len() as int;
            assert(t == seq![91u16] + e + seq![93u16]);
            lemma_window(c, i, t, 0, 1);
            lemma_window(c, i, t, n - 1, n);
            lemma_scan_one(c, gap, i, plain_state(d));
            lemma_scan_one(c, gap, i + n - 1, plain_state(d + 1));
            if items.len() == 0 {
                assert(e.len() == 0);
                lemma_window(c, i, t, 1, 2);
                lemma_scan_split(c, gap, i, i + 1, i + 2, plain_state(d));
                assert(seq![91u16] + seq![93u16] =~= seq![91u16, 93u16]);
            } else {
                lemma_elements_ends(items);
                lemma_window(c, i, t, 1, 1 + m);
                assert(t.subrange(1, 1 + m) =~= e);
                assert(c[i + 1] == e[0]);
                assert(c[i + m] == e[m - 1]);
                lemma_scan_elements(c, gap, i + 1, items, d + 1);
                lemma_scan_split(c, gap, i, i + 1, i + 1 + m, plain_state(d));
                lemma_scan_split(c, gap, i, i + 1 + m, i + 2 + m, plain_state(d));
                assert(pretty(v, gap, d) =~= (seq![91u16] + newline(gap, d + 1)) + pretty_elements(
                    items,
                    gap,
                    d + 1,
                ) + (newline(gap, d) + seq![93u16]));
            }
        },
        Json::Object(fs) => {
            lemma_scan_object(c, gap, i, fs, d);
        },
        Json::Record(fs) => {
            lemma_scan_object(c, gap, i, fs, d);
        },
        Json::Str(x) => {
            lemma_scan_quoted(c, gap, i, x, d);
        },
        Json::Char(x) => {
            lemma_scan_quoted(c, gap, i, crate::text::char_units(x), d);
        },
        Json::BigInt(x) => {
            lemma_scan_quoted(c, gap, i, int_decimal(x), d);
        },
        _ => {
            lemma_plain_scalar(v, d);
            lemma_scan_passive(c, gap, i, t, plain_state(d));
        },
    }
}

/// The braces and members of an object or a record.
proof fn lemma_scan_object(c: Seq<u16>, gap: Seq<u16>, i: int, fs: Seq<(Seq<u16>, Json)>, d: nat)
    requires
        members_stringifiable(fs),
        members_numbers_wf(fs),
        0 <= i,
        ({
            let t = seq![123u16] + members_text(fs) + seq![125u16];
            i + t.len() <= c.len() && c.subrange(i, i + t.len()) == t
        }),
    ensures
        ({
            let t = seq![123u16] + members_text(fs) + seq![125u16];
            let p = if members_text(fs).len() == 0 {
                seq![123u16, 125u16]
            } else {
                seq![123u16] + newline(gap, d + 1) + pretty_members(fs, gap, d + 1) + newline(
                    gap,
                    d,
                ) + seq![125u16]
            };
            scan_range(c, gap, i, i + t.len(), plain_state(d)) == (p, plain_state(d))
        }),
    decreases fs, 3nat,
{
    let e = members_text(fs);
    let t = seq![123u16] + e + seq![125u16];
    let n = t.len() as int;
    let m = e.len() as int;
    lemma_window(c, i, t, 0, 1);
    lemma_window(c, i, t, n - 1, n);
    lemma_scan_one(c, gap, i, plain_state(d));
    lemma_scan_one(c, gap, i + n - 1, plain_state(d + 1));
    if m == 0 {
        lemma_window(c, i, t, 1, 2);
        lemma_scan_split(c, gap, i, i + 1, i + 2, plain_state(d));
        assert(seq![123u16] + seq![125u16] =~= seq![123u16, 125u16]);
    } else {
        lemma_members_ends(fs);
        lemma_window(c, i, t, 1, 1 + m);
        assert(t.subrange(1, 1 + m) =~= e);
        assert(c[i + 1] == e[0]);
        assert(c[i + m] == e[m - 1]);
        lemma_scan_members(c, gap, i + 1, fs, d + 1);
        lemma_scan_split(c, gap, i, i + 1, i + 1 + m, plain_state(d));
        lemma_scan_split(c, gap, i, i + 1 + m, i + 2 + m, plain_state(d));
        assert(seq![123u16] + newline(gap, d + 1) + pretty_members(fs, gap, d + 1) + newline(gap, d)
            + seq![125u16] =~= (seq![123u16] + newline(gap, d + 1)) + pretty_members(
            fs,
            gap,
            d + 1,
        ) + (newline(gap, d) + seq![125u16]));
    }
}

/// The elements of an array come out as their indented lines.
proof fn lemma_scan_elements(c: Seq<u16>, gap: Seq<u16>, i: int, items: Seq<Json>, d: nat)
    requires
        items_stringifiable(items),
        items_numbers_wf(items),
        0 <= i,
        i + elements_text(items).len() <= c.len(),
        c.subrange(i, i + elements_text(items).len()) == elements_text(items),
    ensures
        scan_range(c, gap, i, i + elements_text(items).len(), plain_state(d)) == (
            pretty_elements(items, gap, d),
            plain_state(d),
        ),
    decreases items, 1nat,
{
    reveal_strlit("null");
    let t = elements_text(items);
    if items.len() == 0 {
        assert(scan_range(c, gap, i, i, plain_state(d)) == (Seq::<u16>::empty(), plain_state(d)));
    } else {
        let last = items.last();
        let e = if is_omitted(last) {
            units_of("null"@)
        } else {
            stringify(last)
        };
        let start = t.len() - e.len();
        lemma_window(c, i, t, start, t.len() as int);
        assert(t.subrange(start, t.len() as int) =~= e);
        if is_omitted(last) {
            assert(passive(e, plain_state(d)));
            lemma_scan_passive(c, gap, i + start, e, plain_state(d));
        } else {
            lemma_scan_value(c, gap, i + start, last, d);
        }
        if items.len() > 1 {
            let rest = elements_text(items.drop_last());
            let r = rest.len() as int;
            assert(t == rest + seq![44u16] + e);
            lemma_window(c, i, t, 0, r);
            assert(t.subrange(0, r) =~= rest);
            lemma_window(c, i, t, r, r + 1);
            lemma_scan_elements(c, gap, i, items.drop_last(), d);
            lemma_scan_comma(c, gap, i + r, d);
            lemma_scan_split(c, gap, i, i + r, i + r + 1, plain_state(d));
            lemma_scan_split(c, gap, i, i + r + 1, i + t.len(), plain_state(d));
            assert(pretty_elements(items, gap, d) =~= pretty_elements(items.drop_last(), gap, d) + (
            seq![44u16] + newline(gap, d)) + (if is_omitted(last) {
                units_of("null"@)
            } else {
                pretty(last, gap, d)
            }));
        }
    }
}

/// The kept members of an object come out as their indented lines.
proof fn lemma_scan_members(
    c: Seq<u16>,
    gap: Seq<u16>,
    i: int,
    fs: Seq<(Seq<u16>, Json)>,
    d: nat,
)
    requires
        members_stringifiable(fs),
        members_numbers_wf(fs),
        0 <= i,
        i + members_text(fs).len() <= c.len(),
        c.subrange(i, i + members_text(fs).len()) == members_text(fs),
    ensures
        scan_range(c, gap, i, i + members_text(fs).len(), plain_state(d)) == (
            pretty_members(fs, gap, d),
            plain_state(d),
        ),
    decreases fs, 1nat,
{
    let t = members_text(fs);
    if fs.len() == 0 {
        assert(scan_range(c, gap, i, i, plain_state(d)) == (Seq::<u16>::empty(), plain_state(d)));
    } else {
        let rest = members_text(fs.drop_last());
        let r = rest.len() as int;
        let (k, v) = fs.last();
        if is_omitted(v) {
            lemma_scan_members(c, gap, i, fs.drop_last(), d);
        } else {
            let q = quoted(k);
            let sv = stringify(v);
            let mt = q + seq![58u16] + sv;
            let start = t.len() - mt.len();
            lemma_window(c, i, t, start, t.len() as int);
            assert(t.subrange(start, t.len() as int) =~= mt);
            let j = i + start;
            let ql = q.len() as int;
            lemma_window(c, j, mt, 0, ql);
            assert(mt.subrange(0, ql) =~= q);
            lemma_window(c, j, mt, ql, ql + 1);
            lemma_window(c, j, mt, ql + 1, mt.len() as int);
            assert(mt.subrange(ql + 1, mt.len() as int) =~= sv);
            lemma_scan_quoted(c, gap, j, k, d);
            lemma_scan_one(c, gap, j + ql, plain_state(d));
            lemma_scan_value(c, gap, j + ql + 1, v, d);
            lemma_scan_split(c, gap, j, j + ql, j + ql + 1, plain_state(d));
            lemma_scan_split(c, gap, j, j + ql + 1, j + mt.len(), plain_state(d));
            assert(q + seq![58u16, 32u16] + pretty(v, gap, d) =~= q + seq![58u16, 32u16] + pretty(
                v,
                gap,
                d,
            ));
            if r > 0 {
                assert(t == rest + seq![44u16] + mt);
                lemma_window(c, i, t, 0, r);
                assert(t.subrange(0, r) =~= rest);
                lemma_window(c, i, t, r, r + 1);
                lemma_scan_members(c, gap, i, fs.drop_last(), d);
                lemma_scan_comma(c, gap, i + r, d);
                lemma_scan_split(c, gap, i, i + r, i + r + 1, plain_state(d));
                lemma_scan_split(c, gap, i, i + r + 1, i + t.len(), plain_state(d));
                assert(pretty_members(fs, gap, d) =~= pretty_members(fs.drop_last(), gap, d) + (
                seq![44u16] + newline(gap, d)) + (q + seq![58u16, 32u16] + pretty(v, gap, d)));
            } else {
                assert(t == mt);
            }
        }
    }
}

/// Re-flowing the compact text of a value gives its indented text.
pub proof fn lemma_reflow_stringify(v: Json, gap: Seq<u16>)
    requires
        stringifiable(v),
        numbers_wf(v),
    ensures
        reflows(stringify(v), gap),
        reflow(stringify(v), gap) == pretty(v, gap, 0),
{
    let t = stringify(v);
    assert(t.subrange(0, t.len() as int) =~= t);
    lemma_scan_value(t, gap, 0, v, 0);
    assert(plain_state(0) == initial_state());
}

/// Appends `n` copies of `gap`.
fn push_indent(out: &mut Vec<u16>, gap: &[u16], n: usize)
    ensures
        final(out)@ == old(out)@ + repeat_units(gap@, n as nat),
{
    let mut k: usize = 0;
    while k < n
        invariant
            k <= n,
            out@ == old(out)@ + repeat_units(gap@, k as nat),
        decreases n - k,
    {
        let ghost before = out@;
        let mut j: usize = 0;
        while j < gap.len()
            invariant
                j <= gap@.len(),
                out@ == before + gap@.take(j as int),
            decreases gap@.len() - j,
        {
            out.push(gap[j]);
            assert(gap@.take(j + 1) == gap@.take(j as int).push(gap@[j as int]));
            j += 1;
        }
        assert(gap@.take(gap@.len() as int) == gap@);
        assert(repeat_units(gap@, (k + 1) as nat) == repeat_units(gap@, k as nat) + gap@);
        k += 1;
    }
}

/// Re-flows the compact JSON text `compact` with indentation step `gap`:
/// a line break and indentation after each opening bracket of a non-empty
/// array or object and after each comma, before each closing bracket of a
/// non-empty one, and a space after each colon, all outside string literals.
pub fn reflow_compact(gap: &[u16], compact: &[u16]) -> (r: Vec<u16>)
    requires
        reflows(compact@, gap@),
    ensures
        r@ == reflow(compact@, gap@),
{
    let ghost c = compact@;
    let ghost g = gap@;
    let ghost whole = scan_range(c, g, 0, c.len() as int, initial_state());
    let mut result: Vec<u16> = Vec::new();
    let mut depth: usize = 0;
    let mut quoted = false;
    let mut escaped = false;
    let mut index: usize = 0;
    let n = compact.len();
    while index < n
        invariant
            c == compact@,
            g == gap@,
            n == c.len(),
            index <= n,
            depth <= index,
            whole == scan_range(c, g, 0, c.len() as int, initial_state()),
            !whole.1.fault,
            ({
                let st = ScanState { depth: depth as int, quoted, escaped, fault: false };
                let rest = scan_range(c, g, index as int, n as int, st);
                &&& result@ + rest.0 == whole.0
                &&& rest.1 == whole.1
            }),
        decreases n - index,
    {
        let ghost st = ScanState { depth: depth as int, quoted, escaped, fault: false };
        let ghost rest = scan_range(c, g, index as int, n as int, st);
        let ghost step = scan_step(c, g, index as int, st);
        let ghost after = scan_range(c, g, index + 1, n as int, step.1);
        assert(rest == (step.0 + after.0, after.1));
        let ghost before = result@;
        let ch = compact[index];
        if quoted {
            result.push(ch);
            if escaped {
                escaped = false;
            } else if ch == 92 {
                escaped = true;
            } else if ch == 34 {
                quoted = false;
            }
        } else if ch == 34 {
            quoted = true;
            result.push(ch);
        } else if ch == 91 || ch == 123 {
            result.push(ch);
            depth = depth + 1;
            let close: u16 = if ch == 91 {
                93
            } else {
                125
            };
            if !(index + 1 < n && compact[index + 1] == close) {
                result.push(10);
                push_indent(&mut result, gap, depth);
            }
        } else if ch == 93 || ch == 125 {
            if depth == 0 {
                proof {
                    lemma_fault_persists(c, g, index + 1, n as int, step.1);
                }
            }
            depth = depth - 1;
            let open: u16 = if ch == 93 {
                91
            } else {
                123
            };
            if index > 0 && compact[index - 1] != open {
                result.push(10);
                push_indent(&mut result, gap, depth);
            }
            result.push(ch);
        } else if ch == 44 {
            result.push(44);
            result.push(10);
            push_indent(&mut result, gap, depth);
        } else if ch == 58 {
            result.push(58);
            result.push(32);
        } else {
            result.push(ch);
        }
        assert(result@ =~= before + step.0);
        index += 1;
    }
    proof {
        let st = ScanState { depth: depth as int, quoted, escaped, fault: false };
        assert(scan_range(c, g, n as int, n as int, st).0 =~= Seq::<u16>::empty());
    }
    result
}

} // verus!

verus! {

/// The number of spaces in an indentation step: `spaces` clamped to `0..=10`.
pub open spec fn clamp_spaces(spaces: i64) -> nat {
    if spaces < 0 {
        0
    } else if spaces > 10 {
        10
    } else {
        spaces as nat
    }
}

/// The indentation step is `spaces` clamped to `0..=10`: from 0 to 10
/// spaces it is exactly `spaces`, below 0 none, above 10 ten.
pub proof fn lemma_clamp_spaces(spaces: i64)
    ensures
        0 <= spaces <= 10 ==> clamp_spaces(spaces) == spaces,
        spaces < 0 ==> clamp_spaces(spaces) == 0,
        spaces > 10 ==> clamp_spaces(spaces) == 10,
        clamp_spaces(spaces) <= 10,
{
}

/// The indented JSON text of `value`, as `JSON.stringify(value, null,
/// spaces)` gives it: the compact text when `spaces` clamps to 0, else the
/// text indented by that many spaces per level. The value must have an
/// encoding.
#[allow(non_snake_case)]
pub fn Yoga_JSON__unsafePrettyStringify(spaces: i64, value: JsValue) -> (r: Vec<u16>)
    requires
        stringifiable(value.model()),
        numbers_wf(value.model()),
    ensures
        r@ == (if clamp_spaces(spaces) == 0 {
            stringify(value.model())
        } else {
            pretty(value.model(), repeat_units(seq![32u16], clamp_spaces(spaces)), 0)
        }),
{
    let ghost v = value.model();
    let compact = Yoga_JSON__unsafeStringify(value);
    let n: usize = if spaces < 0 {
        0
    } else if spaces > 10 {
        10
    } else {
        spaces as usize
    };
    assert(n as nat == clamp_spaces(spaces));
    let space = vec![32u16];
    assert(space@ == seq![32u16]);
    let mut gap: Vec<u16> = Vec::new();
    push_indent(&mut gap, space.as_slice(), n);
    if n == 0 {
        return compact;
    }
    proof {
        lemma_reflow_stringify(v, gap@);
    }
    reflow_compact(gap.as_slice(), compact.as_slice())
}

} // verus!
