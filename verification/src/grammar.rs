//! The JSON grammar that `JSON.parse` accepts, read over UTF-16 code units,
//! with the error (its reason and the position where it is raised) for every
//! input that it rejects.
use vstd::prelude::*;
use crate::text::units_of;

verus! {

/// A parsed JSON text. Numbers keep their spelling.
pub enum Tree {
    Null,
    Bool(bool),
    Number(Seq<u16>),
    Str(Seq<u16>),
    Array(Seq<Tree>),
    /// The members in the order of their first occurrence; a repeated key
    /// keeps its first place and takes its last value.
    Object(Seq<(Seq<u16>, Tree)>),
}

/// Why a text is not JSON.
#[derive(Clone, Copy, Debug, PartialEq, Eq, Structural)]
pub enum Reason {
    ExpectedPropertyName,
    UnterminatedString,
    BadControlCharacter,
    BadUnicodeEscape,
    BadEscapedCharacter,
    InvalidNumber,
    UnterminatedFraction,
    MissingExponent,
    ExpectedColon,
    UnexpectedToken,
    UnexpectedEnd,
    TrailingCharacters,
    ExpectedCommaOrBracket,
    ExpectedCommaOrBrace,
}

/// A rejection: its reason and the position (in code units) where it is raised.
pub struct Failure {
    pub reason: Reason,
    pub position: int,
}

pub open spec fn fails<T>(reason: Reason, position: int) -> Result<(T, int), Failure> {
    Err(Failure { reason, position })
}

/// The message of a reason.
pub open spec fn reason_text(r: Reason) -> Seq<char> {
    match r {
        Reason::ExpectedPropertyName => "Expected double-quoted property name"@,
        Reason::UnterminatedString => "Unterminated string"@,
        Reason::BadControlCharacter => "Bad control character in string literal"@,
        Reason::BadUnicodeEscape => "Bad Unicode escape"@,
        Reason::BadEscapedCharacter => "Bad escaped character"@,
        Reason::InvalidNumber => "Invalid number"@,
        Reason::UnterminatedFraction => "Unterminated fractional number"@,
        Reason::MissingExponent => "Exponent part is missing a number"@,
        Reason::ExpectedColon => "Expected ':' after property name"@,
        Reason::UnexpectedToken => "Unexpected token"@,
        Reason::UnexpectedEnd => "Unexpected end of JSON input"@,
        Reason::TrailingCharacters => "Unexpected non-whitespace character after JSON"@,
        Reason::ExpectedCommaOrBracket => "Expected ',' or ']' after array element"@,
        Reason::ExpectedCommaOrBrace => "Expected ',' or '}' after property value"@,
    }
}

/// Space, tab, line feed and carriage return.
pub open spec fn is_ws(u: u16) -> bool {
    u == 9 || u == 10 || u == 13 || u == 32
}

pub open spec fn is_digit(u: u16) -> bool {
    48 <= u <= 57
}

/// The first position at or after `p` that does not hold whitespace.
pub open spec fn skip_ws(s: Seq<u16>, p: int) -> int
    decreases s.len() - p,
{
    if 0 <= p < s.len() && is_ws(s[p]) {
        skip_ws(s, p + 1)
    } else {
        p
    }
}

/// The first position at or after `p` that does not hold a decimal digit.
pub open spec fn skip_digits(s: Seq<u16>, p: int) -> int
    decreases s.len() - p,
{
    if 0 <= p < s.len() && is_digit(s[p]) {
        skip_digits(s, p + 1)
    } else {
        p
    }
}

/// Whether `s[p]` exists and is `u`.
pub open spec fn at(s: Seq<u16>, p: int, u: u16) -> bool {
    0 <= p < s.len() && s[p] == u
}

/// Whether `s[p]` exists and is a decimal digit.
pub open spec fn digit_at(s: Seq<u16>, p: int) -> bool {
    0 <= p < s.len() && is_digit(s[p])
}

// ---------------------------------------------------------------- strings

pub open spec fn is_simple_escape(e: u16) -> bool {
    e == 34 || e == 47 || e == 92 || e == 98 || e == 102 || e == 110 || e == 114 || e == 116
}

/// The unit that the escape `\e` stands for.
pub open spec fn escaped_unit(e: u16) -> u16 {
    if e == 98 {
        8
    } else if e == 102 {
        12
    } else if e == 110 {
        10
    } else if e == 114 {
        13
    } else if e == 116 {
        9
    } else {
        e
    }
}

pub open spec fn is_hex(u: u16) -> bool {
    (48 <= u <= 57) || (65 <= u <= 70) || (97 <= u <= 102)
}

pub open spec fn hex_value(u: u16) -> int {
    if 48 <= u <= 57 {
        u - 48
    } else if 65 <= u <= 70 {
        u - 55
    } else {
        u - 87
    }
}

/// How many of the (at most four) units from `p + k` on are hexadecimal
/// digits, counting from `k`.
pub open spec fn hex_run(s: Seq<u16>, p: int, k: int) -> int
    decreases 4 - k,
{
    if k < 4 && 0 <= p + k < s.len() && is_hex(s[p + k]) {
        hex_run(s, p, k + 1)
    } else {
        k
    }
}

/// The value of the `k` hexadecimal digits at `p`.
pub open spec fn hex_prefix_value(s: Seq<u16>, p: int, k: nat) -> int
    decreases k,
{
    if k == 0 {
        0
    } else {
        hex_prefix_value(s, p, (k - 1) as nat) * 16 + hex_value(s[p + k - 1])
    }
}

/// The unit that four hexadecimal digits at `p` spell.
pub open spec fn hex4_value(s: Seq<u16>, p: int) -> u16 {
    hex_prefix_value(s, p, 4) as u16
}

/// The rest of a string literal from `p`, after the units `acc` were read.
pub open spec fn string_body(s: Seq<u16>, p: int, acc: Seq<u16>) -> Result<
    (Seq<u16>, int),
    Failure,
>
    decreases s.len() - p,
{
    if p < 0 || p >= s.len() {
        fails(Reason::UnterminatedString, p)
    } else {
        let u = s[p];
        if u == 34 {
            Ok((acc, p + 1))
        } else if u <= 31 {
            fails(Reason::BadControlCharacter, p + 1)
        } else if u == 92 {
            if p + 1 >= s.len() {
                fails(Reason::UnterminatedString, p + 1)
            } else {
                let e = s[p + 1];
                if is_simple_escape(e) {
                    string_body(s, p + 2, acc.push(escaped_unit(e)))
                } else if e == 117 {
                    let k = hex_run(s, p + 2, 0);
                    if k < 4 || p + 6 > s.len() {
                        fails(Reason::BadUnicodeEscape, p + 2 + k)
                    } else {
                        string_body(s, p + 6, acc.push(hex4_value(s, p + 2)))
                    }
                } else {
                    fails(Reason::BadEscapedCharacter, p + 2)
                }
            }
        } else {
            string_body(s, p + 1, acc.push(u))
        }
    }
}

/// A string literal at `p`: its units and the position after it.
pub open spec fn string_at(s: Seq<u16>, p: int) -> Result<(Seq<u16>, int), Failure> {
    if at(s, p, 34) {
        string_body(s, p + 1, Seq::empty())
    } else {
        fails(Reason::ExpectedPropertyName, p)
    }
}

// ---------------------------------------------------------------- numbers

/// The end of the integer part of a number whose sign ends at `q`.
pub open spec fn int_part_end(s: Seq<u16>, q: int) -> Result<((), int), Failure> {
    if at(s, q, 48) {
        Ok(((), q + 1))
    } else if 0 <= q < s.len() && 49 <= s[q] <= 57 {
        Ok(((), skip_digits(s, q)))
    } else {
        fails(Reason::InvalidNumber, q)
    }
}

/// The end of the fraction part that may start at `q`.
pub open spec fn fraction_end(s: Seq<u16>, q: int) -> Result<((), int), Failure> {
    if at(s, q, 46) {
        if digit_at(s, q + 1) {
            Ok(((), skip_digits(s, q + 1)))
        } else {
            fails(Reason::UnterminatedFraction, q + 1)
        }
    } else {
        Ok(((), q))
    }
}

/// The end of the exponent part that may start at `q`.
pub open spec fn exponent_end(s: Seq<u16>, q: int) -> Result<((), int), Failure> {
    if at(s, q, 69) || at(s, q, 101) {
        let r = if at(s, q + 1, 43) || at(s, q + 1, 45) {
            q + 2
        } else {
            q + 1
        };
        if digit_at(s, r) {
            Ok(((), skip_digits(s, r)))
        } else {
            fails(Reason::MissingExponent, r)
        }
    } else {
        Ok(((), q))
    }
}

/// A number literal at `p`: its spelling and the position after it.
pub open spec fn number_at(s: Seq<u16>, p: int) -> Result<(Seq<u16>, int), Failure> {
    let q0 = if at(s, p, 45) {
        p + 1
    } else {
        p
    };
    match int_part_end(s, q0) {
        Err(f) => Err(f),
        Ok((_, q1)) => match fraction_end(s, q1) {
            Err(f) => Err(f),
            Ok((_, q2)) => match exponent_end(s, q2) {
                Err(f) => Err(f),
                Ok((_, q3)) => Ok((s.subrange(p, q3), q3)),
            },
        },
    }
}

// ---------------------------------------------------------------- literals

/// How many units of `lit` match the text from `q` on, counting from `k`.
pub open spec fn matched_units(s: Seq<u16>, q: int, lit: Seq<u16>, k: int) -> int
    decreases lit.len() - k,
{
    if 0 <= k < lit.len() && 0 <= q + k < s.len() && s[q + k] == lit[k] {
        matched_units(s, q, lit, k + 1)
    } else {
        k
    }
}

/// The literal `null`, `true` or `false` that starts with the unit at `q`.
pub open spec fn literal_at(s: Seq<u16>, q: int) -> Result<(Tree, int), Failure> {
    let (lit, v) = if s[q] == 110 {
        (units_of("null"@), Tree::Null)
    } else if s[q] == 116 {
        (units_of("true"@), Tree::Bool(true))
    } else {
        (units_of("false"@), Tree::Bool(false))
    };
    let k = matched_units(s, q, lit, 0);
    if k == lit.len() {
        Ok((v, q + k))
    } else {
        fails(Reason::UnexpectedToken, q + k)
    }
}

// ---------------------------------------------------------------- objects

/// The first index at which `fs` holds key `k`, if any.
pub open spec fn is_first_key(fs: Seq<(Seq<u16>, Tree)>, k: Seq<u16>, i: int) -> bool {
    &&& 0 <= i < fs.len()
    &&& fs[i].0 == k
    &&& forall|j: int| 0 <= j < i ==> fs[j].0 != k
}

/// Sets member `k` to `v`: in place when `k` is there, at the end when not.
pub open spec fn insert_member(fs: Seq<(Seq<u16>, Tree)>, k: Seq<u16>, v: Tree) -> Seq<
    (Seq<u16>, Tree),
> {
    if exists|i: int| is_first_key(fs, k, i) {
        let i = choose|i: int| is_first_key(fs, k, i);
        fs.update(i, (k, v))
    } else {
        fs.push((k, v))
    }
}

/// A property name and its colon at `p` (after whitespace): the name and
/// the position after the colon.
pub open spec fn property_at(s: Seq<u16>, p: int) -> Result<(Seq<u16>, int), Failure> {
    match string_at(s, skip_ws(s, p)) {
        Err(f) => Err(f),
        Ok((key, q)) => {
            let r = skip_ws(s, q);
            if at(s, r, 58) {
                Ok((key, r + 1))
            } else {
                fails(Reason::ExpectedColon, r)
            }
        },
    }
}

// ---------------------------------------------------------------- values

/// A value at `p`, after whitespace.
pub open spec fn value(s: Seq<u16>, p: int) -> Result<(Tree, int), Failure>
    decreases s.len() - p, 1nat,
{
    if p < 0 || p > s.len() {
        fails(Reason::UnexpectedEnd, p)
    } else {
        proof {
            lemma_skip_ws(s, p);
        }
        value_at(s, skip_ws(s, p))
    }
}

/// A value that starts right at `q`.
pub open spec fn value_at(s: Seq<u16>, q: int) -> Result<(Tree, int), Failure>
    decreases s.len() - q, 0nat,
{
    if q < 0 || q >= s.len() {
        fails(Reason::UnexpectedEnd, q)
    } else {
        let u = s[q];
        if u == 34 {
            match string_at(s, q) {
                Ok((t, r)) => Ok((Tree::Str(t), r)),
                Err(f) => Err(f),
            }
        } else if u == 45 || is_digit(u) {
            match number_at(s, q) {
                Ok((t, r)) => Ok((Tree::Number(t), r)),
                Err(f) => Err(f),
            }
        } else if u == 110 || u == 116 || u == 102 {
            literal_at(s, q)
        } else if u == 91 {
            proof {
                lemma_skip_ws(s, q + 1);
            }
            let q1 = skip_ws(s, q + 1);
            if at(s, q1, 93) {
                Ok((Tree::Array(Seq::empty()), q1 + 1))
            } else {
                items(s, q1, Seq::empty())
            }
        } else if u == 123 {
            proof {
                lemma_skip_ws(s, q + 1);
            }
            let q1 = skip_ws(s, q + 1);
            if at(s, q1, 125) {
                Ok((Tree::Object(Seq::empty()), q1 + 1))
            } else {
                match property_at(s, q1) {
                    Err(f) => Err(f),
                    Ok((k, q2)) => if q2 > q && q2 <= s.len() {
                        members(s, q2, Seq::empty(), k)
                    } else {
                        fails(Reason::UnexpectedToken, q2)
                    },
                }
            }
        } else {
            fails(Reason::UnexpectedToken, q)
        }
    }
}

/// Array elements from `p` on, after the elements `acc` were read.
pub open spec fn items(s: Seq<u16>, p: int, acc: Seq<Tree>) -> Result<(Tree, int), Failure>
    decreases s.len() - p, 2nat,
{
    if p < 0 || p > s.len() {
        fails(Reason::UnexpectedEnd, p)
    } else {
        match value(s, p) {
            Err(f) => Err(f),
            Ok((v, r)) => if p < r <= s.len() {
                items_tail(s, r, acc.push(v))
            } else {
                fails(Reason::UnexpectedToken, r)
            },
        }
    }
}

/// What follows an array element that ends at `p`.
pub open spec fn items_tail(s: Seq<u16>, p: int, acc: Seq<Tree>) -> Result<(Tree, int), Failure>
    decreases s.len() - p, 0nat,
{
    if p < 0 || p > s.len() {
        fails(Reason::UnexpectedEnd, p)
    } else {
        proof {
            lemma_skip_ws(s, p);
        }
        let q = skip_ws(s, p);
        if at(s, q, 44) {
            items(s, q + 1, acc)
        } else if at(s, q, 93) {
            Ok((Tree::Array(acc), q + 1))
        } else {
            fails(Reason::ExpectedCommaOrBracket, q)
        }
    }
}

/// Object members from the value of key `k` at `p` on, after the members
/// `fs` were read.
pub open spec fn members(s: Seq<u16>, p: int, fs: Seq<(Seq<u16>, Tree)>, k: Seq<u16>) -> Result<
    (Tree, int),
    Failure,
>
    decreases s.len() - p, 2nat,
{
    if p < 0 || p > s.len() {
        fails(Reason::UnexpectedEnd, p)
    } else {
        match value(s, p) {
            Err(f) => Err(f),
            Ok((v, r)) => if p < r <= s.len() {
                members_tail(s, r, insert_member(fs, k, v))
            } else {
                fails(Reason::UnexpectedToken, r)
            },
        }
    }
}

/// What follows an object member whose value ends at `p`.
pub open spec fn members_tail(s: Seq<u16>, p: int, fs: Seq<(Seq<u16>, Tree)>) -> Result<
    (Tree, int),
    Failure,
>
    decreases s.len() - p, 0nat,
{
    if p < 0 || p > s.len() {
        fails(Reason::UnexpectedEnd, p)
    } else {
        proof {
            lemma_skip_ws(s, p);
        }
        let q = skip_ws(s, p);
        if at(s, q, 44) {
            match property_at(s, q + 1) {
                Err(f) => Err(f),
                Ok((k, r)) => if r > q && r <= s.len() {
                    members(s, r, fs, k)
                } else {
                    fails(Reason::UnexpectedToken, r)
                },
            }
        } else if at(s, q, 125) {
            Ok((Tree::Object(fs), q + 1))
        } else {
            fails(Reason::ExpectedCommaOrBrace, q)
        }
    }
}

/// `JSON.parse` on the text `s`: one value, with nothing but whitespace after it.
pub open spec fn parse_text(s: Seq<u16>) -> Result<Tree, Failure> {
    match value(s, 0) {
        Err(f) => Err(f),
        Ok((v, p)) => {
            let q = skip_ws(s, p);
            if q < s.len() {
                Err(Failure { reason: Reason::TrailingCharacters, position: q })
            } else {
                Ok(v)
            }
        },
    }
}

// ---------------------------------------------------------------- lemmas

pub proof fn lemma_skip_ws(s: Seq<u16>, p: int)
    requires
        0 <= p <= s.len(),
    ensures
        p <= skip_ws(s, p) <= s.len(),
        skip_ws(s, p) < s.len() ==> !is_ws(s[skip_ws(s, p)]),
        skip_ws(s, skip_ws(s, p)) == skip_ws(s, p),
    decreases s.len() - p,
{
    if p < s.len() && is_ws(s[p]) {
        lemma_skip_ws(s, p + 1);
    }
}

pub proof fn lemma_skip_digits(s: Seq<u16>, p: int)
    requires
        0 <= p <= s.len(),
    ensures
        p <= skip_digits(s, p) <= s.len(),
        skip_digits(s, p) < s.len() ==> !is_digit(s[skip_digits(s, p)]),
    decreases s.len() - p,
{
    if p < s.len() && is_digit(s[p]) {
        lemma_skip_digits(s, p + 1);
    }
}

pub proof fn lemma_string_body(s: Seq<u16>, p: int, acc: Seq<u16>)
    requires
        0 <= p,
    ensures
        string_body(s, p, acc) matches Ok((_, r)) ==> p < r <= s.len(),
    decreases s.len() - p,
{
    if 0 <= p < s.len() {
        let u = s[p];
        if u == 92 && p + 1 < s.len() {
            let e = s[p + 1];
            if is_simple_escape(e) {
                lemma_string_body(s, p + 2, acc.push(escaped_unit(e)));
            } else if e == 117 {
                let k = hex_run(s, p + 2, 0);
                if !(k < 4 || p + 6 > s.len()) {
                    lemma_string_body(s, p + 6, acc.push(hex4_value(s, p + 2)));
                }
            }
        } else if u != 34 && u > 31 {
            lemma_string_body(s, p + 1, acc.push(u));
        }
    }
}

pub proof fn lemma_string_at(s: Seq<u16>, p: int)
    requires
        0 <= p,
    ensures
        string_at(s, p) matches Ok((_, r)) ==> p + 1 < r <= s.len(),
{
    if at(s, p, 34) {
        lemma_string_body(s, p + 1, Seq::empty());
    }
}

pub proof fn lemma_number_at(s: Seq<u16>, p: int)
    requires
        0 <= p <= s.len(),
    ensures
        number_at(s, p) matches Ok((t, r)) ==> p < r <= s.len() && t == s.subrange(p, r),
{
    let q0 = if at(s, p, 45) {
        p + 1
    } else {
        p
    };
    if 0 <= q0 < s.len() && 49 <= s[q0] <= 57 {
        lemma_skip_digits(s, q0);
    }
    if let Ok((_, q1)) = int_part_end(s, q0) {
        if at(s, q1, 46) && digit_at(s, q1 + 1) {
            lemma_skip_digits(s, q1 + 1);
        }
        if let Ok((_, q2)) = fraction_end(s, q1) {
            let r = if at(s, q2 + 1, 43) || at(s, q2 + 1, 45) {
                q2 + 2
            } else {
                q2 + 1
            };
            if (at(s, q2, 69) || at(s, q2, 101)) && digit_at(s, r) {
                lemma_skip_digits(s, r);
            }
        }
    }
}

pub proof fn lemma_property_at(s: Seq<u16>, p: int)
    requires
        0 <= p <= s.len(),
    ensures
        property_at(s, p) matches Ok((_, r)) ==> p + 3 <= r <= s.len(),
{
    lemma_skip_ws(s, p);
    let q0 = skip_ws(s, p);
    lemma_string_at(s, q0);
    if let Ok((_, q)) = string_at(s, q0) {
        lemma_skip_ws(s, q);
    }
}

pub proof fn lemma_matched_units(s: Seq<u16>, q: int, lit: Seq<u16>, k: int)
    requires
        0 <= k <= lit.len(),
        0 <= q,
        q + k <= s.len(),
    ensures
        k <= matched_units(s, q, lit, k) <= lit.len(),
        matched_units(s, q, lit, k) == lit.len() ==> q + lit.len() <= s.len(),
    decreases lit.len() - k,
{
    if 0 <= k < lit.len() && 0 <= q + k < s.len() && s[q + k] == lit[k] {
        lemma_matched_units(s, q, lit, k + 1);
    }
}

/// Every value that parses ends after where it started, within the text.
pub proof fn lemma_value_progress(s: Seq<u16>, p: int)
    ensures
        value(s, p) matches Ok((_, r)) ==> p < r <= s.len(),
    decreases s.len() - p, 1nat,
{
    if 0 <= p <= s.len() {
        lemma_skip_ws(s, p);
        lemma_value_at_progress(s, skip_ws(s, p));
    }
}

pub proof fn lemma_value_at_progress(s: Seq<u16>, q: int)
    ensures
        value_at(s, q) matches Ok((_, r)) ==> q < r <= s.len(),
    decreases s.len() - q, 0nat,
{
    if 0 <= q < s.len() {
        let u = s[q];
        if u == 34 {
            lemma_string_at(s, q);
        } else if u == 45 || is_digit(u) {
            lemma_number_at(s, q);
        } else if u == 110 || u == 116 || u == 102 {
            reveal_strlit("null");
            reveal_strlit("true");
            reveal_strlit("false");
            let lit = if s[q] == 110 {
                units_of("null"@)
            } else if s[q] == 116 {
                units_of("true"@)
            } else {
                units_of("false"@)
            };
            lemma_matched_units(s, q, lit, 0);
            assert(lit.len() > 0);
        } else if u == 91 {
            lemma_skip_ws(s, q + 1);
            let q1 = skip_ws(s, q + 1);
            if !at(s, q1, 93) {
                lemma_items_progress(s, q1, Seq::empty());
            }
        } else if u == 123 {
            lemma_skip_ws(s, q + 1);
            let q1 = skip_ws(s, q + 1);
            if !at(s, q1, 125) {
                if let Ok((k, q2)) = property_at(s, q1) {
                    if q2 > q && q2 <= s.len() {
                        lemma_members_progress(s, q2, Seq::empty(), k);
                    }
                }
            }
        }
    }
}

pub proof fn lemma_items_progress(s: Seq<u16>, p: int, acc: Seq<Tree>)
    ensures
        items(s, p, acc) matches Ok((_, r)) ==> p < r <= s.len(),
    decreases s.len() - p, 2nat,
{
    if 0 <= p <= s.len() {
        lemma_value_progress(s, p);
        if let Ok((v, r)) = value(s, p) {
            if p < r <= s.len() {
                lemma_items_tail_progress(s, r, acc.push(v));
            }
        }
    }
}

pub proof fn lemma_items_tail_progress(s: Seq<u16>, p: int, acc: Seq<Tree>)
    ensures
        items_tail(s, p, acc) matches Ok((_, r)) ==> p < r <= s.len(),
    decreases s.len() - p, 0nat,
{
    if 0 <= p <= s.len() {
        lemma_skip_ws(s, p);
        let q = skip_ws(s, p);
        if at(s, q, 44) {
            lemma_items_progress(s, q + 1, acc);
        }
    }
}

pub proof fn lemma_members_progress(
    s: Seq<u16>,
    p: int,
    fs: Seq<(Seq<u16>, Tree)>,
    k: Seq<u16>,
)
    ensures
        members(s, p, fs, k) matches Ok((_, r)) ==> p < r <= s.len(),
    decreases s.len() - p, 2nat,
{
    if 0 <= p <= s.len() {
        lemma_value_progress(s, p);
        if let Ok((v, r)) = value(s, p) {
            if p < r <= s.len() {
                lemma_members_tail_progress(s, r, insert_member(fs, k, v));
            }
        }
    }
}

pub proof fn lemma_members_tail_progress(s: Seq<u16>, p: int, fs: Seq<(Seq<u16>, Tree)>)
    ensures
        members_tail(s, p, fs) matches Ok((_, r)) ==> p < r <= s.len(),
    decreases s.len() - p, 0nat,
{
    if 0 <= p <= s.len() {
        lemma_skip_ws(s, p);
        let q = skip_ws(s, p);
        if at(s, q, 44) {
            if let Ok((k, r)) = property_at(s, q + 1) {
                if r > q && r <= s.len() {
                    lemma_members_progress(s, r, fs, k);
                }
            }
        }
    }
}

/// No two members of `fs` have the same key.
pub open spec fn distinct_keys(fs: Seq<(Seq<u16>, Tree)>) -> bool {
    forall|i: int, j: int| 0 <= i < j < fs.len() ==> fs[i].0 != fs[j].0
}

/// No object inside `t` has two members with the same key.
pub open spec fn keys_distinct(t: Tree) -> bool
    decreases t, 1nat,
{
    match t {
        Tree::Array(items) => items_keys_distinct(items),
        Tree::Object(fs) => distinct_keys(fs) && members_keys_distinct(fs),
        _ => true,
    }
}

pub open spec fn items_keys_distinct(items: Seq<Tree>) -> bool
    decreases items, 0nat,
{
    items.len() == 0 || (keys_distinct(items.last()) && items_keys_distinct(items.drop_last()))
}

pub open spec fn members_keys_distinct(fs: Seq<(Seq<u16>, Tree)>) -> bool
    decreases fs, 0nat,
{
    fs.len() == 0 || (keys_distinct(fs.last().1) && members_keys_distinct(fs.drop_last()))
}

proof fn lemma_members_keys_distinct_all(fs: Seq<(Seq<u16>, Tree)>)
    ensures
        members_keys_distinct(fs) <==> forall|i: int| 0 <= i < fs.len() ==> keys_distinct(
            #[trigger] fs[i].1,
        ),
    decreases fs.len(),
{
    if fs.len() > 0 {
        lemma_members_keys_distinct_all(fs.drop_last());
        if forall|i: int| 0 <= i < fs.len() ==> keys_distinct(#[trigger] fs[i].1) {
            assert(keys_distinct(fs[fs.len() - 1].1));
            assert forall|i: int| 0 <= i < fs.drop_last().len() implies keys_distinct(
                #[trigger] fs.drop_last()[i].1,
            ) by {
                assert(fs.drop_last()[i] == fs[i]);
            }
        }
        if members_keys_distinct(fs) {
            assert forall|i: int| 0 <= i < fs.len() implies keys_distinct(#[trigger] fs[i].1) by {
                if i < fs.len() - 1 {
                    assert(fs.drop_last()[i] == fs[i]);
                }
            }
        }
    }
}

/// Setting a member keeps the keys distinct.
proof fn lemma_insert_member_distinct(fs: Seq<(Seq<u16>, Tree)>, k: Seq<u16>, v: Tree)
    requires
        distinct_keys(fs),
        members_keys_distinct(fs),
        keys_distinct(v),
    ensures
        distinct_keys(insert_member(fs, k, v)),
        members_keys_distinct(insert_member(fs, k, v)),
{
    lemma_members_keys_distinct_all(fs);
    let r = insert_member(fs, k, v);
    if exists|i: int| is_first_key(fs, k, i) {
        let i = choose|i: int| is_first_key(fs, k, i);
        assert(r == fs.update(i, (k, v)));
        assert forall|a: int, b: int| 0 <= a < b < r.len() implies r[a].0 != r[b].0 by {
            assert(r[a].0 == fs[a].0);
            assert(r[b].0 == fs[b].0);
        }
        assert forall|j: int| 0 <= j < r.len() implies keys_distinct(#[trigger] r[j].1) by {
            if j != i {
                assert(r[j] == fs[j]);
            }
        }
    } else {
        assert forall|j: int| 0 <= j < fs.len() implies fs[j].0 != k by {
            if fs[j].0 == k {
                assert(is_first_key(fs, k, j));
            }
        }
        assert(r == fs.push((k, v)));
        assert forall|j: int| 0 <= j < r.len() implies keys_distinct(#[trigger] r[j].1) by {
            if j < fs.len() {
                assert(r[j] == fs[j]);
            }
        }
    }
    lemma_members_keys_distinct_all(r);
}

proof fn lemma_value_distinct(s: Seq<u16>, p: int)
    ensures
        value(s, p) matches Ok((t, _)) ==> keys_distinct(t),
    decreases s.len() - p, 1nat,
{
    if 0 <= p <= s.len() {
        lemma_skip_ws(s, p);
        lemma_value_at_distinct(s, skip_ws(s, p));
    }
}

proof fn lemma_value_at_distinct(s: Seq<u16>, q: int)
    ensures
        value_at(s, q) matches Ok((t, _)) ==> keys_distinct(t),
    decreases s.len() - q, 0nat,
{
    if 0 <= q < s.len() {
        let u = s[q];
        if u == 110 || u == 116 || u == 102 {
            reveal_strlit("null");
            reveal_strlit("true");
            reveal_strlit("false");
        } else if u == 91 {
            lemma_skip_ws(s, q + 1);
            let q1 = skip_ws(s, q + 1);
            if !at(s, q1, 93) {
                lemma_items_distinct(s, q1, Seq::empty());
            }
        } else if u == 123 {
            lemma_skip_ws(s, q + 1);
            let q1 = skip_ws(s, q + 1);
            if !at(s, q1, 125) {
                if let Ok((k, q2)) = property_at(s, q1) {
                    if q2 > q && q2 <= s.len() {
                        lemma_members_distinct(s, q2, Seq::empty(), k);
                    }
                }
            }
        }
    }
}

proof fn lemma_items_distinct(s: Seq<u16>, p: int, acc: Seq<Tree>)
    requires
        items_keys_distinct(acc),
    ensures
        items(s, p, acc) matches Ok((t, _)) ==> keys_distinct(t),
    decreases s.len() - p, 2nat,
{
    if 0 <= p <= s.len() {
        lemma_value_distinct(s, p);
        if let Ok((v, r)) = value(s, p) {
            if p < r <= s.len() {
                assert(acc.push(v).drop_last() =~= acc);
                lemma_items_tail_distinct(s, r, acc.push(v));
            }
        }
    }
}

proof fn lemma_items_tail_distinct(s: Seq<u16>, p: int, acc: Seq<Tree>)
    requires
        items_keys_distinct(acc),
    ensures
        items_tail(s, p, acc) matches Ok((t, _)) ==> keys_distinct(t),
    decreases s.len() - p, 0nat,
{
    if 0 <= p <= s.len() {
        lemma_skip_ws(s, p);
        let q = skip_ws(s, p);
        if at(s, q, 44) {
            lemma_items_distinct(s, q + 1, acc);
        }
    }
}

proof fn lemma_members_distinct(s: Seq<u16>, p: int, fs: Seq<(Seq<u16>, Tree)>, k: Seq<u16>)
    requires
        distinct_keys(fs),
        members_keys_distinct(fs),
    ensures
        members(s, p, fs, k) matches Ok((t, _)) ==> keys_distinct(t),
    decreases s.len() - p, 2nat,
{
    if 0 <= p <= s.len() {
        lemma_value_distinct(s, p);
        if let Ok((v, r)) = value(s, p) {
            if p < r <= s.len() {
                lemma_insert_member_distinct(fs, k, v);
                lemma_members_tail_distinct(s, r, insert_member(fs, k, v));
            }
        }
    }
}

proof fn lemma_members_tail_distinct(s: Seq<u16>, p: int, fs: Seq<(Seq<u16>, Tree)>)
    requires
        distinct_keys(fs),
        members_keys_distinct(fs),
    ensures
        members_tail(s, p, fs) matches Ok((t, _)) ==> keys_distinct(t),
    decreases s.len() - p, 0nat,
{
    if 0 <= p <= s.len() {
        lemma_skip_ws(s, p);
        let q = skip_ws(s, p);
        if at(s, q, 44) {
            if let Ok((k, r)) = property_at(s, q + 1) {
                if r > q && r <= s.len() {
                    lemma_members_distinct(s, r, fs, k);
                }
            }
        }
    }
}

/// Decoding never leaves two members of an object with the same key: a
/// repeated key keeps its first place and takes its last value.
pub proof fn lemma_parse_keys_distinct(s: Seq<u16>)
    ensures
        parse_text(s) matches Ok(t) ==> keys_distinct(t),
{
    lemma_value_distinct(s, 0);
}

} // verus!
