//! The JSON decoder: a scanner over UTF-16 code units that keeps its open
//! arrays and objects on an explicit stack, so that deeply nested input
//! cannot exhaust the call stack.
use vstd::prelude::*;
use crate::grammar::{
    at, fails, literal_at, matched_units, parse_text, value_at, exponent_end, fraction_end, hex_prefix_value, hex_run, insert_member, int_part_end,
    is_first_key, items, items_tail, lemma_number_at, lemma_skip_digits, lemma_skip_ws,
    lemma_string_body, lemma_value_progress, members, members_tail, number_at, property_at,
    reason_text, skip_digits, skip_ws, string_at, string_body, value, Failure, Reason, Tree,
};
use crate::text::{ascii_units, nat_decimal, push_units, units_equal, units_of, usize_decimal};
use crate::value::{ErrorModel, ErrorName, JsonError};

verus! {

/// A parsed JSON text; numbers keep their spelling.
#[derive(Debug, PartialEq)]
pub enum JsonTree {
    Null,
    Bool(bool),
    Number(Vec<u16>),
    Str(Vec<u16>),
    Array(Vec<JsonTree>),
    Object(Vec<(Vec<u16>, JsonTree)>),
}

/// The model of a list of parsed members.
pub open spec fn tree_entries(fs: Seq<(Vec<u16>, JsonTree)>) -> Seq<(Seq<u16>, Tree)>
    decreases fs, 1nat,
{
    Seq::new(
        fs.len(),
        |i: int|
            if 0 <= i < fs.len() {
                (fs[i].0@, fs[i].1.model())
            } else {
                (Seq::empty(), Tree::Null)
            },
    )
}

/// The model of a list of parsed values.
pub open spec fn tree_items(vs: Seq<JsonTree>) -> Seq<Tree>
    decreases vs, 1nat,
{
    Seq::new(vs.len(), |i: int| if 0 <= i < vs.len() { vs[i].model() } else { Tree::Null })
}

impl JsonTree {
    pub open spec fn model(self) -> Tree
        decreases self, 0nat,
    {
        match self {
            JsonTree::Null => Tree::Null,
            JsonTree::Bool(b) => Tree::Bool(b),
            JsonTree::Number(t) => Tree::Number(t@),
            JsonTree::Str(t) => Tree::Str(t@),
            JsonTree::Array(vs) => Tree::Array(tree_items(vs@)),
            JsonTree::Object(fs) => Tree::Object(tree_entries(fs@)),
        }
    }
}

/// The error that a rejection raises: a `SyntaxError` whose message names
/// the reason and the position.
pub open spec fn syntax_error(f: Failure) -> ErrorModel {
    ErrorModel {
        name: ErrorName::SyntaxError,
        message: units_of(reason_text(f.reason)) + units_of(" in JSON at position "@)
            + nat_decimal(f.position as nat),
    }
}

/// Whether `r` is the outcome that the grammar gives: the same tree, or
/// the error of the same rejection.
pub open spec fn outcome_matches(r: Result<JsonTree, JsonError>, g: Result<Tree, Failure>) -> bool {
    match g {
        Ok(t) => r matches Ok(v) && v.model() == t,
        Err(f) => r matches Err(e) && e@ == syntax_error(f),
    }
}

/// An array or an object that is still open.
enum Frame {
    Array(Vec<JsonTree>),
    /// The members read so far and the key whose value comes next.
    Object(Vec<(Vec<u16>, JsonTree)>, Vec<u16>),
}

/// The model of an open array or object.
pub enum FrameModel {
    Array(Seq<Tree>),
    Object(Seq<(Seq<u16>, Tree)>, Seq<u16>),
}

impl Frame {
    spec fn model(self) -> FrameModel {
        match self {
            Frame::Array(vs) => FrameModel::Array(tree_items(vs@)),
            Frame::Object(fs, k) => FrameModel::Object(tree_entries(fs@), k@),
        }
    }
}

spec fn frames_model(st: Seq<Frame>) -> Seq<FrameModel> {
    Seq::new(st.len(), |i: int| st[i].model())
}

/// How parsing ends once a value that ends at `p` was read with the open
/// arrays and objects `st` around it (or how it ends if that read failed).
pub open spec fn resume(s: Seq<u16>, st: Seq<FrameModel>, r: Result<(Tree, int), Failure>) -> Result<
    Tree,
    Failure,
>
    decreases st.len(),
{
    match r {
        Err(f) => Err(f),
        Ok((v, p)) => if st.len() == 0 {
            let q = skip_ws(s, p);
            if q < s.len() {
                Err(Failure { reason: Reason::TrailingCharacters, position: q })
            } else {
                Ok(v)
            }
        } else {
            match st.last() {
                FrameModel::Array(acc) => resume(s, st.drop_last(), items_tail(s, p, acc.push(v))),
                FrameModel::Object(fs, k) => resume(
                    s,
                    st.drop_last(),
                    members_tail(s, p, insert_member(fs, k, v)),
                ),
            }
        },
    }
}

proof fn lemma_resume_items(s: Seq<u16>, st: Seq<FrameModel>, p: int, acc: Seq<Tree>)
    requires
        0 <= p <= s.len(),
    ensures
        resume(s, st.push(FrameModel::Array(acc)), value(s, p)) == resume(s, st, items(s, p, acc)),
{
    lemma_value_progress(s, p);
    let st2 = st.push(FrameModel::Array(acc));
    assert(st2.drop_last() == st);
    if let Ok((v, r)) = value(s, p) {
        assert(resume(s, st2, value(s, p)) == resume(s, st, items_tail(s, r, acc.push(v))));
    }
}

proof fn lemma_resume_members(
    s: Seq<u16>,
    st: Seq<FrameModel>,
    p: int,
    fs: Seq<(Seq<u16>, Tree)>,
    k: Seq<u16>,
)
    requires
        0 <= p <= s.len(),
    ensures
        resume(s, st.push(FrameModel::Object(fs, k)), value(s, p)) == resume(
            s,
            st,
            members(s, p, fs, k),
        ),
{
    lemma_value_progress(s, p);
    let st2 = st.push(FrameModel::Object(fs, k));
    assert(st2.drop_last() == st);
    if let Ok((v, r)) = value(s, p) {
        assert(resume(s, st2, value(s, p)) == resume(
            s,
            st,
            members_tail(s, r, insert_member(fs, k, v)),
        ));
    }
}

/// Completing a value inside an open array.
proof fn lemma_resume_array(s: Seq<u16>, st: Seq<FrameModel>, acc: Seq<Tree>, v: Tree, p: int)
    requires
        0 <= p <= s.len(),
    ensures
        ({
            let q = skip_ws(s, p);
            let r = resume(s, st.push(FrameModel::Array(acc)), Ok((v, p)));
            &&& at(s, q, 44) ==> r == resume(
                s,
                st.push(FrameModel::Array(acc.push(v))),
                value(s, q + 1),
            )
            &&& !at(s, q, 44) && at(s, q, 93) ==> r == resume(
                s,
                st,
                Ok((Tree::Array(acc.push(v)), q + 1)),
            )
            &&& !at(s, q, 44) && !at(s, q, 93) ==> r == Err::<Tree, Failure>(
                Failure { reason: Reason::ExpectedCommaOrBracket, position: q },
            )
        }),
{
    lemma_skip_ws(s, p);
    let q = skip_ws(s, p);
    let st2 = st.push(FrameModel::Array(acc));
    assert(st2.drop_last() == st);
    assert(resume(s, st2, Ok((v, p))) == resume(s, st, items_tail(s, p, acc.push(v))));
    if at(s, q, 44) {
        lemma_resume_items(s, st, q + 1, acc.push(v));
    }
}

/// Completing a value inside an open object.
proof fn lemma_resume_object(
    s: Seq<u16>,
    st: Seq<FrameModel>,
    fs: Seq<(Seq<u16>, Tree)>,
    k: Seq<u16>,
    v: Tree,
    p: int,
)
    requires
        0 <= p <= s.len(),
    ensures
        ({
            let q = skip_ws(s, p);
            let fs2 = insert_member(fs, k, v);
            let r = resume(s, st.push(FrameModel::Object(fs, k)), Ok((v, p)));
            &&& at(s, q, 44) ==> match property_at(s, q + 1) {
                Ok((k2, r2)) => q < r2 <= s.len() && r == resume(
                    s,
                    st.push(FrameModel::Object(fs2, k2)),
                    value(s, r2),
                ),
                Err(f) => r == Err::<Tree, Failure>(f),
            }
            &&& !at(s, q, 44) && at(s, q, 125) ==> r == resume(
                s,
                st,
                Ok((Tree::Object(fs2), q + 1)),
            )
            &&& !at(s, q, 44) && !at(s, q, 125) ==> r == Err::<Tree, Failure>(
                Failure { reason: Reason::ExpectedCommaOrBrace, position: q },
            )
        }),
{
    lemma_skip_ws(s, p);
    let q = skip_ws(s, p);
    let fs2 = insert_member(fs, k, v);
    let st2 = st.push(FrameModel::Object(fs, k));
    assert(st2.drop_last() == st);
    assert(resume(s, st2, Ok((v, p))) == resume(s, st, members_tail(s, p, fs2)));
    if at(s, q, 44) {
        if q + 1 <= s.len() {
            crate::grammar::lemma_property_at(s, q + 1);
            if let Ok((k2, r2)) = property_at(s, q + 1) {
                lemma_resume_members(s, st, r2, fs2, k2);
            }
        }
    }
}

/// Completing a value with no array or object open.
proof fn lemma_resume_top(s: Seq<u16>, v: Tree, p: int)
    ensures
        resume(s, Seq::empty(), Ok((v, p))) == (if skip_ws(s, p) < s.len() {
            Err::<Tree, Failure>(
                Failure { reason: Reason::TrailingCharacters, position: skip_ws(s, p) },
            )
        } else {
            Ok(v)
        }),
{
}

/// The text of a reason.
fn reason_str(r: Reason) -> (t: &'static str)
    ensures
        t@ == reason_text(r),
{
    match r {
        Reason::ExpectedPropertyName => "Expected double-quoted property name",
        Reason::UnterminatedString => "Unterminated string",
        Reason::BadControlCharacter => "Bad control character in string literal",
        Reason::BadUnicodeEscape => "Bad Unicode escape",
        Reason::BadEscapedCharacter => "Bad escaped character",
        Reason::InvalidNumber => "Invalid number",
        Reason::UnterminatedFraction => "Unterminated fractional number",
        Reason::MissingExponent => "Exponent part is missing a number",
        Reason::ExpectedColon => "Expected ':' after property name",
        Reason::UnexpectedToken => "Unexpected token",
        Reason::UnexpectedEnd => "Unexpected end of JSON input",
        Reason::TrailingCharacters => "Unexpected non-whitespace character after JSON",
        Reason::ExpectedCommaOrBracket => "Expected ',' or ']' after array element",
        Reason::ExpectedCommaOrBrace => "Expected ',' or '}' after property value",
    }
}

/// Sets member `key` of `fields` to `value`: in place when the key is
/// there, at the end when it is not.
fn insert_field(fields: &mut Vec<(Vec<u16>, JsonTree)>, key: Vec<u16>, value: JsonTree)
    ensures
        tree_entries(final(fields)@) == insert_member(tree_entries(old(fields)@), key@, value.model()),
{
    let ghost m = tree_entries(fields@);
    let mut i: usize = 0;
    while i < fields.len()
        invariant
            m == tree_entries(fields@),
            fields@ == old(fields)@,
            i <= fields@.len(),
            forall|j: int| 0 <= j < i ==> m[j].0 != key@,
        decreases fields@.len() - i,
    {
        if units_equal(fields[i].0.as_slice(), key.as_slice()) {
            proof {
                assert(is_first_key(m, key@, i as int));
                let c = choose|c: int| is_first_key(m, key@, c);
                assert(c == i as int) by {
                    if c < i {
                        assert(m[c].0 != key@);
                    }
                    if c > i {
                        assert(m[i as int].0 == key@);
                    }
                }
            }
            let ghost vm = value.model();
            let ghost k = key@;
            fields.set(i, (key, value));
            assert(tree_entries(fields@) =~= m.update(i as int, (k, vm)));
            return ;
        }
        i += 1;
    }
    proof {
        assert(!exists|c: int| is_first_key(m, key@, c));
    }
    let ghost vm = value.model();
    let ghost k = key@;
    fields.push((key, value));
    assert(tree_entries(fields@) =~= m.push((k, vm)));
}

/// What became of a value once the open arrays and objects around it were
/// given it.
enum Completion {
    /// Parsing ended, with this outcome.
    Finished(Result<JsonTree, JsonError>),
    /// Another value is due, at the current position.
    Resumed,
}

/// What one step of completion did.
enum Step {
    /// Parsing ended, with this outcome.
    Finished(Result<JsonTree, JsonError>),
    /// Another value is due, at the current position.
    Resumed,
    /// The innermost open array or object closed: this is its value.
    Closed(JsonTree),
}

/// How a value starts.
enum Start {
    /// A whole value was read.
    Value(JsonTree),
    /// An array or an object was opened.
    Opened,
    /// The text is not JSON.
    Failed(JsonError),
}

/// A JSON decoder over a text of UTF-16 code units.
pub struct PurustJsonParser {
    units: Vec<u16>,
    position: usize,
}

impl PurustJsonParser {
    /// The text being decoded.
    pub closed spec fn text(&self) -> Seq<u16> {
        self.units@
    }

    /// A decoder at the start of `units`.
    pub fn new(units: Vec<u16>) -> (r: PurustJsonParser)
        ensures
            r.text() == units@,
            r.at_start(),
    {
        PurustJsonParser { units, position: 0 }
    }

    /// The error for `reason` at the current position.
    fn fail(&self, reason: Reason) -> (e: JsonError)
        ensures
            e@ == syntax_error(Failure { reason, position: self.position as int }),
    {
        let mut message = ascii_units(reason_str(reason));
        let tail = ascii_units(" in JSON at position ");
        push_units(&mut message, tail.as_slice());
        let digits = usize_decimal(self.position);
        push_units(&mut message, digits.as_slice());
        JsonError { name: ErrorName::SyntaxError, message }
    }

    /// The unit at the current position, if any.
    fn peek(&self) -> (r: Option<u16>)
        ensures
            r == (if self.position < self.units@.len() {
                Some(self.units@[self.position as int])
            } else {
                None
            }),
    {
        if self.position < self.units.len() {
            Some(self.units[self.position])
        } else {
            None
        }
    }

    /// Skips whitespace.
    fn whitespace(&mut self)
        requires
            old(self).position <= old(self).units@.len(),
        ensures
            final(self).units == old(self).units,
            final(self).position == skip_ws(old(self).units@, old(self).position as int),
    {
        proof {
            lemma_skip_ws(self.units@, self.position as int);
        }
        while self.position < self.units.len() && (self.units[self.position] == 9
            || self.units[self.position] == 10 || self.units[self.position] == 13
            || self.units[self.position] == 32)
            invariant
                self.units == old(self).units,
                self.position <= self.units@.len(),
                skip_ws(self.units@, self.position as int) == skip_ws(
                    old(self).units@,
                    old(self).position as int,
                ),
            decreases self.units@.len() - self.position,
        {
            self.position += 1;
        }
    }

    /// Steps over `unit` when it comes next.
    fn take(&mut self, unit: u16) -> (r: bool)
        ensures
            final(self).units == old(self).units,
            r == at(old(self).units@, old(self).position as int, unit),
            final(self).position == (if r {
                old(self).position + 1
            } else {
                old(self).position as int
            }),
    {
        if self.position < self.units.len() && self.units[self.position] == unit {
            self.position += 1;
            true
        } else {
            false
        }
    }

    /// Skips decimal digits.
    fn digits(&mut self)
        requires
            old(self).position <= old(self).units@.len(),
        ensures
            final(self).units == old(self).units,
            final(self).position == skip_digits(old(self).units@, old(self).position as int),
    {
        proof {
            lemma_skip_digits(self.units@, self.position as int);
        }
        while self.position < self.units.len() && 48 <= self.units[self.position]
            && self.units[self.position] <= 57
            invariant
                self.units == old(self).units,
                self.position <= self.units@.len(),
                skip_digits(self.units@, self.position as int) == skip_digits(
                    old(self).units@,
                    old(self).position as int,
                ),
            decreases self.units@.len() - self.position,
        {
            self.position += 1;
        }
    }

    /// A string literal: its units, with every escape resolved and every
    /// unit kept as it is (a lone surrogate too).
    fn string(&mut self) -> (r: Result<Vec<u16>, JsonError>)
        requires
            old(self).position <= old(self).units@.len(),
        ensures
            final(self).units == old(self).units,
            final(self).position <= final(self).units@.len(),
            match string_at(old(self).units@, old(self).position as int) {
                Ok((t, p)) => r matches Ok(v) && v@ == t && final(self).position == p,
                Err(f) => r matches Err(e) && e@ == syntax_error(f),
            },
    {
        let ghost s = self.units@;
        let ghost start = self.position as int;
        if !self.take(34) {
            return Err(self.fail(Reason::ExpectedPropertyName));
        }
        let mut result: Vec<u16> = Vec::new();
        let len = self.units.len();
        loop
            invariant
                len == s.len(),
                self.units@ == s,
                self.units == old(self).units,
                s == old(self).units@,
                start == old(self).position,
                self.position <= s.len(),
                string_body(s, self.position as int, result@) == string_at(s, start),
            decreases s.len() - self.position,
        {
            let p = self.position;
            assert(self.units@ == s);
            assert(p <= s.len());
            let mut unit = match self.peek() {
                Some(u) => u,
                None => {
                    assert(string_body(s, p as int, result@) == fails::<Seq<u16>>(
                        Reason::UnterminatedString,
                        p as int,
                    ));
                    return Err(self.fail(Reason::UnterminatedString));
                },
            };
            assert(p < s.len());
            assert(unit == s[p as int]);
            self.position += 1;
            if unit == 34 {
                proof {
                    lemma_string_body(s, p as int, result@);
                }
                assert(string_body(s, p as int, result@) == Ok::<(Seq<u16>, int), Failure>((result@, p as int + 1)));
                assert(string_at(s, start) == Ok::<(Seq<u16>, int), Failure>((result@, p as int + 1)));
                return Ok(result);
            } else if unit <= 31 {
                assert(string_body(s, p as int, result@) == fails::<Seq<u16>>(
                    Reason::BadControlCharacter,
                    p as int + 1,
                ));
                return Err(self.fail(Reason::BadControlCharacter));
            } else if unit == 92 {
                let escape = match self.peek() {
                    Some(e) => e,
                    None => {
                        assert(string_body(s, p as int, result@) == fails::<Seq<u16>>(
                            Reason::UnterminatedString,
                            p as int + 1,
                        ));
                        return Err(self.fail(Reason::UnterminatedString));
                    },
                };
                self.position += 1;
                if escape == 34 || escape == 47 || escape == 92 {
                    unit = escape;
                } else if escape == 98 {
                    unit = 8;
                } else if escape == 102 {
                    unit = 12;
                } else if escape == 110 {
                    unit = 10;
                } else if escape == 114 {
                    unit = 13;
                } else if escape == 116 {
                    unit = 9;
                } else if escape == 117 {
                    let ghost h = p as int + 2;
                    let mut code: u16 = 0;
                    let mut k: usize = 0;
                    while k < 4
                        invariant
                            self.units@ == s,
                            self.units == old(self).units,
                            string_body(s, p as int, result@) == string_at(s, start),
                            len == s.len(),
                            s == old(self).units@,
                            start == old(self).position,
                            p + 1 < s.len(),
                            s[p as int] == 92,
                            s[p + 1] == 117,
                            h == p + 2,
                            0 <= k <= 4,
                            h + 4 <= s.len() + 4 - k,
                            self.position == h + k,
                            hex_run(s, h, 0) == hex_run(s, h, k as int),
                            code as int == hex_prefix_value(s, h, k as nat),
                            code < (if k == 0 {
                                1int
                            } else if k == 1 {
                                16int
                            } else if k == 2 {
                                256int
                            } else if k == 3 {
                                4096int
                            } else {
                                65536int
                            }),
                        decreases 4 - k,
                    {
                        let digit: u16 = match self.peek() {
                            Some(c) => if 48 <= c && c <= 57 {
                                c - 48
                            } else if 65 <= c && c <= 70 {
                                c - 55
                            } else if 97 <= c && c <= 102 {
                                c - 87
                            } else {
                                assert(hex_run(s, h, k as int) == k);
                                assert(string_body(s, p as int, result@) == fails::<Seq<u16>>(
                                    Reason::BadUnicodeEscape,
                                    h + k,
                                ));
                                return Err(self.fail(Reason::BadUnicodeEscape));
                            },
                            None => {
                                assert(hex_run(s, h, k as int) == k);
                                assert(string_body(s, p as int, result@) == fails::<Seq<u16>>(
                                    Reason::BadUnicodeEscape,
                                    h + k,
                                ));
                                return Err(self.fail(Reason::BadUnicodeEscape));
                            },
                        };
                        self.position += 1;
                        code = code * 16 + digit;
                        k += 1;
                    }
                    assert(hex_run(s, h, 4) == 4);
                    unit = code;
                } else {
                    assert(string_body(s, p as int, result@) == fails::<Seq<u16>>(
                        Reason::BadEscapedCharacter,
                        p as int + 2,
                    ));
                    return Err(self.fail(Reason::BadEscapedCharacter));
                }
            }
            result.push(unit);
        }
    }

    /// A number literal: its spelling.
    fn number(&mut self) -> (r: Result<Vec<u16>, JsonError>)
        requires
            old(self).position <= old(self).units@.len(),
        ensures
            final(self).units == old(self).units,
            final(self).position <= final(self).units@.len(),
            match number_at(old(self).units@, old(self).position as int) {
                Ok((t, p)) => r matches Ok(v) && v@ == t && final(self).position == p,
                Err(f) => r matches Err(e) && e@ == syntax_error(f),
            },
    {
        let ghost s = self.units@;
        let start = self.position;
        self.take(45);
        let q0 = self.position;
        if !self.take(48) {
            match self.peek() {
                Some(c) => if !(49 <= c && c <= 57) {
                    return Err(self.fail(Reason::InvalidNumber));
                },
                None => {
                    return Err(self.fail(Reason::InvalidNumber));
                },
            }
            self.digits();
        }
        assert(int_part_end(s, q0 as int) == Ok::<((), int), Failure>(((), self.position as int)));
        let q1 = self.position;
        if self.take(46) {
            match self.peek() {
                Some(c) => if !(48 <= c && c <= 57) {
                    return Err(self.fail(Reason::UnterminatedFraction));
                },
                None => {
                    return Err(self.fail(Reason::UnterminatedFraction));
                },
            }
            self.digits();
        }
        assert(fraction_end(s, q1 as int) == Ok::<((), int), Failure>(((), self.position as int)));
        let q2 = self.position;
        if self.take(69) || self.take(101) {
            if !self.take(43) {
                self.take(45);
            }
            match self.peek() {
                Some(c) => if !(48 <= c && c <= 57) {
                    return Err(self.fail(Reason::MissingExponent));
                },
                None => {
                    return Err(self.fail(Reason::MissingExponent));
                },
            }
            self.digits();
        }
        assert(exponent_end(s, q2 as int) == Ok::<((), int), Failure>(((), self.position as int)));
        proof {
            lemma_number_at(s, start as int);
        }
        let mut spelling: Vec<u16> = Vec::new();
        let mut i: usize = start;
        while i < self.position
            invariant
                self.units@ == s,
                start <= i <= self.position <= s.len(),
                spelling@ == s.subrange(start as int, i as int),
            decreases self.position - i,
        {
            spelling.push(self.units[i]);
            assert(s.subrange(start as int, i + 1) == s.subrange(start as int, i as int).push(
                s[i as int],
            ));
            i += 1;
        }
        Ok(spelling)
    }

    /// A property name and its colon.
    fn property(&mut self) -> (r: Result<Vec<u16>, JsonError>)
        requires
            old(self).position <= old(self).units@.len(),
        ensures
            final(self).units == old(self).units,
            final(self).position <= final(self).units@.len(),
            match property_at(old(self).units@, old(self).position as int) {
                Ok((t, p)) => r matches Ok(v) && v@ == t && final(self).position == p,
                Err(f) => r matches Err(e) && e@ == syntax_error(f),
            },
    {
        proof {
            lemma_skip_ws(self.units@, self.position as int);
        }
        self.whitespace();
        let key = match self.string() {
            Ok(k) => k,
            Err(e) => {
                return Err(e);
            },
        };
        proof {
            lemma_skip_ws(self.units@, self.position as int);
        }
        self.whitespace();
        if !self.take(58) {
            return Err(self.fail(Reason::ExpectedColon));
        }
        Ok(key)
    }
}

impl PurustJsonParser {
    /// Gives `value`, which ends at the current position, to the innermost
    /// open array or object, or ends parsing when none is open.
    #[verifier::spinoff_prover]
    fn step(&mut self, stack: &mut Vec<Frame>, value: JsonTree) -> (r: Step)
        requires
            old(self).position <= old(self).units@.len(),
        ensures
            final(self).units == old(self).units,
            final(self).position <= final(self).units@.len(),
            ({
                let before = resume(
                    old(self).units@,
                    frames_model(old(stack)@),
                    Ok((value.model(), old(self).position as int)),
                );
                match r {
                    Step::Finished(res) => outcome_matches(res, before),
                    Step::Resumed => {
                        &&& resume(
                            old(self).units@,
                            frames_model(final(stack)@),
                            crate::grammar::value(old(self).units@, final(self).position as int),
                        ) == before
                        &&& final(self).position > old(self).position
                    },
                    Step::Closed(v) => {
                        &&& resume(
                            old(self).units@,
                            frames_model(final(stack)@),
                            Ok((v.model(), final(self).position as int)),
                        ) == before
                        &&& final(self).position > old(self).position
                        &&& final(stack)@.len() < old(stack)@.len()
                    },
                }
            }),
    {
        let ghost s = self.units@;
        let ghost fm = frames_model(stack@);
        let ghost p = self.position as int;
        let ghost vm = value.model();
        proof {
            lemma_skip_ws(s, p);
        }
        self.whitespace();
        if stack.len() == 0 {
            proof {
                assert(fm =~= Seq::<FrameModel>::empty());
                lemma_resume_top(s, vm, p);
            }
            if self.peek().is_some() {
                return Step::Finished(Err(self.fail(Reason::TrailingCharacters)));
            }
            return Step::Finished(Ok(value));
        }
        let frame = match stack.pop() {
            Some(f) => f,
            None => {
                return Step::Finished(Err(self.fail(Reason::UnexpectedEnd)));
            },
        };
        let ghost st = frames_model(stack@);
        proof {
            assert(st =~= fm.drop_last());
            assert(frame.model() == fm.last());
            assert(fm =~= st.push(frame.model()));
        }
        match frame {
            Frame::Array(mut values) => {
                let ghost acc = tree_items(values@);
                proof {
                    lemma_resume_array(s, st, acc, vm, p);
                }
                values.push(value);
                assert(tree_items(values@) =~= acc.push(vm));
                if self.take(44) {
                    stack.push(Frame::Array(values));
                    assert(frames_model(stack@) =~= st.push(FrameModel::Array(acc.push(vm))));
                    return Step::Resumed;
                }
                if !self.take(93) {
                    return Step::Finished(Err(self.fail(Reason::ExpectedCommaOrBracket)));
                }
                Step::Closed(JsonTree::Array(values))
            },
            Frame::Object(mut fields, key) => {
                let ghost fs = tree_entries(fields@);
                let ghost k = key@;
                proof {
                    lemma_resume_object(s, st, fs, k, vm, p);
                }
                insert_field(&mut fields, key, value);
                let ghost fs2 = insert_member(fs, k, vm);
                if self.take(44) {
                    match self.property() {
                        Ok(next) => {
                            let ghost nk = next@;
                            stack.push(Frame::Object(fields, next));
                            assert(frames_model(stack@) =~= st.push(FrameModel::Object(fs2, nk)));
                            return Step::Resumed;
                        },
                        Err(e) => {
                            return Step::Finished(Err(e));
                        },
                    }
                }
                if !self.take(125) {
                    return Step::Finished(Err(self.fail(Reason::ExpectedCommaOrBrace)));
                }
                Step::Closed(JsonTree::Object(fields))
            },
        }
    }

    /// Gives `value`, which ends at the current position, to the arrays and
    /// objects that are open around it, closing those that end here.
    fn complete(&mut self, stack: &mut Vec<Frame>, first: JsonTree) -> (r: Completion)
        requires
            old(self).position <= old(self).units@.len(),
        ensures
            final(self).units == old(self).units,
            final(self).position <= final(self).units@.len(),
            r matches Completion::Finished(res) ==> outcome_matches(
                res,
                resume(
                    old(self).units@,
                    frames_model(old(stack)@),
                    Ok((first.model(), old(self).position as int)),
                ),
            ),
            r is Resumed ==> resume(
                old(self).units@,
                frames_model(final(stack)@),
                crate::grammar::value(old(self).units@, final(self).position as int),
            ) == resume(
                old(self).units@,
                frames_model(old(stack)@),
                Ok((first.model(), old(self).position as int)),
            ),
            r is Resumed ==> final(self).position > old(self).position,
    {
        let ghost s = self.units@;
        let ghost target = resume(
            s,
            frames_model(stack@),
            Ok((first.model(), self.position as int)),
        );
        let ghost old_value_model = first.model();
        assert(stack@ == old(stack)@);
        assert(self.position == old(self).position);
        let mut value = first;
        loop
            invariant
                self.units == old(self).units,
                self.units@ == s,
                s == old(self).units@,
                old_value_model == first.model(),
                old(self).position <= self.position <= s.len(),
                target == resume(
                    s,
                    frames_model(old(stack)@),
                    Ok((old_value_model, old(self).position as int)),
                ),
                resume(s, frames_model(stack@), Ok((value.model(), self.position as int)))
                    == target,
            decreases stack@.len(),
        {
            let ghost before = resume(s, frames_model(stack@), Ok((value.model(), self.position as int)));
            assert(before == target);
            match self.step(stack, value) {
                Step::Finished(res) => {
                    assert(outcome_matches(res, before));
                    assert(before == resume(s, frames_model(old(stack)@), Ok((old_value_model, old(self).position as int))));
                    assert(s == old(self).units@);
                    assert(outcome_matches(res, resume(old(self).units@, frames_model(old(stack)@), Ok((old_value_model, old(self).position as int)))));
                    return Completion::Finished(res);
                },
                Step::Resumed => {
                    assert(resume(s, frames_model(stack@), crate::grammar::value(s, self.position as int)) == before);
                    return Completion::Resumed;
                },
                Step::Closed(v) => {
                    value = v;
                },
            }
        }
    }

    /// A string, a number or a literal that starts at the current position.
    fn scalar(&mut self) -> (r: Result<JsonTree, JsonError>)
        requires
            old(self).position < old(self).units@.len(),
            ({
                let c = old(self).units@[old(self).position as int];
                c == 34 || c == 45 || (48 <= c <= 57) || c == 110 || c == 116 || c == 102
            }),
        ensures
            final(self).units == old(self).units,
            final(self).position <= final(self).units@.len(),
            match value_at(old(self).units@, old(self).position as int) {
                Ok((t, p)) => r matches Ok(v) && v.model() == t && final(self).position == p,
                Err(f) => r matches Err(e) && e@ == syntax_error(f),
            },
    {
        let ghost s = self.units@;
        let q = self.position;
        let c = self.units[q];
        if c == 34 {
            match self.string() {
                Ok(t) => Ok(JsonTree::Str(t)),
                Err(e) => Err(e),
            }
        } else if c == 45 || (48 <= c && c <= 57) {
            match self.number() {
                Ok(t) => Ok(JsonTree::Number(t)),
                Err(e) => Err(e),
            }
        } else {
            let (lit, v) = if c == 110 {
                (ascii_units("null"), JsonTree::Null)
            } else if c == 116 {
                (ascii_units("true"), JsonTree::Bool(true))
            } else {
                (ascii_units("false"), JsonTree::Bool(false))
            };
            let ghost vm = v.model();
            assert(value_at(s, q as int) == literal_at(s, q as int));
            assert(literal_at(s, q as int) == (if matched_units(s, q as int, lit@, 0) == lit@.len() {
                Ok::<(Tree, int), Failure>((vm, q + lit@.len()))
            } else {
                fails::<Tree>(Reason::UnexpectedToken, q + matched_units(s, q as int, lit@, 0))
            }));
            let mut k: usize = 0;
            while k < lit.len()
                invariant
                    self.units@ == s,
                    self.units == old(self).units,
                    s == old(self).units@,
                    q == old(self).position,
                    q < s.len(),
                    k <= lit@.len(),
                    self.position == q + k,
                    self.position <= s.len(),
                    value_at(s, q as int) == literal_at(s, q as int),
                    literal_at(s, q as int) == (if matched_units(s, q as int, lit@, 0) == lit@.len() {
                        Ok::<(Tree, int), Failure>((vm, q + lit@.len()))
                    } else {
                        fails::<Tree>(Reason::UnexpectedToken, q + matched_units(s, q as int, lit@, 0))
                    }),
                    matched_units(s, q as int, lit@, 0) == matched_units(s, q as int, lit@, k as int),
                decreases lit@.len() - k,
            {
                if !self.take(lit[k]) {
                    assert(matched_units(s, q as int, lit@, k as int) == k);
                    return Err(self.fail(Reason::UnexpectedToken));
                }
                k += 1;
            }
            proof {
                crate::grammar::lemma_matched_units(s, q as int, lit@, lit@.len() as int);
            }
            Ok(v)
        }
    }

    /// Reads an array that opens at the current position: a whole empty
    /// array, or the opening, which goes on the stack.
    fn open_array(&mut self, stack: &mut Vec<Frame>) -> (r: Start)
        requires
            old(self).position < old(self).units@.len(),
            old(self).units@[old(self).position as int] == 91,
        ensures
            final(self).units == old(self).units,
            final(self).position <= final(self).units@.len(),
            r matches Start::Value(v) ==> {
                &&& Ok::<(Tree, int), Failure>((v.model(), final(self).position as int)) == value_at(
                    old(self).units@,
                    old(self).position as int,
                )
                &&& final(stack)@ == old(stack)@
            },
            r is Opened ==> resume(
                old(self).units@,
                frames_model(final(stack)@),
                crate::grammar::value(old(self).units@, final(self).position as int),
            ) == resume(
                old(self).units@,
                frames_model(old(stack)@),
                value_at(old(self).units@, old(self).position as int),
            ),
            final(self).position > old(self).position,
            !(r is Failed),
    {
        let ghost s = self.units@;
        let ghost fm = frames_model(stack@);
        let q = self.position;
        let n = self.units.len();
        assert(q < n);
        self.position += 1;
        proof {
            lemma_skip_ws(s, q + 1);
        }
        self.whitespace();
        if self.take(93) {
            let v = JsonTree::Array(Vec::new());
            assert(v.model() == Tree::Array(Seq::empty())) by {
                assert(tree_items(Seq::<JsonTree>::empty()) =~= Seq::<Tree>::empty());
            }
            return Start::Value(v);
        }
        proof {
            lemma_resume_items(s, fm, self.position as int, Seq::empty());
        }
        stack.push(Frame::Array(Vec::new()));
        proof {
            assert(tree_items(Seq::<JsonTree>::empty()) =~= Seq::<Tree>::empty());
            assert(frames_model(stack@) =~= fm.push(FrameModel::Array(Seq::empty())));
        }
        Start::Opened
    }

    /// Reads an object that opens at the current position: a whole empty
    /// object, or the opening and the first key, which go on the stack.
    fn open_object(&mut self, stack: &mut Vec<Frame>) -> (r: Start)
        requires
            old(self).position < old(self).units@.len(),
            old(self).units@[old(self).position as int] == 123,
        ensures
            final(self).units == old(self).units,
            final(self).position <= final(self).units@.len(),
            r matches Start::Value(v) ==> {
                &&& Ok::<(Tree, int), Failure>((v.model(), final(self).position as int)) == value_at(
                    old(self).units@,
                    old(self).position as int,
                )
                &&& final(stack)@ == old(stack)@
            },
            r is Opened ==> resume(
                old(self).units@,
                frames_model(final(stack)@),
                crate::grammar::value(old(self).units@, final(self).position as int),
            ) == resume(
                old(self).units@,
                frames_model(old(stack)@),
                value_at(old(self).units@, old(self).position as int),
            ),
            r is Opened || r is Value ==> final(self).position > old(self).position,
            r matches Start::Failed(e) ==> value_at(
                old(self).units@,
                old(self).position as int,
            ) matches Err(f) && e@ == syntax_error(f),
    {
        let ghost s = self.units@;
        let ghost fm = frames_model(stack@);
        let q = self.position;
        let n = self.units.len();
        assert(q < n);
        self.position += 1;
        proof {
            lemma_skip_ws(s, q + 1);
        }
        self.whitespace();
        if self.take(125) {
            let v = JsonTree::Object(Vec::new());
            assert(v.model() == Tree::Object(Seq::empty())) by {
                assert(tree_entries(Seq::<(Vec<u16>, JsonTree)>::empty()) =~= Seq::<
                    (Seq<u16>, Tree),
                >::empty());
            }
            return Start::Value(v);
        }
        proof {
            crate::grammar::lemma_property_at(s, self.position as int);
        }
        let key = match self.property() {
            Ok(k) => k,
            Err(e) => {
                return Start::Failed(e);
            },
        };
        proof {
            lemma_resume_members(s, fm, self.position as int, Seq::empty(), key@);
        }
        let ghost km = key@;
        stack.push(Frame::Object(Vec::new(), key));
        proof {
            assert(tree_entries(Seq::<(Vec<u16>, JsonTree)>::empty()) =~= Seq::<
                (Seq<u16>, Tree),
            >::empty());
            assert(frames_model(stack@) =~= fm.push(FrameModel::Object(Seq::empty(), km)));
        }
        Start::Opened
    }

    /// Reads what starts the value at the current position: a whole
    /// scalar or empty container, or the opening of an array or an object,
    /// which goes on the stack.
    #[verifier::spinoff_prover]
    fn start(&mut self, stack: &mut Vec<Frame>) -> (r: Start)
        requires
            old(self).position <= old(self).units@.len(),
        ensures
            final(self).units == old(self).units,
            final(self).position <= final(self).units@.len(),
            r matches Start::Value(v) ==> {
                &&& resume(
                    old(self).units@,
                    frames_model(final(stack)@),
                    Ok((v.model(), final(self).position as int)),
                ) == resume(
                    old(self).units@,
                    frames_model(old(stack)@),
                    crate::grammar::value(old(self).units@, old(self).position as int),
                )
                &&& final(self).position > old(self).position
            },
            r is Opened ==> {
                &&& resume(
                    old(self).units@,
                    frames_model(final(stack)@),
                    crate::grammar::value(old(self).units@, final(self).position as int),
                ) == resume(
                    old(self).units@,
                    frames_model(old(stack)@),
                    crate::grammar::value(old(self).units@, old(self).position as int),
                )
                &&& final(self).position > old(self).position
            },
            r matches Start::Failed(e) ==> crate::grammar::value(
                old(self).units@,
                old(self).position as int,
            ) matches Err(f) && e@ == syntax_error(f),
    {
        let ghost s = self.units@;
        let ghost fm = frames_model(stack@);
        let ghost p0 = self.position as int;
        proof {
            lemma_skip_ws(s, p0);
        }
        self.whitespace();
        let q = self.position;
        assert(crate::grammar::value(s, p0) == value_at(s, q as int));
        let c = match self.peek() {
            Some(c) => c,
            None => {
                return Start::Failed(self.fail(Reason::UnexpectedEnd));
            },
        };
        if c == 91 {
            self.open_array(stack)
        } else if c == 123 {
            self.open_object(stack)
        } else if c == 34 || c == 45 || (48 <= c && c <= 57) || c == 110 || c == 116 || c == 102 {
            proof {
                crate::grammar::lemma_value_at_progress(s, q as int);
            }
            match self.scalar() {
                Ok(v) => Start::Value(v),
                Err(e) => Start::Failed(e),
            }
        } else {
            Start::Failed(self.fail(Reason::UnexpectedToken))
        }
    }

    /// Whether the decoder stands at the start of its text.
    pub closed spec fn at_start(&self) -> bool {
        self.position == 0
    }

    /// Decodes the whole text: one value with only whitespace after it.
    pub fn parse(self) -> (r: Result<JsonTree, JsonError>)
        requires
            self.at_start(),
        ensures
            outcome_matches(r, parse_text(self.text())),
    {
        let mut parser = self;
        let ghost s = parser.units@;
        let mut stack: Vec<Frame> = Vec::new();
        assert(frames_model(stack@) =~= Seq::<FrameModel>::empty());
        assert(resume(s, frames_model(stack@), crate::grammar::value(s, 0)) == parse_text(s));
        loop
            invariant
                parser.units@ == s,
                s == self.units@,
                parser.position <= s.len(),
                resume(s, frames_model(stack@), crate::grammar::value(s, parser.position as int))
                    == parse_text(s),
            decreases s.len() - parser.position,
        {
            match parser.start(&mut stack) {
                Start::Failed(e) => {
                    return Err(e);
                },
                Start::Opened => {},
                Start::Value(v) => {
                    match parser.complete(&mut stack, v) {
                        Completion::Finished(r) => {
                            return r;
                        },
                        Completion::Resumed => {},
                    }
                },
            }
        }
    }
}

} // verus!
