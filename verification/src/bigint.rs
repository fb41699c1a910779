//! Arbitrary-precision integers, as JSON revives them: read from digits in
//! base 2, 8, 10 or 16 and written back in decimal.
use vstd::prelude::*;
use crate::text::{digit_unit, int_decimal, nat_decimal};

verus! {

/// `10` to the power `n`.
pub open spec fn pow10(n: nat) -> nat
    decreases n,
{
    if n == 0 {
        1
    } else {
        10 * pow10((n - 1) as nat)
    }
}

/// The value of little-endian decimal digits: `s[0]` is the units digit.
pub open spec fn digits_value(s: Seq<u8>) -> nat
    decreases s.len(),
{
    if s.len() == 0 {
        0
    } else {
        digits_value(s.drop_last()) + s.last() as nat * pow10((s.len() - 1) as nat)
    }
}

/// Little-endian decimal digits with no most significant zero.
pub open spec fn canonical_digits(s: Seq<u8>) -> bool {
    &&& forall|i: int| 0 <= i < s.len() ==> #[trigger] s[i] < 10
    &&& s.len() > 0 ==> s.last() != 0
}

/// The value of the digit unit `u` (`0`-`9`, `a`-`f`, `A`-`F`).
pub open spec fn digit_value(u: u16) -> nat {
    if 48 <= u <= 57 {
        (u - 48) as nat
    } else if 97 <= u <= 102 {
        (u - 87) as nat
    } else if 65 <= u <= 70 {
        (u - 55) as nat
    } else {
        0
    }
}

/// Whether `u` is a digit of base `radix` (2, 8, 10 or 16).
pub open spec fn is_radix_digit(u: u16, radix: nat) -> bool {
    if radix == 16 {
        (48 <= u <= 57) || (97 <= u <= 102) || (65 <= u <= 70)
    } else {
        48 <= u < 48 + radix
    }
}

/// The value of the numeral `s` in base `radix`, most significant digit first.
pub open spec fn radix_value(s: Seq<u16>, radix: nat) -> nat
    decreases s.len(),
{
    if s.len() == 0 {
        0
    } else {
        radix_value(s.drop_last(), radix) * radix + digit_value(s.last())
    }
}

/// The decimal text of little-endian digits, most significant digit first.
pub open spec fn digits_text(s: Seq<u8>) -> Seq<u16> {
    Seq::new(s.len(), |i: int| digit_unit(s[s.len() - 1 - i] as nat))
}

/// A decimal numeral reads back as its number.
pub proof fn lemma_radix_value_decimal(n: nat)
    ensures
        radix_value(nat_decimal(n), 10) == n,
    decreases n,
{
    let t = nat_decimal(n);
    if n >= 10 {
        lemma_radix_value_decimal(n / 10);
        assert(t.drop_last() == nat_decimal(n / 10));
        assert(t.last() == digit_unit(n % 10));
        assert(digit_unit(n % 10) == 48 + n % 10);
        assert(digit_value(t.last()) == n % 10);
        assert(radix_value(t, 10) == radix_value(t.drop_last(), 10) * 10 + digit_value(t.last()));
        assert((n / 10) * 10 + n % 10 == n);
    } else {
        assert(t == seq![digit_unit(n)]);
        assert(digit_unit(n) == 48 + n);
        assert(t.drop_last() =~= Seq::<u16>::empty());
        assert(radix_value(t, 10) == radix_value(t.drop_last(), 10) * 10 + digit_value(t.last()));
    }
}

/// An integer of any size.
#[derive(Debug, PartialEq, Eq)]
pub struct JsBigInt {
    negative: bool,
    digits: Vec<u8>,
}

impl View for JsBigInt {
    type V = int;

    closed spec fn view(&self) -> int {
        if self.negative {
            -(digits_value(self.digits@) as int)
        } else {
            digits_value(self.digits@) as int
        }
    }
}

proof fn lemma_pow10_positive(n: nat)
    ensures
        pow10(n) >= 1,
    decreases n,
{
    if n > 0 {
        lemma_pow10_positive((n - 1) as nat);
    }
}

proof fn lemma_digits_value_push(s: Seq<u8>, d: u8)
    ensures
        digits_value(s.push(d)) == digits_value(s) + d as nat * pow10(s.len()),
{
    assert(s.push(d).drop_last() == s);
}

proof fn lemma_digits_value_drop_first(s: Seq<u8>)
    requires
        s.len() > 0,
    ensures
        digits_value(s) == s[0] as nat + 10 * digits_value(s.drop_first()),
    decreases s.len(),
{
    if s.len() == 1 {
        assert(s.drop_last().len() == 0);
        assert(s.drop_first().len() == 0);
        assert(pow10(0) == 1);
        assert(s.last() == s[0]);
        assert(s.last() as nat * pow10(0) == s.last() as nat) by (nonlinear_arith)
            requires
                pow10(0) == 1,
        ;
        assert(digits_value(s.drop_first()) == 0);
        assert(digits_value(s.drop_last()) == 0);
    } else {
        let t = s.drop_last();
        let u = s.drop_first();
        assert(u.len() == s.len() - 1);
        assert(digits_value(u) == digits_value(u.drop_last()) + u.last() as nat * pow10((u.len() - 1) as nat));
        lemma_digits_value_drop_first(t);
        assert(t.drop_first() == s.drop_first().drop_last());
        assert(t[0] == s[0]);
        assert(s.drop_first().last() == s.last());
        let p = pow10((s.len() - 2) as nat);
        assert(pow10((s.len() - 1) as nat) == 10 * p);
        assert(s.last() as nat * (10 * p) == 10 * (s.last() as nat * p)) by (nonlinear_arith);
    }
}

proof fn lemma_digits_value_positive(s: Seq<u8>)
    requires
        canonical_digits(s),
        s.len() > 0,
    ensures
        digits_value(s) >= 1,
{
    lemma_pow10_positive((s.len() - 1) as nat);
    let p = pow10((s.len() - 1) as nat);
    assert(s.last() as nat * p >= 1) by (nonlinear_arith)
        requires
            s.last() >= 1,
            p >= 1,
    ;
}

proof fn lemma_digits_text(s: Seq<u8>)
    requires
        canonical_digits(s),
        s.len() > 0,
    ensures
        digits_text(s) == nat_decimal(digits_value(s)),
    decreases s.len(),
{
    lemma_digits_value_drop_first(s);
    let n = digits_value(s);
    if s.len() == 1 {
        assert(digits_value(s.drop_first()) == 0);
        assert(digits_text(s) =~= seq![digit_unit(s[0] as nat)]);
    } else {
        let t = s.drop_first();
        assert(t.last() == s.last());
        assert(canonical_digits(t));
        lemma_digits_text(t);
        lemma_digits_value_positive(t);
        assert(n / 10 == digits_value(t) && n % 10 == s[0] as nat);
        assert(digits_text(s) =~= digits_text(t).push(digit_unit(s[0] as nat)));
    }
}

proof fn lemma_trim_zero(s: Seq<u8>)
    requires
        s.len() > 0,
        s.last() == 0,
    ensures
        digits_value(s) == digits_value(s.drop_last()),
{
}

impl JsBigInt {
    #[verifier::type_invariant]
    spec fn well_formed(self) -> bool {
        &&& canonical_digits(self.digits@)
        &&& self.negative ==> self.digits@.len() > 0
    }

    /// Zero.
    pub fn zero() -> (r: JsBigInt)
        ensures
            r@ == 0,
    {
        JsBigInt { negative: false, digits: Vec::new() }
    }

    /// `0` for `false`, `1` for `true`.
    pub fn from_bool(b: bool) -> (r: JsBigInt)
        ensures
            r@ == (if b { 1int } else { 0int }),
    {
        if b {
            let r = JsBigInt { negative: false, digits: vec![1u8] };
            proof {
                assert(r.digits@.drop_last().len() == 0);
                assert(pow10(0) == 1);
                assert(r.digits@ == seq![1u8]);
                assert(r.digits@.last() as nat * pow10(0) == 1) by (nonlinear_arith)
                    requires
                        pow10(0) == 1,
                        r.digits@.last() == 1,
                ;
                assert(digits_value(r.digits@.drop_last()) == 0);
                assert(digits_value(r.digits@) == digits_value(r.digits@.drop_last())
                    + r.digits@.last() as nat * pow10((r.digits@.len() - 1) as nat));
                assert(digits_value(r.digits@) == 1);
            }
            r
        } else {
            JsBigInt::zero()
        }
    }

    /// Drops most significant zeros.
    fn trim(digits: &mut Vec<u8>)
        requires
            forall|i: int| 0 <= i < old(digits)@.len() ==> #[trigger] old(digits)@[i] < 10,
        ensures
            canonical_digits(final(digits)@),
            digits_value(final(digits)@) == digits_value(old(digits)@),
    {
        while digits.len() > 0 && digits[digits.len() - 1] == 0
            invariant
                forall|i: int| 0 <= i < digits@.len() ==> #[trigger] digits@[i] < 10,
                digits_value(digits@) == digits_value(old(digits)@),
            decreases digits@.len(),
        {
            proof {
                lemma_trim_zero(digits@);
            }
            digits.pop();
        }
    }

    /// `digits * radix + d`, for canonical `digits`.
    fn mul_add(digits: &Vec<u8>, radix: u32, d: u32) -> (r: Vec<u8>)
        requires
            canonical_digits(digits@),
            2 <= radix <= 16,
            d < 16,
        ensures
            canonical_digits(r@),
            digits_value(r@) == digits_value(digits@) * radix + d,
    {
        let mut out: Vec<u8> = Vec::new();
        let mut carry: u32 = d;
        let mut i: usize = 0;
        assert(pow10(0) == 1);
        assert(digits@.take(0).len() == 0);
        assert(digits_value(out@) == 0);
        assert(digits_value(digits@.take(0)) == 0);
        assert(carry * pow10(0) == carry) by (nonlinear_arith)
            requires
                pow10(0) == 1,
        ;
        while i < digits.len()
            invariant
                canonical_digits(digits@),
                2 <= radix <= 16,
                d < 16,
                i <= digits@.len(),
                out@.len() == i,
                carry <= 16,
                forall|j: int| 0 <= j < out@.len() ==> #[trigger] out@[j] < 10,
                digits_value(out@) + carry * pow10(i as nat) == digits_value(digits@.take(i as int))
                    * radix + d,
            decreases digits@.len() - i,
        {
            assert(digits@[i as int] < 10);
            assert(digits@[i as int] as u32 * radix <= 144) by (nonlinear_arith)
                requires
                    digits@[i as int] < 10,
                    radix <= 16,
            ;
            let t: u32 = digits[i] as u32 * radix + carry;
            assert(t / 10 <= 16);
            let ghost p = pow10(i as nat);
            let ghost old_out = out@;
            let ghost old_carry = carry;
            out.push((t % 10) as u8);
            carry = t / 10;
            proof {
                lemma_digits_value_push(old_out, (t % 10) as u8);
                let pre = digits@.take(i as int);
                assert(digits@.take(i as int + 1) == pre.push(digits@[i as int]));
                lemma_digits_value_push(pre, digits@[i as int]);
                let dv = digits_value(pre);
                let di = digits@[i as int] as int;
                assert((t % 10) as int * p + (t / 10) as int * (10 * p) == t as int * p)
                    by (nonlinear_arith);
                assert((dv + di * p) * radix + d == dv * radix + d + (di * radix) * p)
                    by (nonlinear_arith);
                assert(t as int * p == (di * radix) * p + old_carry * p) by (nonlinear_arith)
                    requires
                        t as int == di * radix + old_carry,
                ;
            }
            i += 1;
        }
        assert(digits@.take(digits@.len() as int) == digits@);
        while carry > 0
            invariant
                forall|j: int| 0 <= j < out@.len() ==> #[trigger] out@[j] < 10,
                digits_value(out@) + carry * pow10(out@.len() as nat) == digits_value(digits@)
                    * radix + d,
            decreases carry,
        {
            let ghost p = pow10(out@.len() as nat);
            let ghost old_out = out@;
            let ghost old_carry = carry;
            out.push((carry % 10) as u8);
            carry = carry / 10;
            proof {
                lemma_digits_value_push(old_out, (old_carry % 10) as u8);
                assert((old_carry % 10) as int * p + (old_carry / 10) as int * (10 * p)
                    == old_carry as int * p) by (nonlinear_arith);
            }
        }
        JsBigInt::trim(&mut out);
        out
    }

    /// The integer that the numeral `digits` spells in base `radix`,
    /// negated when `negative`.
    pub fn from_radix_units(negative: bool, digits: &[u16], radix: u32) -> (r: JsBigInt)
        requires
            radix == 2 || radix == 8 || radix == 10 || radix == 16,
            forall|i: int| 0 <= i < digits@.len() ==> is_radix_digit(#[trigger] digits@[i], radix as nat),
        ensures
            r@ == (if negative {
                -(radix_value(digits@, radix as nat) as int)
            } else {
                radix_value(digits@, radix as nat) as int
            }),
    {
        let mut magnitude: Vec<u8> = Vec::new();
        let mut i: usize = 0;
        while i < digits.len()
            invariant
                radix == 2 || radix == 8 || radix == 10 || radix == 16,
                forall|j: int| 0 <= j < digits@.len() ==> is_radix_digit(#[trigger] digits@[j], radix as nat),
                i <= digits@.len(),
                canonical_digits(magnitude@),
                digits_value(magnitude@) == radix_value(digits@.take(i as int), radix as nat),
            decreases digits@.len() - i,
        {
            let u = digits[i];
            let d: u32 = if 48 <= u && u <= 57 {
                (u - 48) as u32
            } else if 97 <= u && u <= 102 {
                (u - 87) as u32
            } else {
                (u - 55) as u32
            };
            assert(is_radix_digit(digits@[i as int], radix as nat));
            assert(d as nat == digit_value(u));
            magnitude = JsBigInt::mul_add(&magnitude, radix, d);
            assert(digits@.take(i as int + 1).drop_last() == digits@.take(i as int));
            i += 1;
        }
        assert(digits@.take(digits@.len() as int) == digits@);
        let neg = negative && magnitude.len() > 0;
        proof {
            if magnitude@.len() == 0 {
                assert(digits_value(magnitude@) == 0);
            }
        }
        JsBigInt { negative: neg, digits: magnitude }
    }

    /// The decimal text of the integer, with `-` when it is negative.
    pub fn to_decimal(&self) -> (r: Vec<u16>)
        ensures
            r@ == int_decimal(self@),
    {
        proof {
            use_type_invariant(self);
        }
        let n = self.digits.len();
        if n == 0 {
            return vec![48u16];
        }
        let mut r: Vec<u16> = Vec::new();
        if self.negative {
            r.push(45);
        }
        let ghost start = r@;
        let mut i: usize = n;
        while i > 0
            invariant
                n == self.digits@.len(),
                i <= n,
                canonical_digits(self.digits@),
                r@ == start + digits_text(self.digits@).take((n - i) as int),
            decreases i,
        {
            i -= 1;
            let d = self.digits[i];
            r.push(48u16 + d as u16);
            assert(digits_text(self.digits@).take((n - i) as int) =~= digits_text(
                self.digits@,
            ).take((n - i - 1) as int).push(digit_unit(d as nat)));
        }
        proof {
            assert(digits_text(self.digits@).take(n as int) == digits_text(self.digits@));
            lemma_digits_text(self.digits@);
            lemma_digits_value_positive(self.digits@);
        }
        r
    }
}

} // verus!
