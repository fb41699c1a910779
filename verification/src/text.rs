//! JavaScript strings as sequences of UTF-16 code units, and the small
//! pieces of text (decimal numerals, `\uXXXX` escapes, ASCII literals)
//! that the encoder and the decoder build them from.
use vstd::prelude::*;

verus! {

/// The code units of an ASCII text, one unit per character.
pub open spec fn units_of(s: Seq<char>) -> Seq<u16> {
    s.map_values(|c: char| c as u16)
}

/// The ASCII code unit of the decimal digit `d`.
pub open spec fn digit_unit(d: nat) -> u16 {
    (48 + d) as u16
}

/// The decimal numeral of a natural number, most significant digit first,
/// without leading zeros.
pub open spec fn nat_decimal(n: nat) -> Seq<u16>
    decreases n,
{
    if n < 10 {
        seq![digit_unit(n)]
    } else {
        nat_decimal(n / 10).push(digit_unit(n % 10))
    }
}

/// The decimal numeral of an integer, with a leading `-` when it is negative.
pub open spec fn int_decimal(i: int) -> Seq<u16> {
    if i < 0 {
        seq![45u16] + nat_decimal((-i) as nat)
    } else {
        nat_decimal(i as nat)
    }
}

/// A decimal numeral is made of digits, at least one, and has no leading
/// zero unless it is `0`.
pub proof fn lemma_nat_decimal_digits(n: nat)
    ensures
        forall|k: int| 0 <= k < nat_decimal(n).len() ==> 48 <= #[trigger] nat_decimal(n)[k] <= 57,
        nat_decimal(n).len() > 0,
        n > 0 ==> nat_decimal(n)[0] != 48,
        n < 10 <==> nat_decimal(n).len() == 1,
    decreases n,
{
    if n >= 10 {
        lemma_nat_decimal_digits(n / 10);
        let t = nat_decimal(n);
        assert forall|k: int| 0 <= k < t.len() implies 48 <= #[trigger] t[k] <= 57 by {
            if k < t.len() - 1 {
                assert(t[k] == nat_decimal(n / 10)[k]);
            }
        }
        assert(t[0] == nat_decimal(n / 10)[0]);
    }
}

/// The lower-case hexadecimal digit of `d < 16`.
pub open spec fn hex_digit(d: int) -> u16 {
    if d < 10 {
        (48 + d) as u16
    } else {
        (87 + d) as u16
    }
}

/// `\u` followed by the four lower-case hexadecimal digits of `u`.
pub open spec fn unicode_escape(u: u16) -> Seq<u16> {
    seq![
        92u16,
        117u16,
        hex_digit((u / 4096) as int),
        hex_digit(((u / 256) % 16) as int),
        hex_digit(((u / 16) % 16) as int),
        hex_digit((u % 16) as int),
    ]
}

/// The UTF-16 encoding of a character: one unit in the basic plane, a
/// surrogate pair above it.
pub open spec fn char_units(c: char) -> Seq<u16> {
    let v = c as int;
    if v < 0x10000 {
        seq![v as u16]
    } else {
        seq![(0xd800 + (v - 0x10000) / 0x400) as u16, (0xdc00 + (v - 0x10000) % 0x400) as u16]
    }
}

/// The code units of an ASCII literal.
pub fn ascii_units(s: &str) -> (r: Vec<u16>)
    ensures
        r@ == units_of(s@),
{
    let n = s.unicode_len();
    let mut r: Vec<u16> = Vec::new();
    let mut i: usize = 0;
    while i < n
        invariant
            n == s@.len(),
            i <= n,
            r@ == units_of(s@.take(i as int)),
        decreases n - i,
    {
        let c = s.get_char(i);
        r.push(c as u16);
        assert(s@.take(i as int + 1) == s@.take(i as int).push(c));
        i += 1;
    }
    assert(s@.take(n as int) == s@);
    r
}

/// Appends `s` to `out`.
pub fn push_units(out: &mut Vec<u16>, s: &[u16])
    ensures
        final(out)@ == old(out)@ + s@,
{
    let mut i: usize = 0;
    while i < s.len()
        invariant
            i <= s@.len(),
            out@ == old(out)@ + s@.take(i as int),
        decreases s@.len() - i,
    {
        out.push(s[i]);
        assert(s@.take(i as int + 1) == s@.take(i as int).push(s@[i as int]));
        i += 1;
    }
    assert(s@.take(s@.len() as int) == s@);
}

/// Whether two unit sequences are equal.
pub fn units_equal(a: &[u16], b: &[u16]) -> (r: bool)
    ensures
        r == (a@ == b@),
{
    if a.len() != b.len() {
        return false;
    }
    let mut i: usize = 0;
    while i < a.len()
        invariant
            a@.len() == b@.len(),
            i <= a@.len(),
            forall|j: int| 0 <= j < i ==> a@[j] == b@[j],
        decreases a@.len() - i,
    {
        if a[i] != b[i] {
            return false;
        }
        i += 1;
    }
    assert(a@ =~= b@);
    true
}

/// A copy of `s`.
pub fn copy_units(s: &[u16]) -> (r: Vec<u16>)
    ensures
        r@ == s@,
{
    let mut r: Vec<u16> = Vec::new();
    push_units(&mut r, s);
    r
}

/// The decimal numeral of `n`.
pub fn u64_decimal(n: u64) -> (r: Vec<u16>)
    ensures
        r@ == nat_decimal(n as nat),
    decreases n,
{
    if n < 10 {
        vec![48u16 + n as u16]
    } else {
        let mut r = u64_decimal(n / 10);
        r.push(48u16 + (n % 10) as u16);
        r
    }
}

/// The decimal numeral of an index or a length.
pub fn usize_decimal(n: usize) -> (r: Vec<u16>)
    ensures
        r@ == nat_decimal(n as nat),
{
    u64_decimal(n as u64)
}

/// The decimal numeral of `n`, with a `-` when it is negative.
pub fn i64_decimal(n: i64) -> (r: Vec<u16>)
    ensures
        r@ == int_decimal(n as int),
{
    if n < 0 {
        let magnitude: u64 = ((-(n + 1)) as u64) + 1;
        let digits = u64_decimal(magnitude);
        let mut r = vec![45u16];
        push_units(&mut r, digits.as_slice());
        r
    } else {
        u64_decimal(n as u64)
    }
}

/// The lower-case hexadecimal digit of `d < 16`.
fn hex_digit_unit(d: u16) -> (r: u16)
    requires
        d < 16,
    ensures
        r == hex_digit(d as int),
{
    if d < 10 {
        48 + d
    } else {
        87 + d
    }
}

/// Appends `\u` and the four lower-case hexadecimal digits of `u`.
pub fn push_unicode_escape(out: &mut Vec<u16>, u: u16)
    ensures
        final(out)@ == old(out)@ + unicode_escape(u),
{
    out.push(92);
    out.push(117);
    out.push(hex_digit_unit(u / 4096));
    out.push(hex_digit_unit((u / 256) % 16));
    out.push(hex_digit_unit((u / 16) % 16));
    out.push(hex_digit_unit(u % 16));
    assert(final(out)@ =~= old(out)@ + unicode_escape(u));
}

/// The UTF-16 encoding of `c`.
pub fn char_to_units(c: char) -> (r: Vec<u16>)
    ensures
        r@ == char_units(c),
{
    let v = c as u32;
    if v < 0x10000 {
        vec![v as u16]
    } else {
        let high = (0xd800 + (v - 0x10000) / 0x400) as u16;
        let low = (0xdc00 + (v - 0x10000) % 0x400) as u16;
        vec![high, low]
    }
}

} // verus!
