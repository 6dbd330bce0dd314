//! Exact decimal numbers in normalized scientific notation.
//!
//! Numeric literals with a fraction or an exponent, and the magnitudes of
//! quantities, are kept as the decimal numbers that were written, so that no
//! digit is lost or invented between the source text and the syntax tree.

use crate::literal::{digit_of, digit_values, read_signed, digits_value};
use crate::reading::lemma_decimal_reads_back;
use crate::render::{digit_chars, push_digits, push_integer, push_zeros, render_integer, zeros};
use crate::text::{
    chars_of, decimal_digit, digit, has_char, has_point, is_decimal_digit, is_digit,
    lemma_digits_end, mantissa_end, number_end, scan_digits, scan_number, sign_end, skip_sign,
    whole_end,
};
use vstd::prelude::*;
use vstd::std_specs::cmp::PartialEqSpecImpl;

verus! {

/// The decimal digits of `n`, most significant first; the single digit `0`
/// for zero.
pub open spec fn digits_of(n: nat) -> Seq<u8>
    decreases n,
{
    if n < 10 {
        seq![n as u8]
    } else {
        digits_of(n / 10).push((n % 10) as u8)
    }
}

/// `ds` without the zeros at its end.
pub open spec fn trim_end(ds: Seq<u8>) -> Seq<u8>
    decreases ds.len(),
{
    if ds.len() > 0 && ds.last() == 0 {
        trim_end(ds.drop_last())
    } else {
        ds
    }
}

/// The number of zeros at the front of `ds`.
pub open spec fn leading_zeros(ds: Seq<u8>) -> nat
    decreases ds.len(),
{
    if ds.len() > 0 && ds[0] == 0 {
        1 + leading_zeros(ds.drop_first())
    } else {
        0
    }
}

/// Whether every element of `ds` is a decimal digit.
pub open spec fn all_digits(ds: Seq<u8>) -> bool {
    forall|i: int| 0 <= i < ds.len() ==> #[trigger] ds[i] <= 9
}

/// A decimal number `±d.ddd × 10^exponent`: the mathematical value of a
/// [`Decimal`].
pub struct Number {
    /// Whether the number carries a minus sign. Zero may carry one too.
    pub negative: bool,
    /// The significant digits, most significant first. Empty for zero.
    pub digits: Seq<u8>,
    /// The power of ten of the first significant digit. Zero for zero.
    pub exponent: int,
}

impl Number {
    /// Whether the number is zero.
    pub open spec fn is_zero(self) -> bool {
        self.digits.len() == 0
    }

    /// Whether the number is written in its one normal form: decimal digits
    /// that neither begin nor end with a zero, and exponent zero for zero.
    pub open spec fn normalized(self) -> bool {
        &&& all_digits(self.digits)
        &&& self.digits.len() > 0 ==> self.digits.first() != 0 && self.digits.last() != 0
        &&& self.digits.len() == 0 ==> self.exponent == 0
    }

    /// Whether two numbers in normal form denote the same value. The sign of
    /// zero does not count.
    pub open spec fn same_value(self, other: Number) -> bool {
        &&& self.digits == other.digits
        &&& self.exponent == other.exponent
        &&& (self.negative == other.negative || self.is_zero())
    }

    /// The normal form of the number with the digits `ds` (zeros at either
    /// end allowed) whose first digit stands for the power of ten `exponent`.
    pub open spec fn normalize(negative: bool, ds: Seq<u8>, exponent: int) -> Number {
        let z = leading_zeros(ds);
        if z == ds.len() {
            Number { negative, digits: Seq::empty(), exponent: 0 }
        } else {
            Number { negative, digits: trim_end(ds.skip(z as int)), exponent: exponent - z }
        }
    }

    /// The number that equals the integer `v`.
    pub open spec fn of_integer(v: int) -> Number {
        let magnitude = if v < 0 {
            (-v) as nat
        } else {
            v as nat
        };
        Number::normalize(v < 0, digits_of(magnitude), digits_of(magnitude).len() - 1)
    }
}

/// The digits of the mantissa of the numeric literal `t`: those before the
/// decimal point, then those behind it.
pub open spec fn mantissa_digits(t: Seq<char>) -> Seq<u8> {
    let whole = t.subrange(sign_end(t, 0), whole_end(t, 0));
    if has_point(t, 0) {
        digit_values(whole + t.subrange(whole_end(t, 0) + 1, mantissa_end(t, 0)))
    } else {
        digit_values(whole)
    }
}

/// The power of ten that the exponent of the numeric literal `t` names;
/// zero where it has none.
pub open spec fn exponent_part(t: Seq<char>) -> int {
    if mantissa_end(t, 0) < t.len() {
        digits_value(t.skip(mantissa_end(t, 0) + 1))
    } else {
        0
    }
}

/// Whether every decimal digit in `t` is an ASCII digit.
pub open spec fn has_plain_digits(t: Seq<char>) -> bool {
    forall|j: int| 0 <= j < t.len() && is_decimal_digit(#[trigger] t[j]) ==> is_digit(t[j])
}

/// Whether the whole of `t` is a numeric literal that spells a number: an
/// optional sign, then ASCII digits with an optional decimal point among,
/// before or behind them, then an optional exponent.
pub open spec fn is_numeric_literal(t: Seq<char>) -> bool {
    t.len() > 0 && number_end(t, 0) == Some(t.len() as int) && has_plain_digits(t)
}

/// The number that the numeric literal `t` spells, where `t` is one and the
/// power of ten of its first significant digit fits in 64 bits.
pub open spec fn decimal_literal(t: Seq<char>) -> Option<Number> {
    let n = Number::normalize(
        has_char(t, 0, '-'),
        mantissa_digits(t),
        whole_end(t, 0) - sign_end(t, 0) - 1 + exponent_part(t),
    );
    if is_numeric_literal(t) && i64::MIN <= n.exponent <= i64::MAX {
        Some(n)
    } else {
        None
    }
}

/// The text of the number with the significant digits `ds`, the first of
/// which stands for the power of ten `exponent`. From one ten-thousandth up
/// to, but not including, ten to the sixteenth the number is written out
/// with a decimal point and at least one digit behind it; any smaller or
/// larger number is written as its digits, the decimal point behind the
/// first of them, and the power of ten behind an `e`. Zero is `0.0`.
pub open spec fn render_magnitude(ds: Seq<u8>, exponent: int) -> Seq<char> {
    let n = ds.len() as int;
    if n == 0 {
        seq!['0', '.', '0']
    } else if 0 <= exponent < 16 {
        if n <= exponent + 1 {
            digit_chars(ds) + zeros((exponent + 1 - n) as nat) + seq!['.', '0']
        } else {
            digit_chars(ds.take(exponent + 1)) + seq!['.'] + digit_chars(ds.skip(exponent + 1))
        }
    } else if -5 < exponent < 0 {
        seq!['0', '.'] + zeros((-exponent - 1) as nat) + digit_chars(ds)
    } else {
        let fraction = if n > 1 {
            seq!['.'] + digit_chars(ds.skip(1))
        } else {
            Seq::empty()
        };
        digit_chars(ds.take(1)) + fraction + seq!['e'] + render_integer(exponent)
    }
}

/// The text of the number `x`: a minus sign where it carries one, then its
/// magnitude.
pub open spec fn render_number(x: Number) -> Seq<char> {
    if x.negative {
        seq!['-'] + render_magnitude(x.digits, x.exponent)
    } else {
        render_magnitude(x.digits, x.exponent)
    }
}

/// The digits of a number are decimal digits, at least one and at most
/// twenty for a 64-bit magnitude, and the first is zero only for zero.
pub proof fn lemma_digits_of(n: nat)
    ensures
        all_digits(digits_of(n)),
        digits_of(n).len() >= 1,
        n > 0 ==> digits_of(n)[0] != 0,
        n == 0 ==> digits_of(n) == seq![0u8],
    decreases n,
{
    if n >= 10 {
        lemma_digits_of(n / 10);
        let front = digits_of(n / 10);
        let d = (n % 10) as u8;
        assert forall|i: int| 0 <= i < front.push(d).len() implies #[trigger] front.push(d)[i]
            <= 9 by {
            if i < front.len() {
                assert(front[i] <= 9);
            }
        }
    }
}

/// Trimming zeros leaves a prefix of decimal digits that does not end in
/// zero.
pub proof fn lemma_trim_end(ds: Seq<u8>)
    ensures
        trim_end(ds).len() <= ds.len(),
        trim_end(ds) == ds.take(trim_end(ds).len() as int),
        trim_end(ds).len() > 0 ==> trim_end(ds).last() != 0,
        forall|i: int| trim_end(ds).len() <= i < ds.len() ==> ds[i] == 0,
        ds.len() > 0 && ds[0] != 0 ==> trim_end(ds).len() > 0,
    decreases ds.len(),
{
    if ds.len() > 0 && ds.last() == 0 {
        let front = ds.drop_last();
        lemma_trim_end(front);
        let n = trim_end(front).len() as int;
        assert(front.take(n) =~= ds.take(n));
        assert forall|i: int| n <= i < ds.len() implies ds[i] == 0 by {
            if i < front.len() {
                assert(front[i] == ds[i]);
            }
        }
    } else {
        assert(ds.take(ds.len() as int) =~= ds);
    }
}

/// The leading zeros are zeros, and the digit after them, if any, is not.
pub proof fn lemma_leading_zeros(ds: Seq<u8>)
    ensures
        leading_zeros(ds) <= ds.len(),
        forall|i: int| 0 <= i < leading_zeros(ds) ==> ds[i] == 0,
        leading_zeros(ds) < ds.len() ==> ds[leading_zeros(ds) as int] != 0,
    decreases ds.len(),
{
    if ds.len() > 0 && ds[0] == 0 {
        let rest = ds.drop_first();
        lemma_leading_zeros(rest);
        assert forall|i: int| 0 <= i < leading_zeros(ds) implies ds[i] == 0 by {
            if i > 0 {
                assert(ds[i] == rest[i - 1]);
            }
        }
        if leading_zeros(ds) < ds.len() {
            assert(ds[leading_zeros(ds) as int] == rest[leading_zeros(rest) as int]);
        }
    }
}

/// Normalizing decimal digits gives a number in normal form.
pub proof fn lemma_normalize(negative: bool, ds: Seq<u8>, exponent: int)
    requires
        all_digits(ds),
    ensures
        Number::normalize(negative, ds, exponent).normalized(),
{
    lemma_leading_zeros(ds);
    let z = leading_zeros(ds) as int;
    if z < ds.len() {
        let rest = ds.skip(z);
        lemma_trim_end(rest);
        let kept = trim_end(rest);
        assert(rest[0] == ds[z]);
        assert(kept[0] == rest[0]);
        assert forall|i: int| 0 <= i < kept.len() implies #[trigger] kept[i] <= 9 by {
            assert(kept[i] == rest[i]);
            assert(rest[i] == ds[z + i]);
        }
    }
}

/// An exact decimal number.
///
/// The value is kept in normalized scientific notation: the significant
/// digits, none of them a leading or trailing zero, and the power of ten of
/// the first one.
#[derive(Debug)]
pub struct Decimal {
    negative: bool,
    digits: Vec<u8>,
    exponent: i64,
}

impl View for Decimal {
    type V = Number;

    closed spec fn view(&self) -> Number {
        Number { negative: self.negative, digits: self.digits@, exponent: self.exponent as int }
    }
}

/// The most that is left of a 64-bit magnitude after `k` of its digits were
/// taken off.
spec fn residue_bound(k: nat) -> nat
    decreases k,
{
    if k == 0 {
        u64::MAX as nat
    } else {
        residue_bound((k - 1) as nat) / 10
    }
}

/// After nineteen digits less than ten is left.
proof fn lemma_residue_bound(k: nat)
    ensures
        k >= 19 ==> residue_bound(k) < 10,
    decreases k,
{
    if k > 19 {
        lemma_residue_bound((k - 1) as nat);
    } else if k == 19 {
        reveal_with_fuel(residue_bound, 20);
    }
}

/// The decimal digits of `m`, most significant first.
pub fn digits_of_u64(m: u64) -> (out: Vec<u8>)
    ensures
        out@ == digits_of(m as nat),
        1 <= out.len() <= 20,
{
    let mut rev: Vec<u8> = Vec::new();
    let mut rest: u64 = m;
    while rest >= 10
        invariant
            digits_of(m as nat) =~= digits_of(rest as nat) + rev@.reverse(),
            rest <= residue_bound(rev.len() as nat),
            rev.len() <= 19,
        decreases rest,
    {
        let d: u8 = (rest % 10) as u8;
        proof {
            lemma_residue_bound(rev.len() as nat);
            assert(rev@.push(d).reverse() =~= seq![d] + rev@.reverse());
            assert(digits_of(rest as nat) =~= digits_of((rest / 10) as nat).push(d));
        }
        rev.push(d);
        rest = rest / 10;
    }
    proof {
        assert(rev@.push(rest as u8).reverse() =~= seq![rest as u8] + rev@.reverse());
    }
    rev.push(rest as u8);
    assert(digits_of(m as nat) =~= rev@.reverse());
    let mut out: Vec<u8> = Vec::new();
    let mut k: usize = rev.len();
    while k > 0
        invariant
            k <= rev.len(),
            out.len() == rev.len() - k,
            forall|i: int| 0 <= i < out.len() ==> out[i] == rev[rev.len() - 1 - i],
        decreases k,
    {
        k = k - 1;
        out.push(rev[k]);
    }
    assert(out@ =~= rev@.reverse());
    out
}

impl Decimal {
    /// Every decimal is held in its normal form.
    #[verifier::type_invariant]
    spec fn well_formed(self) -> bool {
        self@.normalized()
    }

    /// Builds the normal form of the number with the digits `ds`, whose
    /// first digit stands for the power of ten `exponent`.
    fn normalized_from(negative: bool, ds: &Vec<u8>, exponent: i128) -> (r: Option<Decimal>)
        requires
            all_digits(ds@),
            ds.len() <= u64::MAX,
            -0x8_0000_0000_0000_0000_0000 <= exponent <= 0x8_0000_0000_0000_0000_0000,
        ensures
            match r {
                Some(d) => d@ == Number::normalize(negative, ds@, exponent as int),
                None => {
                    let n = Number::normalize(negative, ds@, exponent as int);
                    n.exponent < i64::MIN || n.exponent > i64::MAX
                },
            },
    {
        proof {
            lemma_leading_zeros(ds@);
            lemma_normalize(negative, ds@, exponent as int);
        }
        let mut z: usize = 0;
        while z < ds.len() && ds[z] == 0
            invariant
                z <= ds.len(),
                forall|i: int| 0 <= i < z ==> ds[i] == 0,
            decreases ds.len() - z,
        {
            z = z + 1;
        }
        proof {
            lemma_leading_zeros_is(ds@, z as int);
        }
        if z == ds.len() {
            return Some(Decimal { negative, digits: Vec::new(), exponent: 0 });
        }
        let ghost rest = ds@.skip(z as int);
        proof {
            lemma_trim_end(rest);
        }
        let mut end: usize = ds.len();
        while ds[end - 1] == 0
            invariant
                z < end <= ds.len(),
                ds[z as int] != 0,
                forall|i: int| end <= i < ds.len() ==> ds[i] == 0,
            decreases end,
        {
            end = end - 1;
        }
        proof {
            lemma_trim_end_is(rest, end - z);
        }
        let mut digits: Vec<u8> = Vec::new();
        let mut i: usize = z;
        while i < end
            invariant
                z <= i <= end <= ds.len(),
                digits@ =~= ds@.subrange(z as int, i as int),
            decreases end - i,
        {
            digits.push(ds[i]);
            i = i + 1;
        }
        assert(digits@ =~= trim_end(rest)) by {
            assert(trim_end(rest) =~= rest.take(end - z));
        }
        let e: i128 = exponent - (z as i128);
        if e < i64::MIN as i128 || e > i64::MAX as i128 {
            None
        } else {
            Some(Decimal { negative, digits, exponent: e as i64 })
        }
    }

    /// Whether every decimal digit in `t` is an ASCII digit.
    fn plain_digits(t: &Vec<char>) -> (r: bool)
        ensures
            r == has_plain_digits(t@),
    {
        let mut j: usize = 0;
        while j < t.len()
            invariant
                j <= t.len(),
                forall|k: int| 0 <= k < j && is_decimal_digit(#[trigger] t[k]) ==> is_digit(t[k]),
            decreases t.len() - j,
        {
            if decimal_digit(t[j]) && !digit(t[j]) {
                return false;
            }
            j = j + 1;
        }
        true
    }

    /// The number that the numeric literal `t` spells, where `t` is one and
    /// the power of ten of its first significant digit fits in 64 bits.
    pub fn from_literal(t: &Vec<char>) -> (r: Option<Decimal>)
        ensures
            match r {
                Some(d) => decimal_literal(t@) == Some(d@),
                None => decimal_literal(t@) is None,
            },
    {
        if t.len() == 0 {
            return None;
        }
        match scan_number(t, 0) {
            Some(end) => {
                if end != t.len() {
                    return None;
                }
            },
            None => {
                return None;
            },
        }
        if !Decimal::plain_digits(t) {
            return None;
        }
        let k = skip_sign(t, 0);
        let a = scan_digits(t, k);
        let point = a < t.len() && t[a] == '.';
        let b = if point {
            scan_digits(t, a + 1)
        } else {
            a
        };
        proof {
            lemma_digits_end(t@, k as int);
            if point {
                lemma_digits_end(t@, a + 1);
            }
        }
        let ghost whole = t@.subrange(k as int, a as int);
        let mut m: Vec<u8> = Vec::new();
        let mut j: usize = k;
        while j < a
            invariant
                k <= j <= a <= t.len(),
                forall|i: int| k <= i < a ==> is_digit(#[trigger] t[i]),
                m@ =~= digit_values(t@.subrange(k as int, j as int)),
                all_digits(m@),
            decreases a - j,
        {
            m.push(digit_of(t[j]));
            j = j + 1;
        }
        if point {
            j = a + 1;
            while j < b
                invariant
                    a + 1 <= j <= b <= t.len(),
                    k <= a,
                    forall|i: int| a + 1 <= i < b ==> is_digit(#[trigger] t[i]),
                    whole == t@.subrange(k as int, a as int),
                    m@ =~= digit_values(whole + t@.subrange(a + 1, j as int)),
                    all_digits(m@),
                decreases b - j,
            {
                m.push(digit_of(t[j]));
                j = j + 1;
            }
        }
        assert(m@ =~= mantissa_digits(t@));
        let x: i128 = if b < t.len() {
            read_signed(t, b + 1)
        } else {
            0
        };
        let first: i128 = (a - k) as i128 - 1 + x;
        let negative = t[0] == '-';
        proof {
            lemma_leading_zeros(m@);
        }
        Decimal::normalized_from(negative, &m, first)
    }

    /// The number that `text` spells, where `text` is a numeric literal and
    /// the power of ten of its first significant digit fits in 64 bits.
    pub fn parse(text: &str) -> (r: Option<Decimal>)
        ensures
            match r {
                Some(d) => decimal_literal(text@) == Some(d@),
                None => decimal_literal(text@) is None,
            },
    {
        let t = chars_of(text);
        Decimal::from_literal(&t)
    }

    /// The decimal that equals the integer `value`.
    pub fn from_integer(value: i64) -> (r: Decimal)
        ensures
            r@ == Number::of_integer(value as int),
    {
        let magnitude: u64 = if value < 0 {
            ((-(value + 1)) as u64) + 1
        } else {
            value as u64
        };
        let ds = digits_of_u64(magnitude);
        proof {
            lemma_digits_of(magnitude as nat);
            lemma_leading_zeros(ds@);
        }
        let exponent: i128 = ds.len() as i128 - 1;
        match Decimal::normalized_from(value < 0, &ds, exponent) {
            Some(d) => d,
            None => {
                proof {
                    assert(false);
                }
                Decimal { negative: false, digits: Vec::new(), exponent: 0 }
            },
        }
    }

    /// Appends the digits, the zeros that fill them up to the ones, and `.0`.
    #[verifier::rlimit(40)]
    fn write_whole(&self, out: &mut String)
        requires
            self@.digits.len() > 0,
            0 <= self@.exponent < 16,
            self@.digits.len() <= self@.exponent + 1,
        ensures
            final(out)@ == old(out)@ + render_magnitude(self@.digits, self@.exponent),
    {
        proof {
            use_type_invariant(self);
        }
        let ghost before = out@;
        let ghost ds = self.digits@;
        let n = self.digits.len();
        let point: usize = self.exponent as usize + 1;
        push_digits(out, &self.digits, 0, n);
        push_zeros(out, point - n);
        out.push('.');
        out.push('0');
        assert(ds.subrange(0, n as int) =~= ds);
        assert(out@ =~= before + (digit_chars(ds) + zeros((point - n) as nat) + seq!['.', '0']));
    }

    /// Appends the digits with the decimal point among them.
    #[verifier::rlimit(40)]
    fn write_split(&self, out: &mut String)
        requires
            0 <= self@.exponent < 16,
            self@.digits.len() > self@.exponent + 1,
        ensures
            final(out)@ == old(out)@ + render_magnitude(self@.digits, self@.exponent),
    {
        proof {
            use_type_invariant(self);
        }
        let ghost before = out@;
        let ghost ds = self.digits@;
        let n = self.digits.len();
        let point: usize = self.exponent as usize + 1;
        push_digits(out, &self.digits, 0, point);
        out.push('.');
        push_digits(out, &self.digits, point, n);
        assert(ds.subrange(0, point as int) =~= ds.take(point as int));
        assert(ds.subrange(point as int, n as int) =~= ds.skip(point as int));
        assert(out@ =~= before + (digit_chars(ds.take(point as int)) + seq!['.'] + digit_chars(
            ds.skip(point as int),
        )));
    }

    /// Appends `0.`, the zeros behind the decimal point, and the digits.
    #[verifier::rlimit(40)]
    fn write_fraction(&self, out: &mut String)
        requires
            self@.digits.len() > 0,
            -5 < self@.exponent < 0,
        ensures
            final(out)@ == old(out)@ + render_magnitude(self@.digits, self@.exponent),
    {
        proof {
            use_type_invariant(self);
        }
        let ghost before = out@;
        let ghost ds = self.digits@;
        let n = self.digits.len();
        let gap: usize = (-self.exponent - 1) as usize;
        out.push('0');
        out.push('.');
        push_zeros(out, gap);
        push_digits(out, &self.digits, 0, n);
        assert(ds.subrange(0, n as int) =~= ds);
        assert(out@ =~= before + (seq!['0', '.'] + zeros(gap as nat) + digit_chars(ds)));
    }

    /// Appends the digits, the decimal point behind the first of them, and
    /// the power of ten behind an `e`.
    #[verifier::rlimit(40)]
    fn write_scientific(&self, out: &mut String)
        requires
            self@.digits.len() > 0,
            self@.exponent <= -5 || self@.exponent >= 16,
        ensures
            final(out)@ == old(out)@ + render_magnitude(self@.digits, self@.exponent),
    {
        proof {
            use_type_invariant(self);
        }
        let ghost before = out@;
        let ghost ds = self.digits@;
        let n = self.digits.len();
        push_digits(out, &self.digits, 0, 1);
        let ghost first = out@;
        if n > 1 {
            out.push('.');
            push_digits(out, &self.digits, 1, n);
        }
        let ghost fraction = if n > 1 {
            seq!['.'] + digit_chars(ds.skip(1))
        } else {
            Seq::empty()
        };
        assert(ds.subrange(0, 1) =~= ds.take(1));
        assert(ds.subrange(1, n as int) =~= ds.skip(1));
        assert(first =~= before + digit_chars(ds.take(1)));
        assert(out@ =~= first + fraction);
        let ghost mantissa = out@;
        out.push('e');
        push_integer(out, self.exponent);
        assert(out@ =~= mantissa + seq!['e'] + render_integer(self.exponent as int));
        assert(out@ =~= before + (digit_chars(ds.take(1)) + fraction + seq!['e'] + render_integer(
            self.exponent as int,
        )));
    }

    /// Appends the text of the number to `out`.
    #[verifier::rlimit(40)]
    pub fn write_to(&self, out: &mut String)
        ensures
            final(out)@ == old(out)@ + render_number(self@),
    {
        let ghost before = out@;
        if self.negative {
            out.push('-');
        }
        let ghost signed = out@;
        let n = self.digits.len();
        let e = self.exponent;
        if n == 0 {
            out.push('0');
            out.push('.');
            out.push('0');
            assert(out@ =~= signed + seq!['0', '.', '0']);
        } else if 0 <= e && e < 16 {
            if n <= e as usize + 1 {
                self.write_whole(out);
            } else {
                self.write_split(out);
            }
        } else if -5 < e && e < 0 {
            self.write_fraction(out);
        } else {
            self.write_scientific(out);
        }
        assert(out@ == signed + render_magnitude(self@.digits, self@.exponent));
        assert(out@ =~= before + render_number(self@));
    }

    /// The text of the number. It is a numeric literal that spells the
    /// number.
    pub fn to_string(&self) -> (text: String)
        ensures
            text@ == render_number(self@),
            is_numeric_literal(text@),
            decimal_literal(text@) == Some(self@),
    {
        let mut text = String::new();
        self.write_to(&mut text);
        assert(text@ =~= render_number(self@));
        proof {
            use_type_invariant(self);
            lemma_decimal_reads_back(self@);
        }
        text
    }

    /// Whether the number carries a minus sign.
    pub fn is_negative(&self) -> (r: bool)
        ensures
            r == self@.negative,
    {
        self.negative
    }

    /// Whether the number is zero.
    pub fn is_zero(&self) -> (r: bool)
        ensures
            r == self@.is_zero(),
    {
        self.digits.len() == 0
    }

    /// The significant digits, most significant first.
    pub fn digits(&self) -> (r: &Vec<u8>)
        ensures
            r@ == self@.digits,
            self@.normalized(),
    {
        proof {
            use_type_invariant(self);
        }
        &self.digits
    }

    /// The power of ten of the first significant digit.
    pub fn exponent(&self) -> (r: i64)
        ensures
            r == self@.exponent,
    {
        self.exponent
    }
}

/// A count of zeros followed by a nonzero digit, or by the end, is the
/// number of leading zeros.
pub proof fn lemma_leading_zeros_is(ds: Seq<u8>, z: int)
    requires
        0 <= z <= ds.len(),
        forall|i: int| 0 <= i < z ==> ds[i] == 0,
        z < ds.len() ==> ds[z] != 0,
    ensures
        leading_zeros(ds) == z,
    decreases ds.len(),
{
    if z > 0 {
        let rest = ds.drop_first();
        assert forall|i: int| 0 <= i < z - 1 implies rest[i] == 0 by {
            assert(rest[i] == ds[i + 1]);
        }
        if z - 1 < rest.len() {
            assert(rest[z - 1] == ds[z]);
        }
        lemma_leading_zeros_is(rest, z - 1);
    }
}

/// A prefix that does not end in zero and is followed by zeros only is what
/// trimming leaves.
pub proof fn lemma_trim_end_is(ds: Seq<u8>, n: int)
    requires
        0 <= n <= ds.len(),
        forall|i: int| n <= i < ds.len() ==> ds[i] == 0,
        n > 0 ==> ds[n - 1] != 0,
    ensures
        trim_end(ds) == ds.take(n),
    decreases ds.len(),
{
    if n < ds.len() {
        let front = ds.drop_last();
        assert(ds.last() == 0);
        assert forall|i: int| n <= i < front.len() implies front[i] == 0 by {
            assert(front[i] == ds[i]);
        }
        lemma_trim_end_is(front, n);
        assert(front.take(n) =~= ds.take(n));
    } else {
        assert(ds.take(n) =~= ds);
    }
}

/// A copy of a decimal is the same number.
impl Clone for Decimal {
    fn clone(&self) -> (r: Decimal)
        ensures
            r@ == self@,
    {
        proof {
            use_type_invariant(self);
        }
        Decimal { negative: self.negative, digits: self.digits.clone(), exponent: self.exponent }
    }
}

/// Decimals are equal where they are the same number: the digits and the
/// power of ten decide, and the sign where the number is not zero.
impl PartialEq for Decimal {
    fn eq(&self, other: &Decimal) -> (r: bool) {
        if self.exponent != other.exponent || self.digits.len() != other.digits.len() {
            return false;
        }
        let mut i: usize = 0;
        while i < self.digits.len()
            invariant
                i <= self.digits.len(),
                self.digits.len() == other.digits.len(),
                forall|j: int| 0 <= j < i ==> self.digits[j] == other.digits[j],
            decreases self.digits.len() - i,
        {
            if self.digits[i] != other.digits[i] {
                return false;
            }
            i = i + 1;
        }
        assert(self.digits@ =~= other.digits@);
        self.negative == other.negative || self.digits.len() == 0
    }
}

impl PartialEqSpecImpl for Decimal {
    open spec fn obeys_eq_spec() -> bool {
        true
    }

    open spec fn eq_spec(&self, other: &Decimal) -> bool {
        self@.same_value(other@)
    }
}

} // verus!
