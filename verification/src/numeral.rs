//! Integers among the decimals: a number means the same whether it is
//! written as an integer literal or with a fraction of zero.

use crate::decimal::{
    all_digits, decimal_literal, digits_of, has_plain_digits, leading_zeros, lemma_digits_of,
    lemma_leading_zeros, lemma_leading_zeros_is, lemma_trim_end, mantissa_digits, Number,
};
use crate::literal::{decimal_value, digit_values, lemma_digits_in_plain, digits_value};
use crate::shape::{digits_between, lemma_digits_longest};
use crate::text::{
    digits_end, exponent_end, has_char, has_mantissa, has_point, is_decimal_digit, is_digit,
    mantissa_end, number_end, sign_end, whole_end,
};
use vstd::prelude::*;

verus! {

/// A stretch of digits that ends at the end of the text, or in front of a
/// character that is no digit, is the run of digits from its first position.
pub proof fn lemma_digits_end_is(s: Seq<char>, from: int, to: int)
    requires
        digits_between(s, from, to),
        to == s.len() || !is_decimal_digit(s[to]),
    ensures
        digits_end(s, from) == to,
{
    lemma_digits_longest(s, from);
    let end = digits_end(s, from);
    if to < end {
        assert(is_decimal_digit(s[to]));
    }
}

/// Digits spell zero exactly where all of them are zeros.
pub proof fn lemma_value_zero(ds: Seq<u8>)
    requires
        all_digits(ds),
    ensures
        decimal_value(ds) == 0 <==> leading_zeros(ds) == ds.len(),
    decreases ds.len(),
{
    lemma_leading_zeros(ds);
    if ds.len() > 0 {
        let front = ds.drop_last();
        lemma_value_zero(front);
        lemma_leading_zeros(front);
        if leading_zeros(ds) == ds.len() {
            assert forall|i: int| 0 <= i < front.len() implies front[i] == 0 by {
                assert(front[i] == ds[i]);
            }
            lemma_leading_zeros_is(front, front.len() as int);
            assert(ds.last() == 0);
        }
        if decimal_value(ds) == 0 {
            assert(decimal_value(front) == 0);
            assert(ds.last() == 0);
            assert forall|i: int| 0 <= i < ds.len() implies ds[i] == 0 by {
                if i < front.len() {
                    assert(ds[i] == front[i]);
                }
            }
            lemma_leading_zeros_is(ds, ds.len() as int);
        }
    }
}

/// The digits of the number that digits spell are those digits without the
/// zeros in front of them.
pub proof fn lemma_digits_of_value(ds: Seq<u8>)
    requires
        all_digits(ds),
        leading_zeros(ds) < ds.len(),
    ensures
        digits_of(decimal_value(ds)) == ds.skip(leading_zeros(ds) as int),
    decreases ds.len(),
{
    lemma_leading_zeros(ds);
    let z = leading_zeros(ds) as int;
    let front = ds.drop_last();
    let last = ds.last();
    lemma_leading_zeros(front);
    lemma_value_zero(front);
    if leading_zeros(front) == front.len() {
        // the last digit is the only one that counts
        assert(z == front.len()) by {
            if z < front.len() {
                assert(front[z] == ds[z]);
            }
        }
        assert(decimal_value(ds) == last as nat);
        assert(ds.skip(z) =~= seq![last]);
    } else {
        let y = leading_zeros(front) as int;
        assert(front[y] == ds[y]);
        assert forall|i: int| 0 <= i < y implies ds[i] == 0 by {
            assert(front[i] == ds[i]);
        }
        lemma_leading_zeros_is(ds, y);
        lemma_digits_of_value(front);
        let n = decimal_value(front);
        assert(n > 0);
        assert(decimal_value(ds) == n * 10 + last);
        assert((n * 10 + last) / 10 == n && (n * 10 + last) % 10 == last as nat);
        assert(digits_of(decimal_value(ds)) == digits_of(n).push(last));
        assert(ds.skip(z) =~= front.skip(y).push(last));
    }
}

/// Digits with a zero behind them spell, as a mantissa, the same number as
/// without it.
pub proof fn lemma_trailing_zero(negative: bool, ds: Seq<u8>, exponent: int)
    requires
        all_digits(ds),
    ensures
        Number::normalize(negative, ds.push(0), exponent) == Number::normalize(
            negative,
            ds,
            exponent,
        ),
{
    lemma_leading_zeros(ds);
    let z = leading_zeros(ds) as int;
    let more = ds.push(0);
    if z == ds.len() {
        assert forall|i: int| 0 <= i < more.len() implies more[i] == 0 by {
            if i < ds.len() {
                assert(more[i] == ds[i]);
            }
        }
        lemma_leading_zeros_is(more, more.len() as int);
    } else {
        assert(more[z] == ds[z]);
        assert forall|i: int| 0 <= i < z implies more[i] == 0 by {
            assert(more[i] == ds[i]);
        }
        lemma_leading_zeros_is(more, z);
        assert(more.skip(z).drop_last() =~= ds.skip(z));
        assert(more.skip(z).last() == 0);
    }
}

/// Whether the whole of `t` is an optional sign and, behind it, one ASCII
/// digit or more and nothing else: an integer literal without separators.
pub open spec fn is_plain_integer(t: Seq<char>) -> bool {
    sign_end(t, 0) < t.len() && forall|j: int|
        sign_end(t, 0) <= j < t.len() ==> is_digit(#[trigger] t[j])
}

/// An integer among the decimals. Read as a numeric literal, the text of an
/// integer literal without separators spells the decimal that equals the
/// integer, and so does that text with `.0` behind it: what is written `10`
/// and what is written `10.0` are the same number. (Only the sign of zero
/// may differ, which does not count.)
pub proof fn lemma_integer_among_decimals(t: Seq<char>)
    requires
        is_plain_integer(t),
        t.len() <= i64::MAX,
    ensures
        decimal_literal(t) matches Some(x) && x.same_value(Number::of_integer(digits_value(t))),
        decimal_literal(t + seq!['.', '0']) == decimal_literal(t),
{
    let d = sign_end(t, 0);
    let len = t.len() as int;
    let ds = digit_values(t.skip(d));
    assert(digits_between(t, d, len));
    lemma_digits_end_is(t, d, len);
    assert(whole_end(t, 0) == len);
    assert(!has_point(t, 0));
    assert(mantissa_end(t, 0) == len);
    assert(has_mantissa(t, 0));
    assert(exponent_end(t, len) == len);
    assert(number_end(t, 0) == Some(len));
    assert(has_plain_digits(t));
    assert(t.subrange(d, len) =~= t.skip(d));
    assert(mantissa_digits(t) == ds);
    lemma_digits_in_plain(t.skip(d));
    assert(all_digits(ds));
    lemma_leading_zeros(ds);
    lemma_value_zero(ds);
    let n = decimal_value(ds);
    let negative = has_char(t, 0, '-');
    let z = leading_zeros(ds) as int;
    if z < ds.len() {
        lemma_digits_of_value(ds);
        lemma_digits_of(n);
        let written = digits_of(n);
        assert(written == ds.skip(z));
        lemma_leading_zeros_is(written, 0);
        assert(written.skip(0) =~= written);
        lemma_trim_end(written);
    } else {
        lemma_digits_of(0);
        lemma_leading_zeros_is(seq![0u8], 1);
    }
    // the same text with a fraction of zero
    let more = t + seq!['.', '0'];
    assert(sign_end(more, 0) == d);
    assert forall|j: int| 0 <= j < len implies more[j] == t[j] by {}
    assert(digits_between(more, d, len));
    assert(more[len] == '.');
    lemma_digits_end_is(more, d, len);
    assert(has_point(more, 0));
    assert(more[len + 1] == '0');
    assert(digits_between(more, len + 1, len + 2));
    lemma_digits_end_is(more, len + 1, len + 2);
    assert(mantissa_end(more, 0) == len + 2);
    assert(exponent_end(more, len + 2) == len + 2);
    assert(number_end(more, 0) == Some(len + 2));
    assert(has_plain_digits(more)) by {
        assert forall|j: int| 0 <= j < more.len() && is_decimal_digit(
            #[trigger] more[j],
        ) implies is_digit(more[j]) by {
            if j < len {
                assert(more[j] == t[j]);
            }
        }
    }
    assert(more.subrange(d, len) + more.subrange(len + 1, len + 2) =~= t.skip(d).push('0'));
    assert(mantissa_digits(more) =~= ds.push(0));
    lemma_trailing_zero(negative, ds, len - d - 1);
}

} // verus!
