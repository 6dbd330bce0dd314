//! The values that the digits of numeric literals spell.

use crate::text::{digit, has_char, is_digit, is_separator, sign_end, skip_sign};
use vstd::prelude::*;

verus! {

/// The value of the digit `c`.
pub open spec fn digit_value(c: char) -> u8
    recommends
        is_digit(c),
{
    (c as u32 - 48) as u8
}

/// The values of the digits `t`.
pub open spec fn digit_values(t: Seq<char>) -> Seq<u8>
    recommends
        forall|i: int| 0 <= i < t.len() ==> is_digit(t[i]),
{
    Seq::new(t.len(), |i: int| digit_value(t[i]))
}

/// The values of the digits among the characters of `t`, in their order.
/// What is no digit, such as a separator, is left out.
pub open spec fn digits_in(t: Seq<char>) -> Seq<u8>
    decreases t.len(),
{
    if t.len() == 0 {
        Seq::empty()
    } else if is_digit(t.last()) {
        digits_in(t.drop_last()).push(digit_value(t.last()))
    } else {
        digits_in(t.drop_last())
    }
}

/// The number that the decimal digits `ds` spell, most significant first.
pub open spec fn decimal_value(ds: Seq<u8>) -> nat
    decreases ds.len(),
{
    if ds.len() == 0 {
        0
    } else {
        decimal_value(ds.drop_last()) * 10 + ds.last() as nat
    }
}

/// Whether the whole of `t` is an integer literal that spells a number: an
/// optional sign, a digit, then digits and separators.
pub open spec fn is_integer_text(t: Seq<char>) -> bool {
    let d = sign_end(t, 0);
    &&& d < t.len()
    &&& is_digit(t[d])
    &&& forall|j: int| d < j < t.len() ==> is_digit(#[trigger] t[j]) || is_separator(t[j])
}

/// The integer that the digits among the characters of `t` spell, negative
/// where `t` begins with a minus sign. Nothing but the digits counts, so
/// separators do not. This is the value of `t` where `t` is an integer
/// literal: see [`integer_literal`].
pub open spec fn digits_value(t: Seq<char>) -> int {
    let magnitude = decimal_value(digits_in(t.skip(sign_end(t, 0))));
    if has_char(t, 0, '-') {
        -magnitude
    } else {
        magnitude as int
    }
}

/// The value of the integer literal `t`, where `t` is one and its value
/// fits in 64 bits.
pub open spec fn integer_literal(t: Seq<char>) -> Option<i64> {
    if is_integer_text(t) && i64::MIN <= digits_value(t) <= i64::MAX {
        Some(digits_value(t) as i64)
    } else {
        None
    }
}

/// The magnitude at which the digits of a literal are no longer counted
/// exactly: it is well beyond both 64-bit integers and the powers of ten
/// that a decimal can hold.
pub open spec fn magnitude_cap() -> nat {
    100_000_000_000_000_000_000
}

/// `v`, held to at most `magnitude_cap()` in size.
pub open spec fn capped(v: int) -> int {
    if v > magnitude_cap() {
        magnitude_cap() as int
    } else if v < -magnitude_cap() {
        -magnitude_cap()
    } else {
        v
    }
}

/// Digits that are all digits are all among the digits of their text.
pub proof fn lemma_digits_in_plain(t: Seq<char>)
    requires
        forall|i: int| 0 <= i < t.len() ==> is_digit(#[trigger] t[i]),
    ensures
        digits_in(t) == digit_values(t),
    decreases t.len(),
{
    if t.len() > 0 {
        let front = t.drop_last();
        assert forall|i: int| 0 <= i < front.len() implies is_digit(#[trigger] front[i]) by {
            assert(front[i] == t[i]);
        }
        lemma_digits_in_plain(front);
        assert(is_digit(t[t.len() - 1]));
        assert(digit_values(t) =~= digit_values(front).push(digit_value(t.last())));
    } else {
        assert(digit_values(t) =~= Seq::<u8>::empty());
    }
}

/// The value of the digit `c`.
pub fn digit_of(c: char) -> (d: u8)
    requires
        is_digit(c),
    ensures
        d == digit_value(c),
        d <= 9,
{
    (c as u32 - 48) as u8
}

/// Whether the whole of `t` is an integer literal that spells a number.
pub fn integer_text(t: &Vec<char>) -> (r: bool)
    ensures
        r == is_integer_text(t@),
{
    let d = skip_sign(t, 0);
    if d >= t.len() || !digit(t[d]) {
        return false;
    }
    let mut j: usize = d + 1;
    while j < t.len()
        invariant
            d < j <= t.len(),
            d == sign_end(t@, 0),
            is_digit(t[d as int]),
            forall|k: int| d < k < j ==> is_digit(#[trigger] t[k]) || is_separator(t[k]),
        decreases t.len() - j,
    {
        if !(digit(t[j]) || t[j] == '_') {
            return false;
        }
        j = j + 1;
    }
    true
}

/// The number that the digits among the characters of `t` from `from` on
/// spell, held to the cap.
fn read_magnitude(t: &Vec<char>, from: usize) -> (m: u128)
    requires
        from <= t.len(),
    ensures
        m == capped(decimal_value(digits_in(t@.skip(from as int))) as int),
{
    let mut acc: u128 = 0;
    let mut j: usize = from;
    assert(t@.subrange(from as int, from as int) =~= Seq::<char>::empty());
    while j < t.len()
        invariant
            from <= j <= t.len(),
            acc == capped(decimal_value(digits_in(t@.subrange(from as int, j as int))) as int),
        decreases t.len() - j,
    {
        proof {
            let before = t@.subrange(from as int, j as int);
            let after = t@.subrange(from as int, j + 1);
            assert(after.drop_last() =~= before);
            assert(after.last() == t[j as int]);
            if is_digit(t[j as int]) {
                let ds = digits_in(before).push(digit_value(t[j as int]));
                assert(digits_in(after) == ds);
                assert(ds.drop_last() =~= digits_in(before));
            } else {
                assert(digits_in(after) == digits_in(before));
            }
        }
        if digit(t[j]) {
            let d = digit_of(t[j]);
            if acc < 100_000_000_000_000_000_000 {
                acc = acc * 10 + d as u128;
                if acc > 100_000_000_000_000_000_000 {
                    acc = 100_000_000_000_000_000_000;
                }
            }
        }
        j = j + 1;
    }
    assert(t@.subrange(from as int, t.len() as int) =~= t@.skip(from as int));
    acc
}

/// The integer that the digits among the characters of `t` from `from` on
/// spell, with the sign at `from`, held to the cap.
pub(crate) fn read_signed(t: &Vec<char>, from: usize) -> (v: i128)
    requires
        from <= t.len(),
    ensures
        v == capped(digits_value(t@.skip(from as int))),
{
    let ghost rest = t@.skip(from as int);
    let d = skip_sign(t, from);
    let negative = from < t.len() && t[from] == '-';
    let m = read_magnitude(t, d);
    proof {
        assert(sign_end(rest, 0) == d - from);
        assert(rest.skip(d - from) =~= t@.skip(d as int));
        assert(negative == has_char(rest, 0, '-'));
    }
    if negative {
        -(m as i128)
    } else {
        m as i128
    }
}

/// The value of the integer literal `t`, where `t` is one and its value
/// fits in 64 bits. A separator among the digits does not count.
pub fn read_integer(t: &Vec<char>) -> (r: Option<i64>)
    ensures
        r == integer_literal(t@),
{
    if !integer_text(t) {
        return None;
    }
    let v = read_signed(t, 0);
    assert(t@.skip(0) =~= t@);
    if v < i64::MIN as i128 || v > i64::MAX as i128 {
        None
    } else {
        Some(v as i64)
    }
}

} // verus!
