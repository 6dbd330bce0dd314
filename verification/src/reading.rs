//! The texts of numbers read back as the numbers: what the rendering of an
//! integer or a decimal writes is a literal of the language, and the value
//! of that literal is the number that was written.

use crate::decimal::{
    all_digits, decimal_literal, digits_of, exponent_part, has_plain_digits, is_numeric_literal,
    lemma_digits_of, lemma_leading_zeros_is, lemma_trim_end_is, mantissa_digits, render_magnitude,
    render_number, Number,
};
use crate::literal::{
    decimal_value, digit_value, digit_values, digits_in, integer_literal, is_integer_text,
    lemma_digits_in_plain, digits_value,
};
use crate::numeral::lemma_digits_end_is;
use crate::render::{digit_char, digit_chars, render_integer, zeros};
use crate::shape::{digits_between, is_integer_stretch};
use crate::text::{
    exponent_end, has_char, has_mantissa, has_point, is_decimal_digit, is_digit, is_sign,
    mantissa_end, number_end, sign_end, whole_end,
};
use vstd::prelude::*;

verus! {

/// The character of a digit is a digit and has the digit for its value.
pub proof fn lemma_digit_char(d: u8)
    requires
        d <= 9,
    ensures
        is_digit(digit_char(d)),
        is_decimal_digit(digit_char(d)),
        digit_value(digit_char(d)) == d,
        !is_sign(digit_char(d)),
        digit_char(d) != '.',
        digit_char(d) != 'e',
        digit_char(d) != 'E',
        d == 0 ==> digit_char(d) == '0',
{
}

/// The characters of digits have the digits for their values.
pub proof fn lemma_digit_chars(ds: Seq<u8>)
    requires
        all_digits(ds),
    ensures
        digit_values(digit_chars(ds)) == ds,
        digits_in(digit_chars(ds)) == ds,
        digit_chars(ds).len() == ds.len(),
        forall|i: int|
            0 <= i < ds.len() ==> is_digit(#[trigger] digit_chars(ds)[i]) && is_decimal_digit(
                digit_chars(ds)[i],
            ),
{
    assert forall|i: int| 0 <= i < ds.len() implies is_digit(#[trigger] digit_chars(ds)[i])
        && is_decimal_digit(digit_chars(ds)[i]) && digit_value(digit_chars(ds)[i]) == ds[i] by {
        lemma_digit_char(ds[i]);
    }
    assert(digit_values(digit_chars(ds)) =~= ds);
    lemma_digits_in_plain(digit_chars(ds));
}

/// The digits of a number spell the number.
pub proof fn lemma_value_of_digits(n: nat)
    ensures
        decimal_value(digits_of(n)) == n,
    decreases n,
{
    if n < 10 {
        let one = seq![n as u8];
        assert(one.drop_last() =~= Seq::<u8>::empty());
        assert(decimal_value(one.drop_last()) == 0);
    } else {
        lemma_value_of_digits(n / 10);
        let front = digits_of(n / 10);
        let all = front.push((n % 10) as u8);
        assert(all.drop_last() =~= front);
    }
}

/// The text of an integer is an integer literal, and its value is the
/// integer.
pub proof fn lemma_integer_reads_back(v: int)
    ensures
        is_integer_stretch(render_integer(v), 0, render_integer(v).len() as int),
        is_integer_text(render_integer(v)),
        has_plain_digits(render_integer(v)),
        digits_between(
            render_integer(v),
            sign_end(render_integer(v), 0),
            render_integer(v).len() as int,
        ),
        digits_value(render_integer(v)) == v,
        i64::MIN <= v <= i64::MAX ==> integer_literal(render_integer(v)) == Some(v as i64),
{
    let magnitude = if v < 0 {
        (-v) as nat
    } else {
        v as nat
    };
    let ds = digits_of(magnitude);
    lemma_digits_of(magnitude);
    lemma_digit_chars(ds);
    lemma_value_of_digits(magnitude);
    lemma_digit_char(ds[0]);
    let t = render_integer(v);
    let body = digit_chars(ds);
    if v < 0 {
        assert(t =~= seq!['-'] + body);
        assert(t[0] == '-');
        assert(sign_end(t, 0) == 1);
        assert(t.skip(1) =~= body);
        assert forall|j: int| 1 <= j < t.len() implies is_digit(#[trigger] t[j])
            && is_decimal_digit(t[j]) by {
            assert(t[j] == body[j - 1]);
        }
    } else {
        assert(t =~= body);
        assert(t[0] == digit_char(ds[0]));
        assert(sign_end(t, 0) == 0);
        assert(t.skip(0) =~= body);
    }
}

/// The text that is laid out as a numeric literal: a minus sign where
/// `negative`, the digits `whole`, then, where there are any, a point and
/// the digits `fraction`, and then, where there is one, an `e` and the
/// power of ten `exponent`.
pub open spec fn layout(
    negative: bool,
    whole: Seq<u8>,
    fraction: Option<Seq<u8>>,
    exponent: Option<int>,
) -> Seq<char> {
    let sign = if negative {
        seq!['-']
    } else {
        Seq::empty()
    };
    let behind = match fraction {
        Some(f) => seq!['.'] + digit_chars(f),
        None => Seq::empty(),
    };
    let power = match exponent {
        Some(x) => seq!['e'] + render_integer(x),
        None => Seq::empty(),
    };
    sign + digit_chars(whole) + behind + power
}

/// A text that is laid out as a numeric literal is one, and its parts are
/// those it was laid out from.
#[verifier::rlimit(40)]
pub proof fn lemma_layout_reads(
    negative: bool,
    whole: Seq<u8>,
    fraction: Option<Seq<u8>>,
    exponent: Option<int>,
)
    requires
        all_digits(whole),
        whole.len() > 0,
        fraction matches Some(f) ==> all_digits(f),
    ensures
        ({
            let t = layout(negative, whole, fraction, exponent);
            &&& is_numeric_literal(t)
            &&& has_char(t, 0, '-') == negative
            &&& whole_end(t, 0) - sign_end(t, 0) == whole.len()
            &&& mantissa_digits(t) == whole + (match fraction {
                Some(f) => f,
                None => Seq::empty(),
            })
            &&& exponent_part(t) == (match exponent {
                Some(x) => x,
                None => 0,
            })
        }),
{
    let t = layout(negative, whole, fraction, exponent);
    let sign: Seq<char> = if negative {
        seq!['-']
    } else {
        Seq::empty()
    };
    let front = digit_chars(whole);
    let behind = match fraction {
        Some(f) => seq!['.'] + digit_chars(f),
        None => Seq::empty(),
    };
    let power = match exponent {
        Some(x) => seq!['e'] + render_integer(x),
        None => Seq::empty(),
    };
    let f = match fraction {
        Some(f) => f,
        None => Seq::empty(),
    };
    lemma_digit_chars(whole);
    lemma_digit_chars(f);
    let d = sign.len() as int;
    let a = d + whole.len();
    let m = a + behind.len();
    assert(t.len() == m + power.len());
    assert forall|j: int| 0 <= j < d implies t[j] == sign[j] by {}
    assert forall|j: int| d <= j < a implies t[j] == front[j - d] by {}
    assert forall|j: int| a <= j < m implies t[j] == behind[j - a] by {}
    assert forall|j: int| m <= j < t.len() implies t[j] == power[j - m] by {}
    lemma_digit_char(whole[0]);
    assert(t[d] == front[0]);
    assert(sign_end(t, 0) == d);
    assert(has_char(t, 0, '-') == negative);
    // the digits in front of the point
    assert(digits_between(t, d, a)) by {
        assert forall|j: int| d <= j < a implies is_decimal_digit(#[trigger] t[j]) by {
            assert(t[j] == front[j - d]);
        }
    }
    if a < t.len() {
        if fraction is Some {
            assert(t[a] == behind[0]);
            assert(t[a] == '.');
        } else {
            assert(m == a);
            assert(t[a] == power[0]);
            assert(t[a] == 'e');
        }
    }
    lemma_digits_end_is(t, d, a);
    assert(whole_end(t, 0) == a);
    assert(has_point(t, 0) == (fraction is Some));
    // the digits behind the point
    if fraction is Some {
        assert(digits_between(t, a + 1, m)) by {
            assert forall|j: int| a + 1 <= j < m implies is_decimal_digit(#[trigger] t[j]) by {
                assert(t[j] == behind[j - a]);
                assert(behind[j - a] == digit_chars(f)[j - a - 1]);
            }
        }
        if m < t.len() {
            assert(t[m] == power[0]);
            assert(t[m] == 'e');
        }
        lemma_digits_end_is(t, a + 1, m);
        assert(t.subrange(a + 1, m) =~= digit_chars(f));
    }
    assert(mantissa_end(t, 0) == m);
    assert(has_mantissa(t, 0));
    assert(t.subrange(d, a) =~= front);
    assert(mantissa_digits(t) =~= whole + f) by {
        if fraction is Some {
            assert(digit_values(front + digit_chars(f)) =~= whole + f);
        } else {
            assert(whole + f =~= whole);
        }
    }
    // the power of ten
    match exponent {
        Some(x) => {
            let written = render_integer(x);
            lemma_integer_reads_back(x);
            assert(t[m] == 'e');
            assert(t.skip(m + 1) =~= written);
            let k = sign_end(written, 0);
            assert forall|j: int| 0 <= j < written.len() implies t[m + 1 + j] == written[j] by {
                assert(t[m + 1 + j] == power[j + 1]);
            }
            assert(t[m + 1] == written[0]);
            assert(sign_end(t, m + 1) == m + 1 + k);
            assert(digits_between(t, m + 1 + k, t.len() as int)) by {
                assert forall|j: int| m + 1 + k <= j < t.len() implies is_decimal_digit(
                    #[trigger] t[j],
                ) by {
                    assert(t[j] == written[j - m - 1]);
                }
            }
            lemma_digits_end_is(t, m + 1 + k, t.len() as int);
            assert(exponent_end(t, m) == t.len());
        },
        None => {
            assert(m == t.len());
            assert(exponent_end(t, m) == m);
        },
    }
    assert(number_end(t, 0) == Some(t.len() as int));
    // every digit is an ASCII digit
    assert(has_plain_digits(t)) by {
        assert forall|j: int| 0 <= j < t.len() && is_decimal_digit(#[trigger] t[j]) implies is_digit(
            t[j],
        ) by {
            if j < d {
                assert(t[j] == '-');
            } else if j < a {
                assert(t[j] == front[j - d]);
            } else if j < m {
                assert(t[j] == behind[j - a]);
                if j > a {
                    assert(behind[j - a] == digit_chars(f)[j - a - 1]);
                }
            } else {
                assert(t[j] == power[j - m]);
                match exponent {
                    Some(x) => {
                        lemma_integer_reads_back(x);
                        if j > m {
                            assert(power[j - m] == render_integer(x)[j - m - 1]);
                        }
                    },
                    None => {},
                }
            }
        }
    }
}

/// Digits that neither begin nor end with a zero are what is left of them
/// when zeros are put in front of them and behind them and the whole is
/// brought to normal form.
pub proof fn lemma_normalize_padded(
    negative: bool,
    before: nat,
    ds: Seq<u8>,
    after: nat,
    exponent: int,
)
    requires
        ds.len() > 0,
        ds.first() != 0,
        ds.last() != 0,
    ensures
        Number::normalize(
            negative,
            Seq::new(before, |i: int| 0u8) + ds + Seq::new(after, |i: int| 0u8),
            exponent,
        ) == (Number { negative, digits: ds, exponent: exponent - before }),
{
    let all = Seq::new(before, |i: int| 0u8) + ds + Seq::new(after, |i: int| 0u8);
    assert(all[before as int] == ds[0]);
    lemma_leading_zeros_is(all, before as int);
    let rest = all.skip(before as int);
    assert(rest =~= ds + Seq::new(after, |i: int| 0u8));
    assert(rest[ds.len() - 1] == ds.last());
    lemma_trim_end_is(rest, ds.len() as int);
    assert(rest.take(ds.len() as int) =~= ds);
}

/// Whether the text of `x` is a numeric literal that spells `x`.
pub open spec fn reads_back(x: Number) -> bool {
    is_numeric_literal(render_number(x)) && decimal_literal(render_number(x)) == Some(x)
}

/// Zero reads back from `0.0`.
#[verifier::rlimit(40)]
proof fn lemma_zero_reads_back(x: Number)
    requires
        x.normalized(),
        x.digits.len() == 0,
    ensures
        reads_back(x),
{
    let zero = seq![0u8];
    lemma_digit_char(0);
    assert(digit_chars(zero) =~= seq!['0']);
    assert(render_number(x) =~= layout(x.negative, zero, Some(zero), None));
    lemma_layout_reads(x.negative, zero, Some(zero), None);
    let all = zero + zero;
    assert(all[0] == 0 && all[1] == 0);
    lemma_leading_zeros_is(all, 2);
    assert(x.digits =~= Seq::<u8>::empty());
    assert(Number::normalize(x.negative, all, 0) == x);
}

/// A whole number reads back from its digits, its zeros and `.0`.
#[verifier::rlimit(40)]
proof fn lemma_whole_reads_back(x: Number)
    requires
        x.normalized(),
        x.digits.len() > 0,
        0 <= x.exponent < 16,
        x.digits.len() <= x.exponent + 1,
    ensures
        reads_back(x),
{
    let ds = x.digits;
    let e = x.exponent;
    let k = (e + 1 - ds.len()) as nat;
    let pad = Seq::new(k, |i: int| 0u8);
    let zero = seq![0u8];
    let none: Seq<u8> = Seq::empty();
    lemma_digit_char(0);
    assert(digit_chars(zero) =~= seq!['0']);
    assert(digit_chars(ds + pad) =~= digit_chars(ds) + zeros(k));
    assert(render_magnitude(ds, e) =~= digit_chars(ds + pad) + (seq!['.'] + digit_chars(zero)));
    assert(render_number(x) =~= layout(x.negative, ds + pad, Some(zero), None));
    assert(all_digits(ds + pad));
    lemma_layout_reads(x.negative, ds + pad, Some(zero), None);
    assert(Seq::new(0, |i: int| 0u8) + ds + Seq::new(k + 1, |i: int| 0u8) =~= ds + pad + zero);
    lemma_normalize_padded(x.negative, 0, ds, k + 1, e);
}

/// A number reads back from its digits with the point among them.
#[verifier::rlimit(40)]
proof fn lemma_split_reads_back(x: Number)
    requires
        x.normalized(),
        0 <= x.exponent < 16,
        x.digits.len() > x.exponent + 1,
    ensures
        reads_back(x),
{
    let ds = x.digits;
    let e = x.exponent;
    let w = ds.take(e + 1);
    let f = ds.skip(e + 1);
    assert(render_number(x) =~= layout(x.negative, w, Some(f), None));
    assert(all_digits(w));
    assert(all_digits(f));
    lemma_layout_reads(x.negative, w, Some(f), None);
    assert(w + f =~= ds);
    assert(Seq::new(0, |i: int| 0u8) + ds + Seq::new(0, |i: int| 0u8) =~= ds);
    lemma_normalize_padded(x.negative, 0, ds, 0, e);
}

/// A small number reads back from `0.`, its zeros and its digits.
#[verifier::rlimit(40)]
proof fn lemma_fraction_reads_back(x: Number)
    requires
        x.normalized(),
        x.digits.len() > 0,
        -5 < x.exponent < 0,
    ensures
        reads_back(x),
{
    let ds = x.digits;
    let e = x.exponent;
    let k = (-e - 1) as nat;
    let pad = Seq::new(k, |i: int| 0u8);
    let zero = seq![0u8];
    lemma_digit_char(0);
    assert(digit_chars(zero) =~= seq!['0']);
    assert(digit_chars(pad + ds) =~= zeros(k) + digit_chars(ds));
    assert(render_magnitude(ds, e) =~= digit_chars(zero) + (seq!['.'] + digit_chars(pad + ds)));
    assert(render_number(x) =~= layout(x.negative, zero, Some(pad + ds), None));
    assert(all_digits(pad + ds));
    lemma_layout_reads(x.negative, zero, Some(pad + ds), None);
    assert(Seq::new(k + 1, |i: int| 0u8) + ds + Seq::new(0, |i: int| 0u8) =~= zero + (pad + ds));
    lemma_normalize_padded(x.negative, k + 1, ds, 0, 0);
}

/// A number of one digit reads back from that digit and its power of ten.
#[verifier::rlimit(40)]
proof fn lemma_scientific_single(x: Number)
    requires
        x.normalized(),
        x.digits.len() == 1,
        x.exponent <= -5 || x.exponent >= 16,
        i64::MIN <= x.exponent <= i64::MAX,
    ensures
        reads_back(x),
{
    let ds = x.digits;
    let e = x.exponent;
    let none: Seq<u8> = Seq::empty();
    assert(ds.take(1) =~= ds);
    let body = digit_chars(ds) + Seq::<char>::empty() + seq!['e'] + render_integer(e);
    assert(render_magnitude(ds, e) == body);
    let laid = layout(x.negative, ds, None, Some(e));
    if x.negative {
        assert(laid =~= seq!['-'] + body);
    } else {
        assert(laid =~= body);
    }
    assert(render_number(x) == laid);
    lemma_layout_reads(x.negative, ds, None, Some(e));
    assert(ds + none =~= ds);
    assert(Seq::new(0, |i: int| 0u8) + ds + Seq::new(0, |i: int| 0u8) =~= ds);
    lemma_normalize_padded(x.negative, 0, ds, 0, e);
}

/// A number reads back from its digits, the point behind the first, and its
/// power of ten.
#[verifier::rlimit(40)]
proof fn lemma_scientific_many(x: Number)
    requires
        x.normalized(),
        x.digits.len() > 1,
        x.exponent <= -5 || x.exponent >= 16,
        i64::MIN <= x.exponent <= i64::MAX,
    ensures
        reads_back(x),
{
    let ds = x.digits;
    let e = x.exponent;
    let w = ds.take(1);
    let f = ds.skip(1);
    assert(all_digits(w));
    assert(all_digits(f));
    let body = digit_chars(w) + (seq!['.'] + digit_chars(f)) + seq!['e'] + render_integer(e);
    assert(render_magnitude(ds, e) == body);
    let laid = layout(x.negative, w, Some(f), Some(e));
    if x.negative {
        assert(laid =~= seq!['-'] + body);
    } else {
        assert(laid =~= body);
    }
    assert(render_number(x) == laid);
    lemma_layout_reads(x.negative, w, Some(f), Some(e));
    assert(w + f =~= ds);
    assert(Seq::new(0, |i: int| 0u8) + ds + Seq::new(0, |i: int| 0u8) =~= ds);
    lemma_normalize_padded(x.negative, 0, ds, 0, e);
}

/// The text of a decimal reads back as the decimal: it is a numeric
/// literal, and the number that the literal spells is the decimal, sign of
/// zero included.
pub proof fn lemma_decimal_reads_back(x: Number)
    requires
        x.normalized(),
        i64::MIN <= x.exponent <= i64::MAX,
    ensures
        is_numeric_literal(render_number(x)),
        decimal_literal(render_number(x)) == Some(x),
{
    let n = x.digits.len();
    let e = x.exponent;
    if n == 0 {
        lemma_zero_reads_back(x);
    } else if 0 <= e < 16 {
        if n <= e + 1 {
            lemma_whole_reads_back(x);
        } else {
            lemma_split_reads_back(x);
        }
    } else if -5 < e < 0 {
        lemma_fraction_reads_back(x);
    } else if n == 1 {
        lemma_scientific_single(x);
    } else {
        lemma_scientific_many(x);
    }
}

} // verus!
