//! The shapes of the tokens, and the rule of the longest match.
//!
//! The lexer is stated as a scan from left to right. Here the shapes of the
//! tokens are stated on their own, as what a stretch of text must look like
//! to be a token, and the scan is shown to take, at each position, the
//! longest stretch that has one of these shapes.

use crate::decimal::{decimal_literal, has_plain_digits, is_numeric_literal};
use crate::lexer::{punctuation, takes_integer, token_at, token_end};
use crate::literal::{is_integer_text, digits_value};
use crate::text::{
    digits_end, exponent_end, has_mantissa, has_point, integer_end, is_decimal_digit, is_digit,
    is_exponent_mark, is_name_continue, is_name_start, is_separator, is_sign, lemma_digits_end,
    lemma_name_end, lemma_separated_end, mantissa_end, name_end, number_end, separated_end,
    sign_end, whole_end,
};
use crate::token::{Lexeme, LexingError};
use vstd::prelude::*;

verus! {

/// Whether `s` holds digits only from `from` up to `to`.
pub open spec fn digits_between(s: Seq<char>, from: int, to: int) -> bool {
    0 <= from <= to <= s.len() && forall|j: int|
        from <= j < to ==> is_decimal_digit(#[trigger] s[j])
}

/// Whether `s` from `i` up to `e` is an integer literal: an optional sign,
/// a digit, then digits and separators.
pub open spec fn is_integer_stretch(s: Seq<char>, i: int, e: int) -> bool {
    &&& 0 <= i
    &&& sign_end(s, i) < e <= s.len()
    &&& is_decimal_digit(s[sign_end(s, i)])
    &&& forall|j: int|
        sign_end(s, i) < j < e ==> is_decimal_digit(#[trigger] s[j]) || is_separator(s[j])
}

/// Whether `s` from `d` up to `m` is a mantissa whose decimal point, if it
/// has one, stands at `p`: digits up to `p`, and either nothing more, or a
/// point and digits, with a digit on one side of the point at least.
pub open spec fn mantissa_split(s: Seq<char>, d: int, p: int, m: int) -> bool {
    &&& d <= p <= m
    &&& digits_between(s, d, p)
    &&& (p == m && d < p) || (p < m && s[p] == '.' && digits_between(s, p + 1, m) && (d < p || p
        + 1 < m))
}

/// Whether `s` from `m` up to `e` is an exponent: an exponent mark, an
/// optional sign, then one digit or more.
pub open spec fn is_exponent_stretch(s: Seq<char>, m: int, e: int) -> bool {
    &&& 0 <= m < e <= s.len()
    &&& is_exponent_mark(s[m])
    &&& sign_end(s, m + 1) < e
    &&& digits_between(s, sign_end(s, m + 1), e)
}

/// Whether `s` from `i` up to `e` is a numeric literal whose mantissa ends
/// at `m` and whose decimal point, if it has one, stands at `p`.
pub open spec fn number_split(s: Seq<char>, i: int, p: int, m: int, e: int) -> bool {
    &&& mantissa_split(s, sign_end(s, i), p, m)
    &&& m <= e
    &&& m == e || is_exponent_stretch(s, m, e)
}

/// Whether `s` from `i` up to `e` is a numeric literal: an optional sign, a
/// mantissa and an optional exponent.
pub open spec fn is_number_stretch(s: Seq<char>, i: int, e: int) -> bool {
    0 <= i < e <= s.len() && exists|p: int, m: int| number_split(s, i, p, m, e)
}

/// Whether `s` from `i` up to `e` is a name: a character that may open a
/// name, then characters that may continue one; or a percent sign alone.
pub open spec fn is_name_stretch(s: Seq<char>, i: int, e: int) -> bool {
    &&& 0 <= i < e <= s.len()
    &&& (is_name_start(s[i]) && forall|j: int| i < j < e ==> is_name_continue(#[trigger] s[j]))
        || (s[i] == '%' && e == i + 1)
}

/// Whether `s` from `i` up to `e` is one character that is an operator or
/// a punctuation mark.
pub open spec fn is_mark_stretch(s: Seq<char>, i: int, e: int) -> bool {
    0 <= i < s.len() && e == i + 1 && punctuation(s[i]) != Lexeme::Error(
        LexingError::InvalidToken,
    )
}

/// Whether `s` from `i` up to `e` has the shape of a token.
pub open spec fn is_token_stretch(s: Seq<char>, i: int, e: int) -> bool {
    ||| is_integer_stretch(s, i, e)
    ||| is_number_stretch(s, i, e)
    ||| is_name_stretch(s, i, e)
    ||| is_mark_stretch(s, i, e)
}

/// A run of digits reaches as far as digits go, and no stretch of digits
/// from the same position reaches farther.
pub proof fn lemma_digits_longest(s: Seq<char>, from: int)
    requires
        0 <= from <= s.len(),
    ensures
        digits_between(s, from, digits_end(s, from)),
        forall|to: int| digits_between(s, from, to) ==> to <= digits_end(s, from),
{
    lemma_digits_end(s, from);
    let end = digits_end(s, from);
    assert forall|to: int| digits_between(s, from, to) implies to <= end by {
        if to > end {
            assert(is_decimal_digit(s[end]));
        }
    }
}

/// The scan for an integer literal finds the longest one that begins at
/// `i`, and none where none begins there.
pub proof fn lemma_integer_longest(s: Seq<char>, i: int)
    requires
        0 <= i < s.len(),
    ensures
        integer_end(s, i) matches Some(end) ==> is_integer_stretch(s, i, end),
        forall|e: int|
            is_integer_stretch(s, i, e) ==> integer_end(s, i) is Some && e <= integer_end(s, i)->0,
{
    let d = sign_end(s, i);
    if d < s.len() {
        lemma_separated_end(s, d + 1);
        let end = separated_end(s, d + 1);
        assert forall|e: int| is_integer_stretch(s, i, e) implies integer_end(s, i) is Some && e
            <= integer_end(s, i)->0 by {
            if e > end {
                assert(is_decimal_digit(s[end]) || is_separator(s[end]));
            }
        }
    }
}

/// The scan for a numeric literal finds the longest one that begins at `i`,
/// and none where none begins there.
pub proof fn lemma_number_longest(s: Seq<char>, i: int)
    requires
        0 <= i < s.len(),
    ensures
        number_end(s, i) matches Some(end) ==> is_number_stretch(s, i, end),
        forall|e: int|
            is_number_stretch(s, i, e) ==> number_end(s, i) is Some && e <= number_end(s, i)->0,
{
    let d = sign_end(s, i);
    let a = whole_end(s, i);
    let m = mantissa_end(s, i);
    lemma_digits_longest(s, d);
    if a < s.len() {
        lemma_digits_longest(s, a + 1);
    }
    if 0 <= m < s.len() {
        lemma_digits_longest(s, sign_end(s, m + 1));
    }
    if has_mantissa(s, i) {
        let end = number_end(s, i)->0;
        assert(mantissa_split(s, d, a, m));
        assert(number_split(s, i, a, m, end));
    }
    assert forall|e: int| is_number_stretch(s, i, e) implies number_end(s, i) is Some && e
        <= number_end(s, i)->0 by {
        let (p, n) = choose|p: int, n: int| number_split(s, i, p, n, e);
        assert(mantissa_split(s, d, p, n));
        assert(p <= a);
        if p < a {
            // a digit stands at `p`: neither a point nor an exponent mark
            assert(is_decimal_digit(s[p]));
            assert(p == n);
            assert(n == e);
        } else {
            if p == n {
                // no point in this reading
                if n < e {
                    assert(is_exponent_mark(s[a]));
                    assert(!has_point(s, i));
                }
            } else {
                assert(has_point(s, i));
                assert(n <= m);
                if n < m {
                    assert(is_decimal_digit(s[n]));
                    assert(n == e);
                }
            }
        }
    }
}

/// The scan for a name finds the longest one that begins at `i`.
pub proof fn lemma_name_longest(s: Seq<char>, i: int)
    requires
        0 <= i < s.len(),
    ensures
        is_name_start(s[i]) ==> is_name_stretch(s, i, name_end(s, i + 1)),
        forall|e: int|
            is_name_stretch(s, i, e) ==> (is_name_start(s[i]) && e <= name_end(s, i + 1)) || (s[i]
                == '%' && e == i + 1),
{
    lemma_name_end(s, i + 1);
    let end = name_end(s, i + 1);
    assert forall|e: int| is_name_stretch(s, i, e) implies (is_name_start(s[i]) && e <= end) || (
    s[i] == '%' && e == i + 1) by {
        if is_name_start(s[i]) && e > end {
            assert(is_name_continue(s[end]));
        }
    }
}

/// Whether an integer or numeric literal may begin with `c`.
pub open spec fn opens_number(c: char) -> bool {
    c == '+' || c == '-' || c == '.' || is_decimal_digit(c)
}

/// An integer or numeric literal begins with a sign, a point or a digit,
/// and no name does, nor a percent sign.
pub proof fn lemma_number_opens(s: Seq<char>, i: int)
    requires
        0 <= i < s.len(),
        number_end(s, i) is Some || integer_end(s, i) is Some,
    ensures
        opens_number(s[i]),
        !is_name_start(s[i]),
        s[i] != '%',
{
    let d = sign_end(s, i);
    lemma_digits_end(s, d);
    if d == i && whole_end(s, i) > i {
        assert(is_decimal_digit(s[i]));
    }
}

/// The rule of the longest match. The token that the lexer reads at `i` is
/// the longest stretch from `i` on that has the shape of a token; where no
/// stretch from `i` on has one, it is the one character at `i`, as an
/// error. The token is an integer where the stretch is an integer literal,
/// a number with fraction or exponent where it is another numeric literal,
/// and a name where it is a name; a literal that spells no number that can
/// be held is an error of its own kind.
pub proof fn lemma_longest_match(s: Seq<char>, i: int)
    requires
        0 <= i < s.len(),
    ensures
        forall|e: int| is_token_stretch(s, i, e) ==> e <= token_end(s, i),
        is_token_stretch(s, i, token_end(s, i)) || (token_end(s, i) == i + 1 && token_at(s, i)
            == Lexeme::Error(LexingError::InvalidToken)),
        is_integer_stretch(s, i, token_end(s, i)) <==> (token_at(s, i) is Integer || token_at(s, i)
            == Lexeme::Error(LexingError::ParseIntError)),
        is_number_stretch(s, i, token_end(s, i)) && !is_integer_stretch(s, i, token_end(s, i))
            <==> (token_at(s, i) is Float || token_at(s, i) == Lexeme::Error(
            LexingError::ParseFloatError,
        )),
        is_name_stretch(s, i, token_end(s, i)) <==> token_at(s, i) is Name,
{
    lemma_number_longest(s, i);
    lemma_integer_longest(s, i);
    lemma_name_longest(s, i);
    let end = token_end(s, i);
    let d = sign_end(s, i);
    lemma_digits_end(s, d);
    if whole_end(s, i) < s.len() {
        lemma_digits_end(s, whole_end(s, i) + 1);
    }
    if d < s.len() {
        lemma_separated_end(s, d + 1);
    }
    if number_end(s, i) is Some || integer_end(s, i) is Some {
        lemma_number_opens(s, i);
        assert(!is_name_stretch(s, i, end));
    }
    if integer_end(s, i) is Some {
        // a digit behind the sign opens a mantissa too
        assert(has_mantissa(s, i));
    }
}

/// A run of digits in a stretch of text is the run of digits in the whole
/// text, cut where the stretch ends.
pub proof fn lemma_digits_end_within(s: Seq<char>, i: int, e: int, k: int)
    requires
        0 <= i <= k <= e <= s.len(),
    ensures
        digits_end(s.subrange(i, e), k - i) == (if digits_end(s, k) <= e {
            digits_end(s, k)
        } else {
            e
        }) - i,
    decreases e - k,
{
    let t = s.subrange(i, e);
    lemma_digits_end(s, k);
    if k < e {
        assert(t[k - i] == s[k]);
        if is_decimal_digit(s[k]) {
            lemma_digits_end_within(s, i, e, k + 1);
        }
    }
}

/// The text of an integer token is an integer literal that spells a number
/// wherever all its digits are ASCII digits. So the token is an error where
/// a digit of it is no ASCII digit or where its value does not fit in 64
/// bits, and the integer of that value everywhere else.
pub proof fn lemma_integer_token(s: Seq<char>, i: int)
    requires
        0 <= i < s.len(),
        takes_integer(s, i),
    ensures
        ({
            let text = s.subrange(i, token_end(s, i));
            &&& is_integer_text(text) <==> has_plain_digits(text)
            &&& token_at(s, i) == (if has_plain_digits(text) && i64::MIN <= digits_value(text)
                <= i64::MAX {
                Lexeme::Integer(digits_value(text) as i64)
            } else {
                Lexeme::Error(LexingError::ParseIntError)
            })
        }),
{
    let d = sign_end(s, i);
    let e = token_end(s, i);
    let text = s.subrange(i, e);
    lemma_separated_end(s, d + 1);
    assert(text[0] == s[i]);
    assert(sign_end(text, 0) == d - i);
    assert(text[d - i] == s[d]);
    if has_plain_digits(text) {
        assert(is_decimal_digit(text[d - i]));
        assert forall|j: int| d - i < j < text.len() implies is_digit(#[trigger] text[j])
            || is_separator(text[j]) by {
            assert(text[j] == s[i + j]);
            assert(is_decimal_digit(s[i + j]) || is_separator(s[i + j]));
        }
    }
    if is_integer_text(text) {
        assert forall|j: int| 0 <= j < text.len() && is_decimal_digit(
            #[trigger] text[j],
        ) implies is_digit(text[j]) by {
            if j < d - i {
                assert(is_sign(text[j]));
            } else if j > d - i {
                assert(is_digit(text[j]) || is_separator(text[j]));
            }
        }
    }
}

/// The text of a numeric token is a numeric literal that spells a number
/// wherever all its digits are ASCII digits. So the token is an error where
/// a digit of it is no ASCII digit or where its power of ten does not fit
/// in 64 bits, and the number that it spells everywhere else.
pub proof fn lemma_number_token(s: Seq<char>, i: int)
    requires
        0 <= i < s.len(),
        !takes_integer(s, i),
        number_end(s, i) is Some,
    ensures
        ({
            let text = s.subrange(i, token_end(s, i));
            &&& number_end(text, 0) == Some(text.len() as int)
            &&& is_numeric_literal(text) <==> has_plain_digits(text)
            &&& token_at(s, i) is Float <==> decimal_literal(text) is Some
            &&& token_at(s, i) is Float || token_at(s, i) == Lexeme::Error(
                LexingError::ParseFloatError,
            )
        }),
{
    let d = sign_end(s, i);
    let a = whole_end(s, i);
    let m = mantissa_end(s, i);
    let e = token_end(s, i);
    let text = s.subrange(i, e);
    lemma_digits_end(s, d);
    if a < s.len() {
        lemma_digits_end(s, a + 1);
    }
    if 0 <= m < s.len() {
        lemma_digits_end(s, sign_end(s, m + 1));
    }
    assert(i <= d <= a <= m <= e <= s.len());
    assert(i < e);
    assert(text[0] == s[i]);
    assert(sign_end(text, 0) == d - i);
    lemma_digits_end_within(s, i, e, d);
    assert(whole_end(text, 0) == a - i);
    if a < e {
        assert(text[a - i] == s[a]);
    }
    assert(has_point(text, 0) == has_point(s, i));
    if has_point(s, i) {
        lemma_digits_end_within(s, i, e, a + 1);
    }
    assert(mantissa_end(text, 0) == m - i);
    assert(has_mantissa(text, 0));
    if m < e {
        let x = sign_end(s, m + 1);
        assert(text[m - i] == s[m]);
        assert(m + 1 < e);
        assert(text[m + 1 - i] == s[m + 1]);
        assert(sign_end(text, m - i + 1) == x - i);
        lemma_digits_end_within(s, i, e, x);
    }
    assert(exponent_end(text, m - i) == e - i);
}

} // verus!
