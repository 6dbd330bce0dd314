//! Character classes of the expression language, and byte offsets of
//! characters in UTF-8 text.

use vstd::prelude::*;
use vstd::utf8::*;

verus! {

/// An ASCII decimal digit: one of the ten digits that spell the numbers.
pub open spec fn is_digit(c: char) -> bool {
    '0' <= c <= '9'
}

/// A decimal digit of any script. The shapes of the numeric literals take
/// every such digit; only the ASCII digits among them spell a number.
pub open spec fn is_decimal_digit(c: char) -> bool {
    let v = c as u32;
    ||| 0x0030 <= v <= 0x0039
    ||| 0x0660 <= v <= 0x0669
    ||| 0x06F0 <= v <= 0x06F9
    ||| 0x07C0 <= v <= 0x07C9
    ||| 0x0966 <= v <= 0x096F
    ||| 0x09E6 <= v <= 0x09EF
    ||| 0x0A66 <= v <= 0x0A6F
    ||| 0x0AE6 <= v <= 0x0AEF
    ||| 0x0B66 <= v <= 0x0B6F
    ||| 0x0BE6 <= v <= 0x0BEF
    ||| 0x0C66 <= v <= 0x0C6F
    ||| 0x0CE6 <= v <= 0x0CEF
    ||| 0x0D66 <= v <= 0x0D6F
    ||| 0x0DE6 <= v <= 0x0DEF
    ||| 0x0E50 <= v <= 0x0E59
    ||| 0x0ED0 <= v <= 0x0ED9
    ||| 0x0F20 <= v <= 0x0F29
    ||| 0x1040 <= v <= 0x1049
    ||| 0x1090 <= v <= 0x1099
    ||| 0x17E0 <= v <= 0x17E9
    ||| 0x1810 <= v <= 0x1819
    ||| 0x1946 <= v <= 0x194F
    ||| 0x19D0 <= v <= 0x19D9
    ||| 0x1A80 <= v <= 0x1A89
    ||| 0x1A90 <= v <= 0x1A99
    ||| 0x1B50 <= v <= 0x1B59
    ||| 0x1BB0 <= v <= 0x1BB9
    ||| 0x1C40 <= v <= 0x1C49
    ||| 0x1C50 <= v <= 0x1C59
    ||| 0xA620 <= v <= 0xA629
    ||| 0xA8D0 <= v <= 0xA8D9
    ||| 0xA900 <= v <= 0xA909
    ||| 0xA9D0 <= v <= 0xA9D9
    ||| 0xA9F0 <= v <= 0xA9F9
    ||| 0xAA50 <= v <= 0xAA59
    ||| 0xABF0 <= v <= 0xABF9
    ||| 0xFF10 <= v <= 0xFF19
    ||| 0x104A0 <= v <= 0x104A9
    ||| 0x10D30 <= v <= 0x10D39
    ||| 0x10D40 <= v <= 0x10D49
    ||| 0x11066 <= v <= 0x1106F
    ||| 0x110F0 <= v <= 0x110F9
    ||| 0x11136 <= v <= 0x1113F
    ||| 0x111D0 <= v <= 0x111D9
    ||| 0x112F0 <= v <= 0x112F9
    ||| 0x11450 <= v <= 0x11459
    ||| 0x114D0 <= v <= 0x114D9
    ||| 0x11650 <= v <= 0x11659
    ||| 0x116C0 <= v <= 0x116C9
    ||| 0x116D0 <= v <= 0x116E3
    ||| 0x11730 <= v <= 0x11739
    ||| 0x118E0 <= v <= 0x118E9
    ||| 0x11950 <= v <= 0x11959
    ||| 0x11BF0 <= v <= 0x11BF9
    ||| 0x11C50 <= v <= 0x11C59
    ||| 0x11D50 <= v <= 0x11D59
    ||| 0x11DA0 <= v <= 0x11DA9
    ||| 0x11F50 <= v <= 0x11F59
    ||| 0x16130 <= v <= 0x16139
    ||| 0x16A60 <= v <= 0x16A69
    ||| 0x16AC0 <= v <= 0x16AC9
    ||| 0x16B50 <= v <= 0x16B59
    ||| 0x16D70 <= v <= 0x16D79
    ||| 0x1CCF0 <= v <= 0x1CCF9
    ||| 0x1D7CE <= v <= 0x1D7FF
    ||| 0x1E140 <= v <= 0x1E149
    ||| 0x1E2F0 <= v <= 0x1E2F9
    ||| 0x1E4F0 <= v <= 0x1E4F9
    ||| 0x1E5F1 <= v <= 0x1E5FA
    ||| 0x1E950 <= v <= 0x1E959
    ||| 0x1FBF0 <= v <= 0x1FBF9
}

/// The separator that may stand among the digits of an integer literal.
pub open spec fn is_separator(c: char) -> bool {
    c == '_'
}

/// A sign that may open a numeric literal.
pub open spec fn is_sign(c: char) -> bool {
    c == '+' || c == '-'
}

/// The marker that opens the exponent of a numeric literal.
pub open spec fn is_exponent_mark(c: char) -> bool {
    c == 'e' || c == 'E'
}

/// A code point of the Greek script.
pub open spec fn is_greek(c: char) -> bool {
    let v = c as u32;
    ||| 0x0370 <= v <= 0x0373
    ||| 0x0375 <= v <= 0x0377
    ||| 0x037A <= v <= 0x037D
    ||| v == 0x037F
    ||| v == 0x0384
    ||| v == 0x0386
    ||| 0x0388 <= v <= 0x038A
    ||| v == 0x038C
    ||| 0x038E <= v <= 0x03A1
    ||| 0x03A3 <= v <= 0x03E1
    ||| 0x03F0 <= v <= 0x03FF
    ||| 0x1D26 <= v <= 0x1D2A
    ||| 0x1D5D <= v <= 0x1D61
    ||| 0x1D66 <= v <= 0x1D6A
    ||| v == 0x1DBF
    ||| 0x1F00 <= v <= 0x1F15
    ||| 0x1F18 <= v <= 0x1F1D
    ||| 0x1F20 <= v <= 0x1F45
    ||| 0x1F48 <= v <= 0x1F4D
    ||| 0x1F50 <= v <= 0x1F57
    ||| v == 0x1F59
    ||| v == 0x1F5B
    ||| v == 0x1F5D
    ||| 0x1F5F <= v <= 0x1F7D
    ||| 0x1F80 <= v <= 0x1FB4
    ||| 0x1FB6 <= v <= 0x1FC4
    ||| 0x1FC6 <= v <= 0x1FD3
    ||| 0x1FD6 <= v <= 0x1FDB
    ||| 0x1FDD <= v <= 0x1FEF
    ||| 0x1FF2 <= v <= 0x1FF4
    ||| 0x1FF6 <= v <= 0x1FFE
    ||| v == 0x2126
    ||| v == 0xAB65
    ||| 0x10140 <= v <= 0x1018E
    ||| v == 0x101A0
    ||| 0x1D200 <= v <= 0x1D245
}

/// A character that may open a name: an ASCII letter, an underscore, a Greek
/// letter or the degree sign.
pub open spec fn is_name_start(c: char) -> bool {
    ||| c == '_'
    ||| 'a' <= c <= 'z'
    ||| 'A' <= c <= 'Z'
    ||| is_greek(c)
    ||| c == '\u{B0}'
}

/// A character that may continue a name.
pub open spec fn is_name_continue(c: char) -> bool {
    is_name_start(c) || is_digit(c)
}

/// Whether `c` is an ASCII decimal digit.
pub fn digit(c: char) -> (r: bool)
    ensures
        r == is_digit(c),
{
    '0' <= c && c <= '9'
}

/// Whether `c` is a decimal digit of any script.
pub fn decimal_digit(c: char) -> (r: bool)
    ensures
        r == is_decimal_digit(c),
{
    let v: u32 = c as u32;
    if v <= 0x1099 {
        (0x0030 <= v && v <= 0x0039) || (0x0660 <= v && v <= 0x0669) || (0x06F0 <= v && v <= 0x06F9) || (0x07C0 <= v && v <= 0x07C9) || (0x0966 <= v && v <= 0x096F) || (0x09E6 <= v && v <= 0x09EF) || (0x0A66 <= v && v <= 0x0A6F) || (0x0AE6 <= v && v <= 0x0AEF) || (0x0B66 <= v && v <= 0x0B6F) || (0x0BE6 <= v && v <= 0x0BEF) || (0x0C66 <= v && v <= 0x0C6F) || (0x0CE6 <= v && v <= 0x0CEF) || (0x0D66 <= v && v <= 0x0D6F) || (0x0DE6 <= v && v <= 0x0DEF) || (0x0E50 <= v && v <= 0x0E59) || (0x0ED0 <= v && v <= 0x0ED9) || (0x0F20 <= v && v <= 0x0F29) || (0x1040 <= v && v <= 0x1049) || (0x1090 <= v && v <= 0x1099)
    } else if v <= 0xABF9 {
        (0x17E0 <= v && v <= 0x17E9) || (0x1810 <= v && v <= 0x1819) || (0x1946 <= v && v <= 0x194F) || (0x19D0 <= v && v <= 0x19D9) || (0x1A80 <= v && v <= 0x1A89) || (0x1A90 <= v && v <= 0x1A99) || (0x1B50 <= v && v <= 0x1B59) || (0x1BB0 <= v && v <= 0x1BB9) || (0x1C40 <= v && v <= 0x1C49) || (0x1C50 <= v && v <= 0x1C59) || (0xA620 <= v && v <= 0xA629) || (0xA8D0 <= v && v <= 0xA8D9) || (0xA900 <= v && v <= 0xA909) || (0xA9D0 <= v && v <= 0xA9D9) || (0xA9F0 <= v && v <= 0xA9F9) || (0xAA50 <= v && v <= 0xAA59) || (0xABF0 <= v && v <= 0xABF9)
    } else if v <= 0x11BF9 {
        (0xFF10 <= v && v <= 0xFF19) || (0x104A0 <= v && v <= 0x104A9) || (0x10D30 <= v && v <= 0x10D39) || (0x10D40 <= v && v <= 0x10D49) || (0x11066 <= v && v <= 0x1106F) || (0x110F0 <= v && v <= 0x110F9) || (0x11136 <= v && v <= 0x1113F) || (0x111D0 <= v && v <= 0x111D9) || (0x112F0 <= v && v <= 0x112F9) || (0x11450 <= v && v <= 0x11459) || (0x114D0 <= v && v <= 0x114D9) || (0x11650 <= v && v <= 0x11659) || (0x116C0 <= v && v <= 0x116C9) || (0x116D0 <= v && v <= 0x116E3) || (0x11730 <= v && v <= 0x11739) || (0x118E0 <= v && v <= 0x118E9) || (0x11950 <= v && v <= 0x11959) || (0x11BF0 <= v && v <= 0x11BF9)
    } else {
        (0x11C50 <= v && v <= 0x11C59) || (0x11D50 <= v && v <= 0x11D59) || (0x11DA0 <= v && v <= 0x11DA9) || (0x11F50 <= v && v <= 0x11F59) || (0x16130 <= v && v <= 0x16139) || (0x16A60 <= v && v <= 0x16A69) || (0x16AC0 <= v && v <= 0x16AC9) || (0x16B50 <= v && v <= 0x16B59) || (0x16D70 <= v && v <= 0x16D79) || (0x1CCF0 <= v && v <= 0x1CCF9) || (0x1D7CE <= v && v <= 0x1D7FF) || (0x1E140 <= v && v <= 0x1E149) || (0x1E2F0 <= v && v <= 0x1E2F9) || (0x1E4F0 <= v && v <= 0x1E4F9) || (0x1E5F1 <= v && v <= 0x1E5FA) || (0x1E950 <= v && v <= 0x1E959) || (0x1FBF0 <= v && v <= 0x1FBF9)
    }
}

/// Whether `c` is a plus or minus sign.
pub fn sign(c: char) -> (r: bool)
    ensures
        r == is_sign(c),
{
    c == '+' || c == '-'
}

/// Whether `c` belongs to the Greek script.
pub fn greek(c: char) -> (r: bool)
    ensures
        r == is_greek(c),
{
    let v: u32 = c as u32;
    if v < 0x0370 {
        false
    } else if v <= 0x03FF {
        (v <= 0x0373) || (0x0375 <= v && v <= 0x0377) || (0x037A <= v && v <= 0x037D) || v
            == 0x037F || v == 0x0384 || v == 0x0386 || (0x0388 <= v && v <= 0x038A) || v == 0x038C
            || (0x038E <= v && v <= 0x03A1) || (0x03A3 <= v && v <= 0x03E1) || 0x03F0 <= v
    } else if v <= 0x1DBF {
        (0x1D26 <= v && v <= 0x1D2A) || (0x1D5D <= v && v <= 0x1D61) || (0x1D66 <= v && v
            <= 0x1D6A) || v == 0x1DBF
    } else if v <= 0x1FFE {
        (0x1F00 <= v && v <= 0x1F15) || (0x1F18 <= v && v <= 0x1F1D) || (0x1F20 <= v && v
            <= 0x1F45) || (0x1F48 <= v && v <= 0x1F4D) || (0x1F50 <= v && v <= 0x1F57) || v
            == 0x1F59 || v == 0x1F5B || v == 0x1F5D || (0x1F5F <= v && v <= 0x1F7D) || (0x1F80
            <= v && v <= 0x1FB4) || (0x1FB6 <= v && v <= 0x1FC4) || (0x1FC6 <= v && v <= 0x1FD3)
            || (0x1FD6 <= v && v <= 0x1FDB) || (0x1FDD <= v && v <= 0x1FEF) || (0x1FF2 <= v && v
            <= 0x1FF4) || 0x1FF6 <= v
    } else {
        v == 0x2126 || v == 0xAB65 || (0x10140 <= v && v <= 0x1018E) || v == 0x101A0 || (0x1D200
            <= v && v <= 0x1D245)
    }
}

/// Whether `c` may open a name.
pub fn name_start(c: char) -> (r: bool)
    ensures
        r == is_name_start(c),
{
    c == '_' || ('a' <= c && c <= 'z') || ('A' <= c && c <= 'Z') || c == '\u{B0}' || greek(c)
}

/// Whether `c` may continue a name.
pub fn name_continue(c: char) -> (r: bool)
    ensures
        r == is_name_continue(c),
{
    name_start(c) || digit(c)
}

/// The position behind the longest run of digits that begins at `i`.
pub open spec fn digits_end(s: Seq<char>, i: int) -> int
    decreases s.len() - i,
{
    if 0 <= i < s.len() && is_decimal_digit(s[i]) {
        digits_end(s, i + 1)
    } else {
        i
    }
}

/// The position behind the longest run of digits and separators that
/// begins at `i`.
pub open spec fn separated_end(s: Seq<char>, i: int) -> int
    decreases s.len() - i,
{
    if 0 <= i < s.len() && (is_decimal_digit(s[i]) || is_separator(s[i])) {
        separated_end(s, i + 1)
    } else {
        i
    }
}

/// The position behind the longest run of name characters that begins at
/// `i`.
pub open spec fn name_end(s: Seq<char>, i: int) -> int
    decreases s.len() - i,
{
    if 0 <= i < s.len() && is_name_continue(s[i]) {
        name_end(s, i + 1)
    } else {
        i
    }
}

/// Whether position `i` of `s` holds the character `c`.
pub open spec fn has_char(s: Seq<char>, i: int, c: char) -> bool {
    0 <= i < s.len() && s[i] == c
}

/// The position behind the sign at `i`, or `i` where there is no sign.
pub open spec fn sign_end(s: Seq<char>, i: int) -> int {
    if 0 <= i < s.len() && is_sign(s[i]) {
        i + 1
    } else {
        i
    }
}

/// The position behind the digits before the decimal point of the number
/// that begins at `i`, sign included.
pub open spec fn whole_end(s: Seq<char>, i: int) -> int {
    digits_end(s, sign_end(s, i))
}

/// Whether the number that begins at `i` has a decimal point.
pub open spec fn has_point(s: Seq<char>, i: int) -> bool {
    has_char(s, whole_end(s, i), '.')
}

/// The position behind the mantissa of the number that begins at `i`: its
/// sign, its digits and, with a decimal point, the digits of its fraction.
pub open spec fn mantissa_end(s: Seq<char>, i: int) -> int {
    if has_point(s, i) {
        digits_end(s, whole_end(s, i) + 1)
    } else {
        whole_end(s, i)
    }
}

/// Whether a mantissa begins at `i`: digits, digits and a point, or a point
/// and digits, with or without a sign in front.
pub open spec fn has_mantissa(s: Seq<char>, i: int) -> bool {
    whole_end(s, i) > sign_end(s, i) || (has_point(s, i) && mantissa_end(s, i) > whole_end(s, i)
        + 1)
}

/// The position behind the exponent that begins at `m`: an exponent mark,
/// an optional sign and at least one digit; `m` where no exponent begins.
pub open spec fn exponent_end(s: Seq<char>, m: int) -> int {
    if 0 <= m < s.len() && is_exponent_mark(s[m]) && digits_end(s, sign_end(s, m + 1)) > sign_end(
        s,
        m + 1,
    ) {
        digits_end(s, sign_end(s, m + 1))
    } else {
        m
    }
}

/// The position behind the longest numeric literal that begins at `i`, if
/// one does: a mantissa and, where one follows, an exponent.
pub open spec fn number_end(s: Seq<char>, i: int) -> Option<int> {
    if has_mantissa(s, i) {
        Some(exponent_end(s, mantissa_end(s, i)))
    } else {
        None
    }
}

/// The position behind the longest integer literal that begins at `i`, if
/// one does: a digit, then digits and separators, with or without a sign in
/// front.
pub open spec fn integer_end(s: Seq<char>, i: int) -> Option<int> {
    let d = sign_end(s, i);
    if 0 <= d < s.len() && is_decimal_digit(s[d]) {
        Some(separated_end(s, d + 1))
    } else {
        None
    }
}

/// A run of digits lies within the text, holds digits only, and is not
/// followed by a digit.
pub proof fn lemma_digits_end(s: Seq<char>, i: int)
    requires
        0 <= i <= s.len(),
    ensures
        i <= digits_end(s, i) <= s.len(),
        forall|j: int| i <= j < digits_end(s, i) ==> is_decimal_digit(#[trigger] s[j]),
        digits_end(s, i) < s.len() ==> !is_decimal_digit(s[digits_end(s, i)]),
    decreases s.len() - i,
{
    if i < s.len() && is_decimal_digit(s[i]) {
        lemma_digits_end(s, i + 1);
    }
}

/// A run of digits and separators lies within the text, holds digits and
/// separators only, is not followed by either, and reaches at least as far
/// as the run of digits from the same position.
pub proof fn lemma_separated_end(s: Seq<char>, i: int)
    requires
        0 <= i <= s.len(),
    ensures
        i <= separated_end(s, i) <= s.len(),
        forall|j: int|
            i <= j < separated_end(s, i) ==> is_decimal_digit(#[trigger] s[j]) || is_separator(
                s[j],
            ),
        separated_end(s, i) < s.len() ==> !is_decimal_digit(s[separated_end(s, i)])
            && !is_separator(s[separated_end(s, i)]),
        digits_end(s, i) <= separated_end(s, i),
    decreases s.len() - i,
{
    if i < s.len() && (is_decimal_digit(s[i]) || is_separator(s[i])) {
        lemma_separated_end(s, i + 1);
    }
}

/// A run of name characters lies within the text, holds name characters
/// only, and is not followed by one.
pub proof fn lemma_name_end(s: Seq<char>, i: int)
    requires
        0 <= i <= s.len(),
    ensures
        i <= name_end(s, i) <= s.len(),
        forall|j: int| i <= j < name_end(s, i) ==> is_name_continue(#[trigger] s[j]),
        name_end(s, i) < s.len() ==> !is_name_continue(s[name_end(s, i)]),
    decreases s.len() - i,
{
    if i < s.len() && is_name_continue(s[i]) {
        lemma_name_end(s, i + 1);
    }
}

/// The position behind the longest run of digits that begins at `i`.
pub fn scan_digits(chars: &Vec<char>, i: usize) -> (end: usize)
    requires
        i <= chars.len(),
    ensures
        end == digits_end(chars@, i as int),
        i <= end <= chars.len(),
{
    let mut end: usize = i;
    while end < chars.len() && decimal_digit(chars[end])
        invariant
            i <= end <= chars.len(),
            digits_end(chars@, i as int) == digits_end(chars@, end as int),
        decreases chars.len() - end,
    {
        end = end + 1;
    }
    end
}

/// The position behind the longest run of digits and separators that
/// begins at `i`.
pub fn scan_separated(chars: &Vec<char>, i: usize) -> (end: usize)
    requires
        i <= chars.len(),
    ensures
        end == separated_end(chars@, i as int),
        i <= end <= chars.len(),
{
    let mut end: usize = i;
    while end < chars.len() && (decimal_digit(chars[end]) || chars[end] == '_')
        invariant
            i <= end <= chars.len(),
            separated_end(chars@, i as int) == separated_end(chars@, end as int),
        decreases chars.len() - end,
    {
        end = end + 1;
    }
    end
}

/// The position behind the longest integer literal that begins at `i`;
/// nothing where no integer literal begins at `i`.
pub fn scan_integer(chars: &Vec<char>, i: usize) -> (r: Option<usize>)
    requires
        i < chars.len(),
    ensures
        match r {
            Some(end) => integer_end(chars@, i as int) == Some(end as int) && i < end
                <= chars.len(),
            None => integer_end(chars@, i as int) is None,
        },
{
    let d = skip_sign(chars, i);
    if d < chars.len() && decimal_digit(chars[d]) {
        Some(scan_separated(chars, d + 1))
    } else {
        None
    }
}

/// The position behind the longest run of name characters that begins at
/// `i`.
pub fn scan_name(chars: &Vec<char>, i: usize) -> (end: usize)
    requires
        i <= chars.len(),
    ensures
        end == name_end(chars@, i as int),
        i <= end <= chars.len(),
{
    let mut end: usize = i;
    while end < chars.len() && name_continue(chars[end])
        invariant
            i <= end <= chars.len(),
            name_end(chars@, i as int) == name_end(chars@, end as int),
        decreases chars.len() - end,
    {
        end = end + 1;
    }
    end
}

/// The position behind the sign at `i`, or `i` where there is no sign.
pub fn skip_sign(chars: &Vec<char>, i: usize) -> (end: usize)
    requires
        i <= chars.len(),
    ensures
        end == sign_end(chars@, i as int),
        i <= end <= chars.len(),
{
    if i < chars.len() && sign(chars[i]) {
        i + 1
    } else {
        i
    }
}

/// The position behind the longest numeric literal that begins at `i`;
/// nothing where no numeric literal begins at `i`.
pub fn scan_number(chars: &Vec<char>, i: usize) -> (r: Option<usize>)
    requires
        i < chars.len(),
    ensures
        match r {
            Some(end) => number_end(chars@, i as int) == Some(end as int) && i < end
                <= chars.len(),
            None => number_end(chars@, i as int) is None,
        },
{
    let k = skip_sign(chars, i);
    let a = scan_digits(chars, k);
    let point = a < chars.len() && chars[a] == '.';
    let b = if point {
        scan_digits(chars, a + 1)
    } else {
        a
    };
    if !(a > k || (point && b > a + 1)) {
        return None;
    }
    let mut end: usize = b;
    if b < chars.len() && (chars[b] == 'e' || chars[b] == 'E') {
        let d = skip_sign(chars, b + 1);
        let x = scan_digits(chars, d);
        if x > d {
            end = x;
        }
    }
    Some(end)
}

/// The characters of `text`.
pub fn chars_of(text: &str) -> (chars: Vec<char>)
    ensures
        chars@ == text@,
{
    broadcast use vstd::string::group_string_axioms;

    let mut chars: Vec<char> = Vec::new();
    for c in it: text.chars()
        invariant
            it.seq() == text@,
            chars@ =~= it.seq().take(it.index()),
    {
        chars.push(c);
    }
    assert(chars@ =~= text@);
    chars
}

/// The characters of `chars` from `from` up to `to`.
pub fn copy_range(chars: &Vec<char>, from: usize, to: usize) -> (part: Vec<char>)
    requires
        from <= to <= chars.len(),
    ensures
        part@ == chars@.subrange(from as int, to as int),
{
    let mut part: Vec<char> = Vec::new();
    let mut i: usize = from;
    while i < to
        invariant
            from <= i <= to <= chars.len(),
            part@ =~= chars@.subrange(from as int, i as int),
        decreases to - i,
    {
        part.push(chars[i]);
        i = i + 1;
    }
    part
}

/// `String::push`: the string afterwards is the string before with `c` at
/// its end.
pub assume_specification[ String::push ](s: &mut String, c: char)
    ensures
        final(s)@ == old(s)@.push(c),
;

/// The string that holds the characters of `chars`.
pub fn string_of(chars: &Vec<char>) -> (s: String)
    ensures
        s@ == chars@,
{
    let mut s = String::new();
    let mut i: usize = 0;
    while i < chars.len()
        invariant
            i <= chars.len(),
            s@ =~= chars@.take(i as int),
        decreases chars.len() - i,
    {
        s.push(chars[i]);
        i = i + 1;
    }
    assert(chars@.take(chars.len() as int) =~= chars@);
    s
}

/// The number of bytes that `c` takes in UTF-8.
pub open spec fn utf8_width(c: char) -> nat {
    encode_scalar(c as u32).len()
}

/// The byte offset at which character `i` of `s` begins in the UTF-8
/// encoding of `s`; for `i == s.len()`, the length of the encoding.
pub open spec fn byte_offset(s: Seq<char>, i: int) -> nat {
    encode_utf8(s.take(i)).len()
}

/// The number of bytes that `c` takes in UTF-8.
pub fn char_width(c: char) -> (w: usize)
    ensures
        w == utf8_width(c),
        1 <= w <= 4,
{
    let v: u32 = c as u32;
    if v <= 0x7F {
        1
    } else if v <= 0x7FF {
        2
    } else if v <= 0xFFFF {
        3
    } else {
        4
    }
}

/// The encoding of a concatenation is the concatenation of the encodings.
pub proof fn lemma_encode_concat(a: Seq<char>, b: Seq<char>)
    ensures
        encode_utf8(a + b) == encode_utf8(a) + encode_utf8(b),
    decreases a.len(),
{
    if a.len() == 0 {
        assert(a + b =~= b);
        assert(encode_utf8(a) =~= Seq::<u8>::empty());
        assert(encode_utf8(a) + encode_utf8(b) =~= encode_utf8(b));
    } else {
        lemma_encode_concat(a.drop_first(), b);
        assert((a + b).drop_first() =~= a.drop_first() + b);
        assert((a + b)[0] == a[0]);
        assert(encode_utf8(a + b) =~= encode_scalar(a[0] as u32) + (encode_utf8(a.drop_first())
            + encode_utf8(b)));
        assert(encode_utf8(a + b) =~= encode_utf8(a) + encode_utf8(b));
    }
}

/// Each character moves the byte offset forward by its own width.
pub proof fn lemma_byte_offset_step(s: Seq<char>, i: int)
    requires
        0 <= i < s.len(),
    ensures
        byte_offset(s, i + 1) == byte_offset(s, i) + utf8_width(s[i]),
        byte_offset(s, i + 1) > byte_offset(s, i),
{
    let one = seq![s[i]];
    assert(s.take(i + 1) =~= s.take(i) + one);
    lemma_encode_concat(s.take(i), one);
    assert(one.drop_first() =~= Seq::<char>::empty());
    assert(encode_utf8(one.drop_first()) =~= Seq::<u8>::empty());
    assert(encode_utf8(one) =~= encode_scalar(s[i] as u32));
}

/// Byte offsets grow with character positions and end at the length of the
/// encoding.
pub proof fn lemma_byte_offset_monotonic(s: Seq<char>, i: int, j: int)
    requires
        0 <= i <= j <= s.len(),
    ensures
        byte_offset(s, i) <= byte_offset(s, j),
        i < j ==> byte_offset(s, i) < byte_offset(s, j),
        byte_offset(s, 0) == 0,
        byte_offset(s, s.len() as int) == encode_utf8(s).len(),
    decreases j - i,
{
    assert(s.take(0) =~= Seq::<char>::empty());
    assert(s.take(s.len() as int) =~= s);
    if i < j {
        lemma_byte_offset_monotonic(s, i, j - 1);
        lemma_byte_offset_step(s, j - 1);
    }
}

} // verus!
