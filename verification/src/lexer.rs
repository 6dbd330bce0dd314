//! The lexer: from source text to tokens.
//!
//! At each position that holds no space, the token is the longest stretch
//! of text that has the shape of a token. An integer literal is a digit
//! followed by digits and separators `_`, which do not count for its value;
//! any other numeric literal has a decimal point, an exponent or both, and
//! no separators. A sign is part of the literal that it stands in front of,
//! and an operator only where no literal begins with it. A character that
//! begins no token is an error token of its own, and the lexer goes on
//! behind it.

use crate::decimal::{decimal_literal, Decimal};
use crate::literal::{integer_literal, read_integer};
use crate::span::Span;
use crate::text::{
    byte_offset, char_width, chars_of, copy_range, integer_end, is_decimal_digit,
    is_name_continue, is_name_start, is_separator, lemma_byte_offset_monotonic,
    lemma_byte_offset_step, lemma_digits_end, lemma_name_end, lemma_separated_end, mantissa_end,
    name_end, name_start, number_end, scan_integer, scan_name, scan_number, sign_end, string_of,
    whole_end,
};
use crate::token::{lexemes, Lexeme, LexingError, Token};
use vstd::prelude::*;
use vstd::slice::*;
use vstd::string::*;
use vstd::utf8::*;

verus! {

/// The token that the single character `c` is, where `c` begins neither a
/// numeric literal nor a name.
pub open spec fn punctuation(c: char) -> Lexeme {
    if c == '.' {
        Lexeme::Dot
    } else if c == '+' {
        Lexeme::Plus
    } else if c == '-' {
        Lexeme::Minus
    } else if c == '*' {
        Lexeme::Multiply
    } else if c == '/' {
        Lexeme::Divide
    } else if c == '^' {
        Lexeme::Power
    } else if c == '(' {
        Lexeme::LParen
    } else if c == ')' {
        Lexeme::RParen
    } else if c == ',' {
        Lexeme::Comma
    } else {
        Lexeme::Error(LexingError::InvalidToken)
    }
}

/// Whether the token that begins at `i` is an integer literal: one begins
/// there, and no numeric literal that begins there is longer.
pub open spec fn takes_integer(s: Seq<char>, i: int) -> bool {
    integer_end(s, i) matches Some(whole) && (number_end(s, i) matches Some(number) ==> whole
        >= number)
}

/// The position behind the token that begins at `i`: the longest integer or
/// numeric literal, else the longest name, else the one character at `i`.
pub open spec fn token_end(s: Seq<char>, i: int) -> int {
    if takes_integer(s, i) {
        integer_end(s, i)->0
    } else {
        match number_end(s, i) {
            Some(end) => end,
            None => {
                if is_name_start(s[i]) {
                    name_end(s, i + 1)
                } else {
                    i + 1
                }
            },
        }
    }
}

/// The token that begins at `i`. Where an integer literal and another
/// numeric literal are of one length, the token is an integer. A literal
/// that spells no number that can be held, be it for a digit outside ASCII
/// or for its size, is an error. A percent sign is a name of its own.
pub open spec fn token_at(s: Seq<char>, i: int) -> Lexeme {
    let text = s.subrange(i, token_end(s, i));
    if takes_integer(s, i) {
        match integer_literal(text) {
            Some(value) => Lexeme::Integer(value),
            None => Lexeme::Error(LexingError::ParseIntError),
        }
    } else {
        match number_end(s, i) {
            Some(end) => match decimal_literal(text) {
                Some(value) => Lexeme::Float(value),
                None => Lexeme::Error(LexingError::ParseFloatError),
            },
            None => {
                if is_name_start(s[i]) || s[i] == '%' {
                    Lexeme::Name(text)
                } else {
                    punctuation(s[i])
                }
            },
        }
    }
}

/// The bytes that the characters of `s` from `from` up to `to` take in the
/// UTF-8 encoding of `s`.
pub open spec fn span_of(s: Seq<char>, from: int, to: int) -> Span {
    Span { start: byte_offset(s, from) as usize, end: byte_offset(s, to) as usize }
}

/// Every token takes at least one character and ends within the text.
pub proof fn lemma_token_end(s: Seq<char>, i: int)
    requires
        0 <= i < s.len(),
    ensures
        i < token_end(s, i) <= s.len(),
{
    lemma_digits_end(s, sign_end(s, i));
    if whole_end(s, i) < s.len() {
        lemma_digits_end(s, whole_end(s, i) + 1);
    }
    let m = mantissa_end(s, i);
    if 0 <= m < s.len() {
        lemma_digits_end(s, sign_end(s, m + 1));
    }
    if sign_end(s, i) < s.len() {
        lemma_separated_end(s, sign_end(s, i) + 1);
    }
    lemma_name_end(s, i + 1);
}

/// The tokens of `s` from position `i` on, each with its span. Spaces
/// separate tokens and belong to none.
pub open spec fn tokens_from(s: Seq<char>, i: int) -> Seq<(Lexeme, Span)>
    decreases s.len() - i,
{
    if !(0 <= i < s.len()) {
        Seq::empty()
    } else if s[i] == ' ' {
        tokens_from(s, i + 1)
    } else {
        proof {
            lemma_token_end(s, i);
        }
        seq![(token_at(s, i), span_of(s, i, token_end(s, i)))] + tokens_from(s, token_end(s, i))
    }
}

/// The tokens of the text `s`, each with its span.
pub open spec fn tokenize(s: Seq<char>) -> Seq<(Lexeme, Span)> {
    tokens_from(s, 0)
}

/// The stretches of `s` that are its tokens from position `i` on: for each
/// token the position of its first character and the position behind its
/// last.
pub open spec fn ranges_from(s: Seq<char>, i: int) -> Seq<(int, int)>
    decreases s.len() - i,
{
    if !(0 <= i < s.len()) {
        Seq::empty()
    } else if s[i] == ' ' {
        ranges_from(s, i + 1)
    } else {
        proof {
            lemma_token_end(s, i);
        }
        seq![(i, token_end(s, i))] + ranges_from(s, token_end(s, i))
    }
}

/// Whether `s` holds nothing but spaces from `from` up to `to`.
pub open spec fn blank(s: Seq<char>, from: int, to: int) -> bool {
    forall|j: int| from <= j < to ==> s[j] == ' '
}

/// The position of the first character of `s` that is no space; the length
/// of `s` where there is none.
pub open spec fn first_mark(s: Seq<char>) -> int
    decreases s.len(),
{
    if s.len() > 0 && s[0] == ' ' {
        1 + first_mark(s.drop_first())
    } else {
        0
    }
}

/// The position behind the last character of `s` that is no space; zero
/// where there is none.
pub open spec fn last_mark(s: Seq<char>) -> int
    decreases s.len(),
{
    if s.len() > 0 && s.last() == ' ' {
        last_mark(s.drop_last())
    } else {
        s.len() as int
    }
}

/// No token holds a space.
pub proof fn lemma_token_holds_no_space(s: Seq<char>, i: int)
    requires
        0 <= i < s.len(),
        s[i] != ' ',
    ensures
        forall|j: int| i <= j < token_end(s, i) ==> s[j] != ' ',
{
    lemma_token_end(s, i);
    let k = sign_end(s, i);
    let a = whole_end(s, i);
    let m = mantissa_end(s, i);
    lemma_digits_end(s, k);
    if a < s.len() {
        lemma_digits_end(s, a + 1);
    }
    if 0 <= m < s.len() {
        lemma_digits_end(s, sign_end(s, m + 1));
    }
    if k < s.len() {
        lemma_separated_end(s, k + 1);
    }
    lemma_name_end(s, i + 1);
    assert forall|j: int| i <= j < token_end(s, i) implies s[j] != ' ' by {
        if takes_integer(s, i) {
            if j > k {
                assert(is_decimal_digit(s[j]) || is_separator(s[j]));
            }
        } else {
            match number_end(s, i) {
                Some(end) => {
                    if j < k {
                    } else if j < a {
                        assert(is_decimal_digit(s[j]));
                    } else if j < m {
                        if j > a {
                            assert(is_decimal_digit(s[j]));
                        }
                    } else if j == m {
                    } else if j < sign_end(s, m + 1) {
                    } else {
                        assert(is_decimal_digit(s[j]));
                    }
                },
                None => {
                    if j > i {
                        assert(is_name_continue(s[j]));
                    }
                },
            }
        }
    }
}

/// The tokens of a text are its stretches between spaces, cut where the
/// longest token ends, and nothing else: each token begins at a character
/// that is no space and takes at least that character; the tokens follow
/// one another in the order of the text; and what lies before the first,
/// between two of them and behind the last is spaces only.
pub proof fn lemma_ranges(s: Seq<char>, i: int)
    requires
        0 <= i <= s.len(),
    ensures
        forall|k: int|
            0 <= k < ranges_from(s, i).len() ==> {
                let r = #[trigger] ranges_from(s, i)[k];
                i <= r.0 < r.1 <= s.len() && s[r.0] != ' ' && r.1 == token_end(s, r.0)
            },
        forall|k: int|
            0 <= k < ranges_from(s, i).len() - 1 ==> (#[trigger] ranges_from(s, i)[k]).1
                <= ranges_from(s, i)[k + 1].0 && blank(
                s,
                ranges_from(s, i)[k].1,
                ranges_from(s, i)[k + 1].0,
            ),
        ranges_from(s, i).len() == 0 ==> blank(s, i, s.len() as int),
        ranges_from(s, i).len() > 0 ==> blank(s, i, ranges_from(s, i)[0].0) && blank(
            s,
            ranges_from(s, i).last().1,
            s.len() as int,
        ),
    decreases s.len() - i,
{
    let all = ranges_from(s, i);
    if i == s.len() {
    } else if s[i] == ' ' {
        lemma_ranges(s, i + 1);
    } else {
        lemma_token_end(s, i);
        let end = token_end(s, i);
        let rest = ranges_from(s, end);
        lemma_ranges(s, end);
        assert(all =~= seq![(i, end)] + rest);
        assert forall|k: int| 0 <= k < all.len() implies {
            let r = #[trigger] all[k];
            i <= r.0 < r.1 <= s.len() && s[r.0] != ' ' && r.1 == token_end(s, r.0)
        } by {
            if k > 0 {
                assert(all[k] == rest[k - 1]);
            }
        }
        assert forall|k: int| 0 <= k < all.len() - 1 implies (#[trigger] all[k]).1 <= all[k + 1].0
            && blank(s, all[k].1, all[k + 1].0) by {
            assert(all[k + 1] == rest[k]);
            if k > 0 {
                assert(all[k] == rest[k - 1]);
            }
        }
        if rest.len() > 0 {
            assert(all.last() == rest.last());
        }
    }
}

/// Each token of a text is the token that begins at the first character of
/// its stretch, with the bytes of that stretch for its span.
pub proof fn lemma_tokens_follow_ranges(s: Seq<char>, i: int)
    requires
        0 <= i <= s.len(),
    ensures
        tokens_from(s, i).len() == ranges_from(s, i).len(),
        forall|k: int|
            0 <= k < ranges_from(s, i).len() ==> {
                let r = #[trigger] ranges_from(s, i)[k];
                tokens_from(s, i)[k] == (token_at(s, r.0), span_of(s, r.0, r.1))
            },
    decreases s.len() - i,
{
    let all = ranges_from(s, i);
    if i == s.len() {
    } else if s[i] == ' ' {
        lemma_tokens_follow_ranges(s, i + 1);
    } else {
        lemma_token_end(s, i);
        let end = token_end(s, i);
        let rest = ranges_from(s, end);
        lemma_tokens_follow_ranges(s, end);
        assert(all =~= seq![(i, end)] + rest);
        assert forall|k: int| 0 <= k < all.len() implies {
            let r = #[trigger] all[k];
            tokens_from(s, i)[k] == (token_at(s, r.0), span_of(s, r.0, r.1))
        } by {
            if k > 0 {
                assert(all[k] == rest[k - 1]);
                assert(tokens_from(s, i)[k] == tokens_from(s, end)[k - 1]);
            }
        }
    }
}

/// The first character that is no space lies behind spaces only.
pub proof fn lemma_first_mark(s: Seq<char>, at: int)
    requires
        0 <= at <= s.len(),
        blank(s, 0, at),
        at < s.len() ==> s[at] != ' ',
    ensures
        first_mark(s) == at,
    decreases s.len(),
{
    if at > 0 {
        let rest = s.drop_first();
        assert(s[0] == ' ');
        assert forall|j: int| 0 <= j < at - 1 implies rest[j] == ' ' by {
            assert(rest[j] == s[j + 1]);
        }
        if at - 1 < rest.len() {
            assert(rest[at - 1] == s[at]);
        }
        lemma_first_mark(rest, at - 1);
    }
}

/// The last character that is no space lies in front of spaces only.
pub proof fn lemma_last_mark(s: Seq<char>, at: int)
    requires
        0 <= at <= s.len(),
        blank(s, at, s.len() as int),
        at > 0 ==> s[at - 1] != ' ',
    ensures
        last_mark(s) == at,
    decreases s.len(),
{
    if at < s.len() {
        let front = s.drop_last();
        assert(s.last() == ' ');
        assert forall|j: int| at <= j < front.len() implies front[j] == ' ' by {
            assert(front[j] == s[j]);
        }
        if at > 0 {
            assert(front[at - 1] == s[at - 1]);
        }
        lemma_last_mark(front, at);
    }
}

/// The tokens of a text reach from its first character that is no space to
/// its last: the first token begins at the one and the last token ends
/// behind the other. A text of spaces only has no tokens.
pub proof fn lemma_tokens_reach(s: Seq<char>)
    ensures
        tokenize(s).len() == 0 <==> first_mark(s) == s.len(),
        tokenize(s).len() > 0 ==> tokenize(s).first().1.start == byte_offset(s, first_mark(s))
            as usize && tokenize(s).last().1.end == byte_offset(s, last_mark(s)) as usize,
{
    lemma_ranges(s, 0);
    lemma_tokens_follow_ranges(s, 0);
    let r = ranges_from(s, 0);
    if r.len() == 0 {
        lemma_first_mark(s, s.len() as int);
    } else {
        let first = r[0];
        let last = r[r.len() - 1];
        lemma_first_mark(s, first.0);
        lemma_token_holds_no_space(s, last.0);
        lemma_last_mark(s, last.1);
    }
}

/// The spans of the tokens of a text lie within the text, each of them
/// holds at least one byte, and none begins before the one in front of it
/// has ended.
pub proof fn lemma_spans_in_order(s: Seq<char>)
    requires
        encode_utf8(s).len() <= usize::MAX,
    ensures
        forall|k: int|
            0 <= k < tokenize(s).len() ==> (#[trigger] tokenize(s)[k]).1.start < tokenize(s)[k].1.end
                <= encode_utf8(s).len(),
        forall|k: int|
            0 <= k < tokenize(s).len() - 1 ==> (#[trigger] tokenize(s)[k]).1.end <= tokenize(
                s,
            )[k + 1].1.start,
{
    lemma_ranges(s, 0);
    lemma_tokens_follow_ranges(s, 0);
    let r = ranges_from(s, 0);
    let t = tokenize(s);
    assert forall|k: int| 0 <= k < t.len() implies (#[trigger] t[k]).1.start < t[k].1.end
        <= encode_utf8(s).len() by {
        let x = r[k];
        lemma_byte_offset_monotonic(s, x.0, x.1);
        lemma_byte_offset_monotonic(s, x.1, s.len() as int);
    }
    assert forall|k: int| 0 <= k < t.len() - 1 implies (#[trigger] t[k]).1.end <= t[k + 1].1.start by {
        let x = r[k];
        let y = r[k + 1];
        lemma_byte_offset_monotonic(s, x.1, y.0);
        lemma_byte_offset_monotonic(s, y.0, s.len() as int);
    }
}

/// The token that the single character `c` is, where `c` begins neither a
/// numeric literal nor a name.
fn punctuation_of(c: char) -> (token: Token)
    ensures
        token@ == punctuation(c),
{
    if c == '.' {
        Token::Dot
    } else if c == '+' {
        Token::Plus
    } else if c == '-' {
        Token::Minus
    } else if c == '*' {
        Token::Multiply
    } else if c == '/' {
        Token::Divide
    } else if c == '^' {
        Token::Power
    } else if c == '(' {
        Token::LParen
    } else if c == ')' {
        Token::RParen
    } else if c == ',' {
        Token::Comma
    } else {
        Token::Error(LexingError::InvalidToken)
    }
}

/// Reads the token that begins at `i`, and gives it with the position
/// behind it.
fn read_token(chars: &Vec<char>, i: usize) -> (r: (Token, usize))
    requires
        i < chars.len(),
    ensures
        r.0@ == token_at(chars@, i as int),
        r.1 == token_end(chars@, i as int),
        i < r.1 <= chars.len(),
{
    proof {
        lemma_token_end(chars@, i as int);
    }
    let number = scan_number(chars, i);
    let whole = match scan_integer(chars, i) {
        Some(end) => match number {
            Some(other) => if end >= other {
                Some(end)
            } else {
                None
            },
            None => Some(end),
        },
        None => None,
    };
    assert(whole is Some <==> takes_integer(chars@, i as int));
    match whole {
        Some(end) => {
            let text = copy_range(chars, i, end);
            match read_integer(&text) {
                Some(value) => (Token::Integer(value), end),
                None => (Token::Error(LexingError::ParseIntError), end),
            }
        },
        None => match number {
            Some(end) => {
                let text = copy_range(chars, i, end);
                match Decimal::from_literal(&text) {
                    Some(value) => (Token::Float(value), end),
                    None => (Token::Error(LexingError::ParseFloatError), end),
                }
            },
            None => {
                let c = chars[i];
                if name_start(c) {
                    let end = scan_name(chars, i + 1);
                    (Token::Name(string_of(&copy_range(chars, i, end))), end)
                } else if c == '%' {
                    (Token::Name(string_of(&copy_range(chars, i, i + 1))), i + 1)
                } else {
                    (punctuation_of(c), i + 1)
                }
            },
        },
    }
}

/// The byte offset of position `to`, given that of position `from`.
fn offset_behind(chars: &Vec<char>, from: usize, to: usize, at: usize, total: usize) -> (r: usize)
    requires
        from <= to <= chars.len(),
        at == byte_offset(chars@, from as int),
        total == byte_offset(chars@, chars.len() as int),
    ensures
        r == byte_offset(chars@, to as int),
        at <= r <= total,
        from < to ==> at < r,
{
    let mut r: usize = at;
    let mut j: usize = from;
    proof {
        lemma_byte_offset_monotonic(chars@, from as int, chars.len() as int);
    }
    while j < to
        invariant
            from <= j <= to <= chars.len(),
            r == byte_offset(chars@, j as int),
            at <= r <= total,
            from < j ==> at < r,
            total == byte_offset(chars@, chars.len() as int),
        decreases to - j,
    {
        proof {
            lemma_byte_offset_step(chars@, j as int);
            lemma_byte_offset_monotonic(chars@, j + 1, chars.len() as int);
        }
        r = r + char_width(chars[j]);
        j = j + 1;
    }
    r
}

/// Splits the text into its tokens, each with the span of bytes that it
/// takes in the text.
pub fn lex(input: &str) -> (tokens: Vec<(Token, Span)>)
    ensures
        lexemes(tokens@) == tokenize(input@),
{
    broadcast use vstd::slice::group_slice_axioms;

    let chars = chars_of(input);
    let total = input.as_bytes().len();
    proof {
        lemma_byte_offset_monotonic(chars@, 0, chars.len() as int);
    }
    let mut tokens: Vec<(Token, Span)> = Vec::new();
    let mut i: usize = 0;
    let mut at: usize = 0;
    assert(lexemes(tokens@) =~= Seq::<(Lexeme, Span)>::empty());
    while i < chars.len()
        invariant
            i <= chars.len(),
            at == byte_offset(chars@, i as int),
            total == byte_offset(chars@, chars.len() as int),
            tokenize(chars@) =~= lexemes(tokens@) + tokens_from(chars@, i as int),
        decreases chars.len() - i,
    {
        if chars[i] == ' ' {
            at = offset_behind(&chars, i, i + 1, at, total);
            i = i + 1;
        } else {
            let (token, end) = read_token(&chars, i);
            let stop = offset_behind(&chars, i, end, at, total);
            let ghost before = tokens@;
            let ghost lexeme = token@;
            let span = Span { start: at, end: stop };
            tokens.push((token, span));
            proof {
                assert(lexemes(tokens@) =~= lexemes(before).push((lexeme, span)));
                assert(span == span_of(chars@, i as int, end as int));
            }
            i = end;
            at = stop;
        }
    }
    assert(lexemes(tokens@) + tokens_from(chars@, chars.len() as int) =~= lexemes(tokens@));
    tokens
}

} // verus!
