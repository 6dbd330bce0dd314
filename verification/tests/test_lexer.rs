use caqtus_parsing_rs::{lex, Decimal, LexingError, Span, Token};

#[test]
fn lexes_operators_and_punctuation() {
    let tokens = lex(". + - * / ^ ( ) ,");
    let expected = vec![
        (Token::Dot, Span::new(0, 1)),
        (Token::Plus, Span::new(2, 3)),
        (Token::Minus, Span::new(4, 5)),
        (Token::Multiply, Span::new(6, 7)),
        (Token::Divide, Span::new(8, 9)),
        (Token::Power, Span::new(10, 11)),
        (Token::LParen, Span::new(12, 13)),
        (Token::RParen, Span::new(14, 15)),
        (Token::Comma, Span::new(16, 17)),
    ];
    assert_eq!(tokens, expected);
}

#[test]
fn empty_and_blank_text_have_no_tokens() {
    assert_eq!(lex(""), vec![]);
    assert_eq!(lex("    "), vec![]);
}

#[test]
fn sign_belongs_to_the_number_behind_it() {
    assert_eq!(
        lex("1+2"),
        vec![
            (Token::Integer(1), Span::new(0, 1)),
            (Token::Integer(2), Span::new(1, 3)),
        ]
    );
    assert_eq!(
        lex("1 - 2"),
        vec![
            (Token::Integer(1), Span::new(0, 1)),
            (Token::Minus, Span::new(2, 3)),
            (Token::Integer(2), Span::new(4, 5)),
        ]
    );
    assert_eq!(lex("-45"), vec![(Token::Integer(-45), Span::new(0, 3))]);
    assert_eq!(
        lex("+.5"),
        vec![(Token::Float(Decimal::parse("0.5").unwrap()), Span::new(0, 3))]
    );
    assert_eq!(
        lex("-x"),
        vec![
            (Token::Minus, Span::new(0, 1)),
            (Token::Name("x".to_string()), Span::new(1, 2)),
        ]
    );
}

#[test]
fn integer_wins_over_float_on_the_same_text() {
    assert_eq!(lex("45"), vec![(Token::Integer(45), Span::new(0, 2))]);
    assert_eq!(
        lex("45."),
        vec![(Token::Float(Decimal::from_integer(45)), Span::new(0, 3))]
    );
    assert_eq!(
        lex("45e1"),
        vec![(Token::Float(Decimal::from_integer(450)), Span::new(0, 4))]
    );
}

#[test]
fn longest_number_is_taken() {
    // an exponent mark without digits behind it is no part of the number
    assert_eq!(
        lex("1e"),
        vec![
            (Token::Integer(1), Span::new(0, 1)),
            (Token::Name("e".to_string()), Span::new(1, 2)),
        ]
    );
    assert_eq!(
        lex("1e+"),
        vec![
            (Token::Integer(1), Span::new(0, 1)),
            (Token::Name("e".to_string()), Span::new(1, 2)),
            (Token::Plus, Span::new(2, 3)),
        ]
    );
    assert_eq!(
        lex("1.5E-3x"),
        vec![
            (Token::Float(Decimal::parse("0.0015").unwrap()), Span::new(0, 6)),
            (Token::Name("x".to_string()), Span::new(6, 7)),
        ]
    );
    assert_eq!(
        lex("1..2"),
        vec![
            (Token::Float(Decimal::from_integer(1)), Span::new(0, 2)),
            (Token::Float(Decimal::parse("0.2").unwrap()), Span::new(2, 4)),
        ]
    );
}

#[test]
fn names_take_letters_digits_and_underscores() {
    assert_eq!(
        lex("_a1 b_2"),
        vec![
            (Token::Name("_a1".to_string()), Span::new(0, 3)),
            (Token::Name("b_2".to_string()), Span::new(4, 7)),
        ]
    );
    assert_eq!(
        lex("a%"),
        vec![
            (Token::Name("a".to_string()), Span::new(0, 1)),
            (Token::Name("%".to_string()), Span::new(1, 2)),
        ]
    );
    assert_eq!(
        lex("%%"),
        vec![
            (Token::Name("%".to_string()), Span::new(0, 1)),
            (Token::Name("%".to_string()), Span::new(1, 2)),
        ]
    );
}

#[test]
fn spans_count_bytes() {
    assert_eq!(
        lex("α + β1"),
        vec![
            (Token::Name("α".to_string()), Span::new(0, 2)),
            (Token::Plus, Span::new(3, 4)),
            (Token::Name("β1".to_string()), Span::new(5, 8)),
        ]
    );
    assert_eq!(
        lex("°C"),
        vec![(Token::Name("°C".to_string()), Span::new(0, 3))]
    );
    // the ohm sign belongs to the Greek script, the euro sign to none
    assert_eq!(
        lex("\u{2126}"),
        vec![(Token::Name("\u{2126}".to_string()), Span::new(0, 3))]
    );
    assert_eq!(
        lex("€1"),
        vec![
            (Token::Error(LexingError::InvalidToken), Span::new(0, 3)),
            (Token::Integer(1), Span::new(3, 4)),
        ]
    );
    assert_eq!(
        lex("\u{1D200}"),
        vec![(Token::Name("\u{1D200}".to_string()), Span::new(0, 4))]
    );
}

#[test]
fn greek_script_has_gaps() {
    // U+037E, the Greek question mark, is common to all scripts
    assert_eq!(
        lex("\u{37E}"),
        vec![(Token::Error(LexingError::InvalidToken), Span::new(0, 2))]
    );
    assert_eq!(
        lex("\u{3E2}"),
        vec![(Token::Error(LexingError::InvalidToken), Span::new(0, 2))]
    );
    assert_eq!(
        lex("\u{370}\u{3FF}"),
        vec![(Token::Name("\u{370}\u{3FF}".to_string()), Span::new(0, 4))]
    );
}

#[test]
fn lexer_goes_on_behind_an_error() {
    assert_eq!(
        lex("a $ b"),
        vec![
            (Token::Name("a".to_string()), Span::new(0, 1)),
            (Token::Error(LexingError::InvalidToken), Span::new(2, 3)),
            (Token::Name("b".to_string()), Span::new(4, 5)),
        ]
    );
    assert_eq!(
        lex("$$"),
        vec![
            (Token::Error(LexingError::InvalidToken), Span::new(0, 1)),
            (Token::Error(LexingError::InvalidToken), Span::new(1, 2)),
        ]
    );
    // only the space separates tokens
    assert_eq!(
        lex("a\tb"),
        vec![
            (Token::Name("a".to_string()), Span::new(0, 1)),
            (Token::Error(LexingError::InvalidToken), Span::new(1, 2)),
            (Token::Name("b".to_string()), Span::new(2, 3)),
        ]
    );
}

#[test]
fn integer_out_of_range_is_its_own_error() {
    assert_eq!(
        lex("123456789012345678901234567890"),
        vec![(Token::Error(LexingError::ParseIntError), Span::new(0, 30))]
    );
    assert_eq!(
        lex("9223372036854775807"),
        vec![(Token::Integer(i64::MAX), Span::new(0, 19))]
    );
    assert_eq!(
        lex("9223372036854775808"),
        vec![(Token::Error(LexingError::ParseIntError), Span::new(0, 19))]
    );
    assert_eq!(
        lex("-9223372036854775808"),
        vec![(Token::Integer(i64::MIN), Span::new(0, 20))]
    );
    assert_eq!(
        lex("-9223372036854775809"),
        vec![(Token::Error(LexingError::ParseIntError), Span::new(0, 20))]
    );
    assert_eq!(
        lex("000000000000000000000000000000000007"),
        vec![(Token::Integer(7), Span::new(0, 36))]
    );
}

#[test]
fn exponent_out_of_range_is_its_own_error() {
    assert_eq!(
        lex("1e99999999999999999999"),
        vec![(Token::Error(LexingError::ParseFloatError), Span::new(0, 22))]
    );
    assert_eq!(
        lex("1e-99999999999999999999999999"),
        vec![(Token::Error(LexingError::ParseFloatError), Span::new(0, 29))]
    );
    // zero is zero whatever its exponent
    assert_eq!(
        lex("0e99999999999999999999"),
        vec![(Token::Float(Decimal::from_integer(0)), Span::new(0, 22))]
    );
    assert_eq!(
        lex("1e9223372036854775807"),
        vec![(
            Token::Float(Decimal::parse("1e9223372036854775807").unwrap()),
            Span::new(0, 21)
        )]
    );
    assert_eq!(
        lex("10e9223372036854775807"),
        vec![(Token::Error(LexingError::ParseFloatError), Span::new(0, 22))]
    );
    assert_eq!(
        lex("0.1e-9223372036854775808"),
        vec![(Token::Error(LexingError::ParseFloatError), Span::new(0, 24))]
    );
}

#[test]
fn token_text_names_kind_and_content() {
    assert_eq!(Token::Integer(-5).to_string(), "Integer(-5)");
    assert_eq!(
        Token::Float(Decimal::parse("1.5").unwrap()).to_string(),
        "Float(1.5)"
    );
    assert_eq!(Token::Name("abc".to_string()).to_string(), "Name(abc)");
    assert_eq!(Token::Dot.to_string(), "Dot");
    assert_eq!(Token::Plus.to_string(), "Plus");
    assert_eq!(Token::Minus.to_string(), "Minus");
    assert_eq!(Token::Multiply.to_string(), "Multiply");
    assert_eq!(Token::Divide.to_string(), "Divide");
    assert_eq!(Token::Power.to_string(), "Power");
    assert_eq!(Token::LParen.to_string(), "LParen");
    assert_eq!(Token::RParen.to_string(), "RParen");
    assert_eq!(Token::Comma.to_string(), "Comma");
    assert_eq!(
        Token::Error(LexingError::InvalidToken).to_string(),
        "Error(InvalidToken)"
    );
    assert_eq!(
        Token::Error(LexingError::ParseIntError).to_string(),
        "Error(ParseIntError)"
    );
    assert_eq!(
        Token::Error(LexingError::ParseFloatError).to_string(),
        "Error(ParseFloatError)"
    );
    assert_eq!(LexingError::default(), LexingError::InvalidToken);
}

#[test]
fn tokens_compare_by_value() {
    assert_eq!(
        Token::Float(Decimal::parse("10").unwrap()),
        Token::Float(Decimal::parse("1.0e1").unwrap())
    );
    assert_ne!(Token::Integer(10), Token::Float(Decimal::from_integer(10)));
    assert_ne!(Token::Plus, Token::Minus);
    assert_eq!(Token::Name("a".to_string()).clone(), Token::Name("a".to_string()));
}

#[test]
fn spans_follow_one_another_within_the_text() {
    let text = "  f( 1.5 ,α.β ) ^ -2 $  ";
    let tokens = lex(text);
    assert_eq!(tokens.len(), 11);
    let mut at = 0;
    for (_, span) in tokens.iter() {
        assert!(at <= span.start);
        assert!(span.start < span.end);
        assert!(text.is_char_boundary(span.start));
        assert!(text.is_char_boundary(span.end));
        assert!(!text[span.start..span.end].contains(' '));
        assert!(text[at..span.start].chars().all(|c| c == ' '));
        at = span.end;
    }
    assert!(at <= text.len());
    assert!(text[at..].chars().all(|c| c == ' '));
}

#[test]
fn separators_stand_among_the_digits_of_an_integer() {
    assert_eq!(lex("1_000"), vec![(Token::Integer(1000), Span::new(0, 5))]);
    assert_eq!(
        lex("-1_000_000"),
        vec![(Token::Integer(-1_000_000), Span::new(0, 10))]
    );
    assert_eq!(lex("1__0_"), vec![(Token::Integer(10), Span::new(0, 5))]);
    assert_eq!(
        lex("9_223_372_036_854_775_808"),
        vec![(Token::Error(LexingError::ParseIntError), Span::new(0, 25))]
    );
    // a separator opens a name, not a number
    assert_eq!(lex("_1"), vec![(Token::Name("_1".to_string()), Span::new(0, 2))]);
    assert_eq!(
        lex("+_1"),
        vec![
            (Token::Plus, Span::new(0, 1)),
            (Token::Name("_1".to_string()), Span::new(1, 3)),
        ]
    );
    assert_eq!(
        lex("1_000 MHz"),
        vec![
            (Token::Integer(1000), Span::new(0, 5)),
            (Token::Name("MHz".to_string()), Span::new(6, 9)),
        ]
    );
}

#[test]
fn separators_stand_in_no_other_number() {
    // the longer of the integer and the other literal is the token
    assert_eq!(
        lex("1_0.5"),
        vec![
            (Token::Integer(10), Span::new(0, 3)),
            (Token::Float(Decimal::parse("0.5").unwrap()), Span::new(3, 5)),
        ]
    );
    assert_eq!(
        lex("1.5_0"),
        vec![
            (Token::Float(Decimal::parse("1.5").unwrap()), Span::new(0, 3)),
            (Token::Name("_0".to_string()), Span::new(3, 5)),
        ]
    );
    assert_eq!(
        lex("1e5_0"),
        vec![
            (Token::Float(Decimal::parse("1e5").unwrap()), Span::new(0, 3)),
            (Token::Name("_0".to_string()), Span::new(3, 5)),
        ]
    );
    assert_eq!(
        lex("1_e5"),
        vec![
            (Token::Integer(1), Span::new(0, 2)),
            (Token::Name("e5".to_string()), Span::new(2, 4)),
        ]
    );
    assert_eq!(
        lex("10e5"),
        vec![(Token::Float(Decimal::parse("10e5").unwrap()), Span::new(0, 4))]
    );
}

#[test]
fn digits_outside_ascii_spell_no_number() {
    assert_eq!(
        lex("١٢٣"),
        vec![(Token::Error(LexingError::ParseIntError), Span::new(0, 6))]
    );
    assert_eq!(
        lex("1٢"),
        vec![(Token::Error(LexingError::ParseIntError), Span::new(0, 3))]
    );
    assert_eq!(
        lex("-٣_0"),
        vec![(Token::Error(LexingError::ParseIntError), Span::new(0, 5))]
    );
    assert_eq!(
        lex("١.٥"),
        vec![(Token::Error(LexingError::ParseFloatError), Span::new(0, 5))]
    );
    assert_eq!(
        lex("1.5e٣"),
        vec![(Token::Error(LexingError::ParseFloatError), Span::new(0, 6))]
    );
    assert_eq!(
        lex(".５"),
        vec![(Token::Error(LexingError::ParseFloatError), Span::new(0, 4))]
    );
    // such a digit continues no name
    assert_eq!(
        lex("a٣"),
        vec![
            (Token::Name("a".to_string()), Span::new(0, 1)),
            (Token::Error(LexingError::ParseIntError), Span::new(1, 3)),
        ]
    );
    // a superscript two is no decimal digit
    assert_eq!(
        lex("\u{B2}"),
        vec![(Token::Error(LexingError::InvalidToken), Span::new(0, 2))]
    );
}
