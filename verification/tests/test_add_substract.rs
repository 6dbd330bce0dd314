use caqtus_parsing_rs::{parse, ParseError, ParseErrorKind, Span};

#[test]
fn successfully_parse_addition() {
    assert_eq!(parse("1 + 2").unwrap().to_string(), "(1 + 2)");
}

#[test]
fn successfully_parse_left_associative_subtraction() {
    assert_eq!(parse("1 - 2 - 3").unwrap().to_string(), "((1 - 2) - 3)");
}

#[test]
fn test_parentheses_priority() {
    assert_eq!(parse("1 - (2 - 3)").unwrap().to_string(), "(1 - (2 - 3))");
}

#[test]
fn can_add_number_without_spaces() {
    // the sign belongs to the literal behind it: two numbers in a row
    assert_eq!(
        parse("1+2").unwrap_err(),
        vec![ParseError { kind: ParseErrorKind::ExpectedEnd, span: Span::new(1, 3) }]
    );
}

#[test]
fn test_can_parse_unit_addition() {
    assert_eq!(
        parse("1 kHz + 2 MHz").unwrap().to_string(),
        "(1.0 kHz + 2.0 MHz)"
    );
}

#[test]
fn can_add_negative_numbers() {
    assert_eq!(parse("-1 + -2").unwrap().to_string(), "(-1 + -2)");
}
