use caqtus_parsing_rs::{
    lex, parse, parse_tokens, BinaryOperator, Decimal, LexingError, ParseError, ParseErrorKind,
    ParseNode, Span, Token, UnaryOperator,
};

fn integer(value: i64) -> ParseNode {
    ParseNode::Integer { value, span: Span::new(0, 0) }
}

fn name(text: &str) -> ParseNode {
    ParseNode::Identifier { name: text.to_string(), span: Span::new(0, 0) }
}

fn binary(operator: BinaryOperator, lhs: ParseNode, rhs: ParseNode) -> ParseNode {
    ParseNode::BinaryOperation {
        operator,
        lhs: Box::new(lhs),
        rhs: Box::new(rhs),
        span: Span::new(0, 0),
    }
}

fn unary(operator: UnaryOperator, operand: ParseNode) -> ParseNode {
    ParseNode::UnaryOperation { operator, operand: Box::new(operand), span: Span::new(0, 0) }
}

fn fault(kind: ParseErrorKind, start: usize, end: usize) -> Vec<ParseError> {
    vec![ParseError { kind, span: Span::new(start, end) }]
}

#[test]
fn power_groups_from_the_right() {
    assert_eq!(parse("2^3^2").unwrap().to_string(), "(2 ^ (3 ^ 2))");
    assert_eq!(
        parse("2 ^ 3 ^ 2").unwrap(),
        binary(
            BinaryOperator::Power,
            integer(2),
            binary(BinaryOperator::Power, integer(3), integer(2))
        )
    );
}

#[test]
fn operators_of_one_level_group_from_the_left() {
    assert_eq!(parse("1 - 2 + 3").unwrap().to_string(), "((1 - 2) + 3)");
    assert_eq!(parse("8 / 4 / 2").unwrap().to_string(), "((8 / 4) / 2)");
    assert_eq!(parse("8 / 4 * 2").unwrap().to_string(), "((8 / 4) * 2)");
}

#[test]
fn higher_level_binds_tighter() {
    assert_eq!(parse("1 + 2 * 3").unwrap().to_string(), "(1 + (2 * 3))");
    assert_eq!(parse("1 * 2 + 3").unwrap().to_string(), "((1 * 2) + 3)");
    assert_eq!(parse("1 * 2 ^ 3").unwrap().to_string(), "(1 * (2 ^ 3))");
    assert_eq!(parse("1 ^ 2 * 3").unwrap().to_string(), "((1 ^ 2) * 3)");
    assert_eq!(
        parse("a + b * c ^ d - e").unwrap().to_string(),
        "((a + (b * (c ^ d))) - e)"
    );
}

#[test]
fn prefix_operators_bind_between_product_and_power() {
    assert_eq!(parse("- 2 ^ 2").unwrap().to_string(), "-((2 ^ 2))");
    assert_eq!(parse("-x ^ 2").unwrap().to_string(), "-((x ^ 2))");
    assert_eq!(parse("-x * 2").unwrap().to_string(), "(-(x) * 2)");
    assert_eq!(parse("-x + 2").unwrap().to_string(), "(-(x) + 2)");
    assert_eq!(parse("2 * -x").unwrap().to_string(), "(2 * -(x))");
    assert_eq!(parse("2 ^ -x").unwrap().to_string(), "(2 ^ -(x))");
    assert_eq!(parse("2 ^ -x ^ 3").unwrap().to_string(), "(2 ^ -((x ^ 3)))");
    assert_eq!(parse("2 ^ -x * 3").unwrap().to_string(), "((2 ^ -(x)) * 3)");
    assert_eq!(parse("- - x").unwrap().to_string(), "-(-(x))");
    assert_eq!(parse("+ - x").unwrap().to_string(), "+(-(x))");
    assert_eq!(
        parse("- x").unwrap(),
        unary(UnaryOperator::Negate, name("x"))
    );
    assert_eq!(parse("+ x").unwrap(), unary(UnaryOperator::Plus, name("x")));
}

#[test]
fn signed_literal_is_one_operand() {
    assert_eq!(parse("-2 ^ 2").unwrap().to_string(), "(-2 ^ 2)");
    assert_eq!(parse("-45").unwrap(), integer(-45));
    assert_eq!(parse("+45").unwrap(), integer(45));
    assert_eq!(parse("-45").unwrap().to_string(), "-45");
    assert_eq!(parse("+45").unwrap().to_string(), "45");
    assert_eq!(parse("+45.0").unwrap().to_string(), "45.0");
    assert_eq!(parse("-45.0").unwrap().to_string(), "-45.0");
    assert_eq!(parse("+10.0 MHz").unwrap().to_string(), "10.0 MHz");
    assert_eq!(parse("-10.0 MHz").unwrap().to_string(), "-10.0 MHz");
    assert_eq!(parse("- 45").unwrap().to_string(), "-(45)");
    assert_eq!(parse("+ 45.0").unwrap().to_string(), "+(45.0)");
    assert_eq!(parse("- 10.0 MHz").unwrap().to_string(), "-(10.0 MHz)");
}

#[test]
fn signed_literal_behind_an_operand_is_no_operator() {
    assert_eq!(
        parse("1+2").unwrap_err(),
        fault(ParseErrorKind::ExpectedEnd, 1, 3)
    );
    assert_eq!(
        parse("1-2-3").unwrap_err(),
        fault(ParseErrorKind::ExpectedEnd, 1, 3)
    );
    assert_eq!(parse("1 +2").unwrap_err(), fault(ParseErrorKind::ExpectedEnd, 2, 4));
    assert_eq!(parse("a+2").unwrap_err(), fault(ParseErrorKind::ExpectedEnd, 1, 3));
    assert_eq!(parse("1+ 2").unwrap().to_string(), "(1 + 2)");
    assert_eq!(parse("1+a").unwrap().to_string(), "(1 + a)");
    assert_eq!(parse("1--2").unwrap().to_string(), "(1 - -2)");
}

#[test]
fn quantity_is_a_number_and_a_unit() {
    assert_eq!(
        parse("10 MHz").unwrap(),
        ParseNode::Quantity {
            value: Decimal::from_integer(10),
            unit: "MHz".to_string(),
            span: Span::new(0, 6)
        }
    );
    assert_eq!(parse("10 MHz").unwrap().span(), Span::new(0, 6));
    assert_eq!(parse("10 MHz").unwrap(), parse("10.0 MHz").unwrap());
    assert_eq!(parse("10MHz").unwrap(), parse("1e1   MHz").unwrap());
    assert_ne!(parse("10 MHz").unwrap(), parse("10 kHz").unwrap());
    assert_ne!(parse("10 MHz").unwrap(), parse("11 MHz").unwrap());
    assert_eq!(parse("5 %").unwrap().to_string(), "5.0 %");
    assert_eq!(parse("20 °C").unwrap().to_string(), "20.0 °C");
    assert_eq!(
        parse("1 kHz + 2 MHz").unwrap().to_string(),
        "(1.0 kHz + 2.0 MHz)"
    );
    assert_eq!(
        parse("10 MHz / s * 3").unwrap().to_string(),
        "((10.0 MHz / s) * 3)"
    );
    assert_eq!(
        parse("10 MHz / (s * 3)").unwrap().to_string(),
        "(10.0 MHz / (s * 3))"
    );
    assert_eq!(
        parse("10 MHz / 2 kHz").unwrap().to_string(),
        "(10.0 MHz / 2.0 kHz)"
    );
    assert_eq!(parse("f(12 MHz)").unwrap().to_string(), "f(12.0 MHz)");
    assert_eq!(
        parse("square_wave((t- 10 ms) / 1 ms)").unwrap().to_string(),
        "square_wave(((t - 10.0 ms) / 1.0 ms))"
    );
}

#[test]
fn unit_of_a_quantity_is_one_name() {
    assert_eq!(
        parse("10 a.b").unwrap_err(),
        fault(ParseErrorKind::ExpectedEnd, 4, 5)
    );
    assert_eq!(
        parse("10 f(1)").unwrap_err(),
        fault(ParseErrorKind::ExpectedEnd, 4, 5)
    );
    assert_eq!(
        parse("10 m s").unwrap_err(),
        fault(ParseErrorKind::ExpectedEnd, 5, 6)
    );
}

#[test]
fn calls_take_expressions_for_arguments() {
    assert_eq!(
        parse("f()").unwrap(),
        ParseNode::Call { name: "f".to_string(), args: vec![], span: Span::new(0, 3) }
    );
    assert_eq!(parse("f()").unwrap().to_string(), "f()");
    assert_eq!(parse("f()").unwrap().span(), Span::new(0, 3));
    assert_eq!(
        parse("f(1 + 2, 3 * 4)").unwrap().to_string(),
        "f((1 + 2), (3 * 4))"
    );
    assert_eq!(parse("f(sqrt(2))").unwrap().to_string(), "f(sqrt(2))");
    assert_eq!(parse("a.b.c(x, y,)").unwrap().to_string(), "a.b.c(x, y)");
    assert_eq!(parse("f(g(), h(1,))").unwrap().to_string(), "f(g(), h(1))");
    assert_eq!(
        parse("f(1, 2)").unwrap(),
        ParseNode::Call {
            name: "f".to_string(),
            args: vec![integer(1), integer(2)],
            span: Span::new(0, 0)
        }
    );
    assert_ne!(parse("f(1, 2)").unwrap(), parse("f(1)").unwrap());
    assert_ne!(parse("f(1, 2)").unwrap(), parse("f(1, 3)").unwrap());
    assert_ne!(parse("f(1, 2)").unwrap(), parse("g(1, 2)").unwrap());
    assert_ne!(parse("f").unwrap(), parse("f()").unwrap());
}

#[test]
fn faults_in_calls() {
    assert_eq!(
        parse("f(,)").unwrap_err(),
        fault(ParseErrorKind::ExpectedExpression, 2, 3)
    );
    assert_eq!(
        parse("f(1,,2)").unwrap_err(),
        fault(ParseErrorKind::ExpectedExpression, 4, 5)
    );
    assert_eq!(
        parse("f(1 2)").unwrap_err(),
        fault(ParseErrorKind::ExpectedClosing, 4, 5)
    );
    assert_eq!(
        parse("f(1").unwrap_err(),
        fault(ParseErrorKind::ExpectedClosing, 3, 3)
    );
    assert_eq!(
        parse("f(1,").unwrap_err(),
        fault(ParseErrorKind::ExpectedExpression, 4, 4)
    );
    assert_eq!(
        parse("f(").unwrap_err(),
        fault(ParseErrorKind::ExpectedExpression, 2, 2)
    );
    assert_eq!(
        parse("f(1)(2)").unwrap_err(),
        fault(ParseErrorKind::ExpectedEnd, 4, 5)
    );
    assert_eq!(
        parse("2(1)").unwrap_err(),
        fault(ParseErrorKind::ExpectedEnd, 1, 2)
    );
}

#[test]
fn faults_in_identifiers() {
    assert_eq!(
        parse("a.").unwrap_err(),
        fault(ParseErrorKind::ExpectedName, 2, 2)
    );
    assert_eq!(
        parse(".a").unwrap_err(),
        fault(ParseErrorKind::ExpectedExpression, 0, 1)
    );
    assert_eq!(
        parse("a..b").unwrap_err(),
        fault(ParseErrorKind::ExpectedName, 2, 3)
    );
    // a point in front of digits opens a number
    assert_eq!(
        parse("a.1").unwrap_err(),
        fault(ParseErrorKind::ExpectedEnd, 1, 3)
    );
    assert_eq!(
        parse("a.(").unwrap_err(),
        fault(ParseErrorKind::ExpectedName, 2, 3)
    );
    assert_eq!(
        parse("a . b").unwrap(),
        ParseNode::Identifier { name: "a.b".to_string(), span: Span::new(0, 5) }
    );
    assert_eq!(parse("a . b").unwrap().span(), Span::new(0, 5));
}

#[test]
fn faults_in_expressions() {
    assert_eq!(
        parse("").unwrap_err(),
        fault(ParseErrorKind::ExpectedExpression, 0, 0)
    );
    assert_eq!(
        parse("   ").unwrap_err(),
        fault(ParseErrorKind::ExpectedExpression, 3, 3)
    );
    assert_eq!(
        parse("1 + ").unwrap_err(),
        fault(ParseErrorKind::ExpectedExpression, 4, 4)
    );
    assert_eq!(
        parse("1 + * 2").unwrap_err(),
        fault(ParseErrorKind::ExpectedExpression, 4, 5)
    );
    assert_eq!(
        parse("* 2").unwrap_err(),
        fault(ParseErrorKind::ExpectedExpression, 0, 1)
    );
    assert_eq!(
        parse("(1 + 2").unwrap_err(),
        fault(ParseErrorKind::ExpectedClosing, 6, 6)
    );
    assert_eq!(
        parse("(1 + 2,").unwrap_err(),
        fault(ParseErrorKind::ExpectedClosing, 6, 7)
    );
    assert_eq!(
        parse("()").unwrap_err(),
        fault(ParseErrorKind::ExpectedExpression, 1, 2)
    );
    assert_eq!(
        parse("1 + 2)").unwrap_err(),
        fault(ParseErrorKind::ExpectedEnd, 5, 6)
    );
    assert_eq!(
        parse("45 0").unwrap_err(),
        fault(ParseErrorKind::ExpectedEnd, 3, 4)
    );
    assert_eq!(
        parse("a%").unwrap_err(),
        fault(ParseErrorKind::ExpectedEnd, 1, 2)
    );
    assert_eq!(
        parse("-").unwrap_err(),
        fault(ParseErrorKind::ExpectedExpression, 1, 1)
    );
}

#[test]
fn lexical_faults_are_all_reported_in_order() {
    assert_eq!(
        parse("$").unwrap_err(),
        fault(ParseErrorKind::Lexical(LexingError::InvalidToken), 0, 1)
    );
    assert_eq!(
        parse("123456789012345678901234567890").unwrap_err(),
        fault(ParseErrorKind::Lexical(LexingError::ParseIntError), 0, 30)
    );
    assert_eq!(
        parse("1e99999999999999999999").unwrap_err(),
        fault(ParseErrorKind::Lexical(LexingError::ParseFloatError), 0, 22)
    );
    assert_eq!(
        parse("a $ b # 99999999999999999999 )").unwrap_err(),
        vec![
            ParseError {
                kind: ParseErrorKind::Lexical(LexingError::InvalidToken),
                span: Span::new(2, 3)
            },
            ParseError {
                kind: ParseErrorKind::Lexical(LexingError::InvalidToken),
                span: Span::new(6, 7)
            },
            ParseError {
                kind: ParseErrorKind::Lexical(LexingError::ParseIntError),
                span: Span::new(8, 28)
            },
        ]
    );
}

#[test]
fn messages_say_what_is_wrong() {
    let say = |kind: ParseErrorKind| ParseError { kind, span: Span::new(0, 0) }.message();
    assert_eq!(say(ParseErrorKind::Lexical(LexingError::InvalidToken)), "invalid token");
    assert_eq!(
        say(ParseErrorKind::Lexical(LexingError::ParseIntError)),
        "integer literal without a value in 64 bits"
    );
    assert_eq!(
        say(ParseErrorKind::Lexical(LexingError::ParseFloatError)),
        "numeric literal without a value that can be held"
    );
    assert_eq!(say(ParseErrorKind::ExpectedExpression), "expected an expression");
    assert_eq!(say(ParseErrorKind::ExpectedName), "expected a name");
    assert_eq!(say(ParseErrorKind::ExpectedClosing), "expected a closing parenthesis");
    assert_eq!(say(ParseErrorKind::ExpectedEnd), "expected end of input");
    assert_eq!(parse("45 0").unwrap_err()[0].message(), "expected end of input");
}

#[test]
fn equality_ignores_spans() {
    let built = binary(BinaryOperator::Add, integer(1), integer(2));
    assert_eq!(parse("1 + 2").unwrap(), built);
    assert_eq!(parse("   1   +   2   ").unwrap(), built);
    assert_eq!(parse("(1 + 2)").unwrap(), built);
    assert_eq!(parse("((1) + (2))").unwrap(), built);
    assert_eq!(parse("1 + 2").unwrap(), parse("     1 + 2").unwrap());
    assert_ne!(parse("1 + 2").unwrap(), parse("2 + 1").unwrap());
    assert_ne!(parse("1 + 2").unwrap(), parse("1 - 2").unwrap());
    assert_ne!(parse("1").unwrap(), parse("1.0").unwrap());
    assert_ne!(parse("- x").unwrap(), parse("+ x").unwrap());
    assert_ne!(parse("a").unwrap(), parse("b").unwrap());
    assert_eq!(parse("-0.0").unwrap(), parse("0.0").unwrap());
    assert_eq!(parse("a.b.c").unwrap(), name("a.b.c"));
    let moved = parse("1 + 2").unwrap().with_span(Span::new(7, 9));
    assert_eq!(moved.span(), Span::new(7, 9));
    assert_eq!(moved, built);
    assert!(moved.same_structure(&built));
}

#[test]
fn spans_reach_from_first_to_last_token() {
    let tree = parse("  - a * (b + 1.5 kHz)  ").unwrap();
    assert_eq!(tree.span(), Span::new(2, 21));
    match tree {
        ParseNode::BinaryOperation { operator, lhs, rhs, .. } => {
            assert_eq!(operator, BinaryOperator::Multiply);
            assert_eq!(lhs.span(), Span::new(2, 5));
            assert_eq!(rhs.span(), Span::new(8, 21));
            match *lhs {
                ParseNode::UnaryOperation { operand, .. } => {
                    assert_eq!(operand.span(), Span::new(4, 5))
                }
                _ => panic!("a prefix operation was expected"),
            }
            match *rhs {
                ParseNode::BinaryOperation { lhs, rhs, .. } => {
                    assert_eq!(lhs.span(), Span::new(9, 10));
                    assert_eq!(rhs.span(), Span::new(13, 20));
                }
                _ => panic!("a sum was expected"),
            }
        }
        _ => panic!("a product was expected"),
    }
    assert_eq!(parse("(a)").unwrap().span(), Span::new(0, 3));
    assert_eq!(parse(" ((((1)))) ").unwrap().span(), Span::new(1, 10));
    assert_eq!(parse("α.β(γ)").unwrap().span(), Span::new(0, 9));
    assert_eq!(parse("1 + 2 + 3").unwrap().span(), Span::new(0, 9));
    assert_eq!(Span::new(1, 2).join(Span::new(5, 9)), Span::new(1, 9));
}

#[test]
fn parse_tokens_reads_given_tokens() {
    let tokens = vec![
        (Token::Integer(1), Span::new(10, 11)),
        (Token::Plus, Span::new(20, 21)),
        (Token::Name("x".to_string()), Span::new(30, 31)),
    ];
    let tree = parse_tokens(&tokens, Span::new(40, 40)).unwrap();
    assert_eq!(tree.to_string(), "(1 + x)");
    assert_eq!(tree.span(), Span::new(10, 31));
    let short = vec![(Token::Integer(1), Span::new(10, 11)), (Token::Plus, Span::new(20, 21))];
    assert_eq!(
        parse_tokens(&short, Span::new(40, 41)).unwrap_err(),
        fault(ParseErrorKind::ExpectedExpression, 40, 41)
    );
    assert_eq!(
        parse_tokens(&lex("2 * (3 + 4)"), Span::new(11, 11)).unwrap(),
        parse("2 * (3 + 4)").unwrap()
    );
}

#[test]
fn operators_have_symbols_and_powers() {
    assert_eq!(BinaryOperator::Add.to_string(), "+");
    assert_eq!(BinaryOperator::Subtract.to_string(), "-");
    assert_eq!(BinaryOperator::Multiply.to_string(), "*");
    assert_eq!(BinaryOperator::Divide.to_string(), "/");
    assert_eq!(BinaryOperator::Power.to_string(), "^");
    assert_eq!(UnaryOperator::Negate.to_string(), "-");
    assert_eq!(UnaryOperator::Plus.to_string(), "+");
    assert_eq!(BinaryOperator::Add.symbol_char(), '+');
    assert_eq!(UnaryOperator::Negate.symbol_char(), '-');
    assert_eq!(BinaryOperator::Add.binding_left(), 2);
    assert_eq!(BinaryOperator::Subtract.binding_right(), 3);
    assert_eq!(BinaryOperator::Multiply.binding_left(), 4);
    assert_eq!(BinaryOperator::Divide.binding_right(), 5);
    assert_eq!(BinaryOperator::Power.binding_left(), 9);
    assert_eq!(BinaryOperator::Power.binding_right(), 8);
}

#[test]
fn canonical_text_parses_to_the_same_tree() {
    for text in [
        "1 + 2",
        "1 - 2 - 3",
        "1 - (2 - 3)",
        "2 ^ 3 ^ 2",
        "f(1) + g(2)",
        "a.b(1,)",
        "- x ^ 2 * 3.5 kHz",
        "f(g(1, -2), 0.0001, 1e20 m) / -(3)",
        "10 MHz",
        "%",
    ] {
        let tree = parse(text).unwrap();
        let again = parse(&tree.to_string()).unwrap();
        assert_eq!(again, tree);
        assert_eq!(again.to_string(), tree.to_string());
    }
}

#[test]
fn integers_are_written_in_full() {
    assert_eq!(parse("0").unwrap().to_string(), "0");
    assert_eq!(parse("007").unwrap().to_string(), "7");
    assert_eq!(
        parse("-9223372036854775808").unwrap().to_string(),
        "-9223372036854775808"
    );
    assert_eq!(
        parse("9223372036854775807").unwrap().to_string(),
        "9223372036854775807"
    );
    assert_eq!(parse("1000000").unwrap().to_string(), "1000000");
}

#[test]
fn canonical_text_keeps_a_prefix_operator_bare() {
    // the operand of the power is itself a prefix operation here; in the
    // canonical text the prefix operator stands bare in front of the power
    let tree = parse("(- x) ^ 2").unwrap();
    assert_eq!(
        tree,
        binary(BinaryOperator::Power, unary(UnaryOperator::Negate, name("x")), integer(2))
    );
    assert_eq!(tree.to_string(), "(-(x) ^ 2)");
    assert_eq!(
        parse("(-(x) ^ 2)").unwrap(),
        unary(UnaryOperator::Negate, binary(BinaryOperator::Power, name("x"), integer(2)))
    );
}

#[test]
fn integers_with_separators() {
    assert_eq!(parse("1_000").unwrap(), integer(1000));
    assert_eq!(parse("1_000").unwrap().span(), Span::new(0, 5));
    assert_eq!(parse("1_000").unwrap().to_string(), "1000");
    assert_eq!(parse("1_000 + 2_0").unwrap().to_string(), "(1000 + 20)");
    assert_eq!(parse("1_000 MHz").unwrap().to_string(), "1000.0 MHz");
    assert_eq!(parse("f(1_0, -2_0)").unwrap().to_string(), "f(10, -20)");
    assert_eq!(
        parse("١٢٣").unwrap_err(),
        fault(ParseErrorKind::Lexical(LexingError::ParseIntError), 0, 6)
    );
    assert_eq!(
        parse("٥.٥").unwrap_err(),
        fault(ParseErrorKind::Lexical(LexingError::ParseFloatError), 0, 5)
    );
}
