use caqtus_parsing_rs::{parse, Decimal, ParseNode, Span};

#[test]
fn successfully_parse_float_string() {
    let result = parse("45.0").unwrap();
    assert_eq!(
        result,
        ParseNode::Float {
            value: Decimal::parse("45.0").unwrap(),
            span: Span::new(0, 4)
        }
    );
    assert_eq!(result.span(), Span::new(0, 4));
    assert_eq!(result.to_string().parse::<f64>().unwrap(), 45.0);
}

#[test]
fn successfully_parse_float_string_with_sign() {
    // the sign belongs to the literal
    assert_eq!(parse("+45.0").unwrap().to_string(), "45.0");
    assert_eq!(parse("-45.0").unwrap().to_string(), "-45.0");
}

#[test]
fn successfully_parse_float_string_with_exponent() {
    let result = parse("45.0e10").unwrap();
    assert_eq!(
        result,
        ParseNode::Float {
            value: Decimal::parse("45.0e10").unwrap(),
            span: Span::new(0, 7)
        }
    );
    assert_eq!(result.span(), Span::new(0, 7));
    assert_eq!(result.to_string().parse::<f64>().unwrap(), 45.0e10);
    let result = parse("45.0E10").unwrap();
    assert_eq!(
        result,
        ParseNode::Float {
            value: Decimal::parse("45.0e10").unwrap(),
            span: Span::new(0, 7)
        }
    );
    assert_eq!(result.span(), Span::new(0, 7));
    assert_eq!(result.to_string().parse::<f64>().unwrap(), 45.0e10);
}

#[test]
fn successfully_parse_float_string_with_exponent_and_sign() {
    let result = parse("45.0e+10").unwrap();
    assert_eq!(
        result,
        ParseNode::Float {
            value: Decimal::parse("45.0e10").unwrap(),
            span: Span::new(0, 8)
        }
    );
    assert_eq!(result.span(), Span::new(0, 8));
    assert_eq!(result.to_string().parse::<f64>().unwrap(), 45.0e10);
    let result = parse("45.0e-10").unwrap();
    assert_eq!(
        result,
        ParseNode::Float {
            value: Decimal::parse("45.0e-10").unwrap(),
            span: Span::new(0, 8)
        }
    );
    assert_eq!(result.span(), Span::new(0, 8));
    assert_eq!(result.to_string().parse::<f64>().unwrap(), 45.0e-10);
}
