use caqtus_parsing_rs::Decimal;

#[test]
fn decimal_text_in_positional_form() {
    assert_eq!(Decimal::parse("45.0").unwrap().to_string(), "45.0");
    assert_eq!(Decimal::parse("10").unwrap().to_string(), "10.0");
    assert_eq!(Decimal::parse("123.456").unwrap().to_string(), "123.456");
    assert_eq!(Decimal::parse("0.5").unwrap().to_string(), "0.5");
    assert_eq!(Decimal::parse(".5").unwrap().to_string(), "0.5");
    assert_eq!(Decimal::parse("1.").unwrap().to_string(), "1.0");
    assert_eq!(Decimal::parse("1.5E-3").unwrap().to_string(), "0.0015");
    assert_eq!(Decimal::parse("0.0001").unwrap().to_string(), "0.0001");
    assert_eq!(
        Decimal::parse("1e15").unwrap().to_string(),
        "1000000000000000.0"
    );
    assert_eq!(
        Decimal::parse("45.0e10").unwrap().to_string(),
        "450000000000.0"
    );
    assert_eq!(
        Decimal::parse("1234567890123456.75").unwrap().to_string(),
        "1234567890123456.75"
    );
    assert_eq!(Decimal::parse("007.100").unwrap().to_string(), "7.1");
}

#[test]
fn decimal_text_in_scientific_form() {
    assert_eq!(Decimal::parse("1e16").unwrap().to_string(), "1e16");
    assert_eq!(Decimal::parse("15e15").unwrap().to_string(), "1.5e16");
    assert_eq!(Decimal::parse("0.00001").unwrap().to_string(), "1e-5");
    assert_eq!(Decimal::parse("1.2345e-7").unwrap().to_string(), "1.2345e-7");
    assert_eq!(Decimal::parse("45.0e-10").unwrap().to_string(), "4.5e-9");
    assert_eq!(Decimal::parse("1e400").unwrap().to_string(), "1e400");
    assert_eq!(
        Decimal::parse("-2.5e-9223372036854775808").unwrap().to_string(),
        "-2.5e-9223372036854775808"
    );
}

#[test]
fn decimal_text_agrees_with_floating_point_text() {
    for text in [
        "45.0", "10", "0.5", "1.5E-3", "0.0001", "0.00001", "1e15", "1e16", "123.456", "-0.0",
        "+7.25", "1e-7", "6.02e23",
    ] {
        let decimal = Decimal::parse(text).unwrap();
        let float: f64 = text.parse().unwrap();
        assert_eq!(decimal.to_string(), format!("{:?}", float));
    }
}

#[test]
fn decimal_zero_keeps_its_sign_in_text_only() {
    assert_eq!(Decimal::parse("0").unwrap().to_string(), "0.0");
    assert_eq!(Decimal::parse("0.000e5").unwrap().to_string(), "0.0");
    assert_eq!(Decimal::parse("-0.0").unwrap().to_string(), "-0.0");
    assert_eq!(Decimal::parse("-0.0").unwrap(), Decimal::parse("0").unwrap());
    assert!(Decimal::parse("-0.0").unwrap().is_zero());
    assert!(Decimal::parse("-0.0").unwrap().is_negative());
    assert_ne!(Decimal::parse("-1").unwrap(), Decimal::parse("1").unwrap());
}

#[test]
fn decimal_equality_is_by_value() {
    assert_eq!(Decimal::parse("10").unwrap(), Decimal::parse("10.0").unwrap());
    assert_eq!(Decimal::parse("10").unwrap(), Decimal::parse("1e1").unwrap());
    assert_eq!(Decimal::parse("10").unwrap(), Decimal::parse("100e-1").unwrap());
    assert_eq!(Decimal::parse("+10").unwrap(), Decimal::from_integer(10));
    assert_ne!(Decimal::parse("10").unwrap(), Decimal::parse("10.5").unwrap());
    assert_ne!(Decimal::parse("10").unwrap(), Decimal::parse("100").unwrap());
    assert_ne!(Decimal::parse("12").unwrap(), Decimal::parse("13").unwrap());
    assert_eq!(
        Decimal::parse("4.5").unwrap().clone(),
        Decimal::parse("4.5").unwrap()
    );
}

#[test]
fn decimal_parts_are_normalized() {
    let d = Decimal::parse("-0012.3400e2").unwrap();
    assert!(d.is_negative());
    assert!(!d.is_zero());
    assert_eq!(d.digits(), &vec![1, 2, 3, 4]);
    assert_eq!(d.exponent(), 3);
    let z = Decimal::parse("0.0e7").unwrap();
    assert_eq!(z.digits(), &Vec::<u8>::new());
    assert_eq!(z.exponent(), 0);
    let s = Decimal::parse("0.00012").unwrap();
    assert_eq!(s.digits(), &vec![1, 2]);
    assert_eq!(s.exponent(), -4);
}

#[test]
fn decimal_from_integer() {
    assert_eq!(Decimal::from_integer(0).to_string(), "0.0");
    assert_eq!(Decimal::from_integer(45).to_string(), "45.0");
    assert_eq!(Decimal::from_integer(-1200).to_string(), "-1200.0");
    assert_eq!(Decimal::from_integer(-1200).digits(), &vec![1, 2]);
    assert_eq!(Decimal::from_integer(-1200).exponent(), 3);
    assert_eq!(
        Decimal::from_integer(i64::MAX).to_string(),
        "9.223372036854775807e18"
    );
    assert_eq!(
        Decimal::from_integer(i64::MIN).to_string(),
        "-9.223372036854775808e18"
    );
    assert_eq!(
        Decimal::from_integer(1_000_000_000_000_000).to_string(),
        "1000000000000000.0"
    );
    assert_eq!(
        Decimal::from_integer(10_000_000_000_000_000).to_string(),
        "1e16"
    );
}

#[test]
fn decimal_parse_takes_numeric_literals_only() {
    assert!(Decimal::parse("").is_none());
    assert!(Decimal::parse(".").is_none());
    assert!(Decimal::parse("+").is_none());
    assert!(Decimal::parse("e5").is_none());
    assert!(Decimal::parse("1e").is_none());
    assert!(Decimal::parse("1e+").is_none());
    assert!(Decimal::parse("1 ").is_none());
    assert!(Decimal::parse(" 1").is_none());
    assert!(Decimal::parse("1.2.3").is_none());
    assert!(Decimal::parse("1_000").is_none());
    assert!(Decimal::parse("inf").is_none());
    assert!(Decimal::parse("--1").is_none());
    assert!(Decimal::parse("1e99999999999999999999").is_none());
    assert!(Decimal::parse("١.٥").is_none());
    assert!(Decimal::parse("1.٥").is_none());
    assert!(Decimal::parse("1e٥").is_none());
    assert!(Decimal::parse("1x").is_none());
    assert!(Decimal::parse("-.5e+2").is_some());
    assert_eq!(Decimal::parse("-.5e+2").unwrap().to_string(), "-50.0");
}
