use caqtus_parsing_rs::decimal::digits_of_u64;
use caqtus_parsing_rs::literal::{digit_of, integer_text, read_integer};
use caqtus_parsing_rs::render::{digit_char_of, push_digits, push_integer, push_zeros};
use caqtus_parsing_rs::text::{
    char_width, chars_of, copy_range, decimal_digit, digit, greek, name_continue, name_start,
    scan_digits, scan_integer, scan_name, scan_number, scan_separated, sign, skip_sign, string_of,
};
use caqtus_parsing_rs::Decimal;

#[test]
fn character_classes() {
    assert!(digit('0') && digit('9') && !digit('a') && !digit('٣'));
    assert!(decimal_digit('0') && decimal_digit('9') && decimal_digit('٣'));
    assert!(decimal_digit('\u{FF10}') && decimal_digit('\u{1D7FF}') && decimal_digit('\u{1FBF9}'));
    assert!(!decimal_digit('a') && !decimal_digit('_') && !decimal_digit('.'));
    assert!(!decimal_digit('\u{B2}') && !decimal_digit('\u{2160}') && !decimal_digit('\u{1FBFA}'));
    for c in ['\0', '/', ':', '\u{65F}', '\u{66A}', '\u{116E4}', '\u{10FFFF}'] {
        assert!(!decimal_digit(c));
    }
    assert!(sign('+') && sign('-') && !sign('*'));
    assert!(name_start('_') && name_start('a') && name_start('Z') && name_start('°'));
    assert!(name_start('α') && name_start('Ω') && name_start('ἀ'));
    assert!(!name_start('1') && !name_start('%') && !name_start(' ') && !name_start('é'));
    assert!(name_continue('1') && name_continue('β') && !name_continue('.'));
    assert!(greek('\u{370}') && !greek('\u{374}') && greek('\u{375}'));
    assert!(greek('\u{3FF}') && !greek('\u{400}'));
    assert!(greek('\u{1D26}') && !greek('\u{1D25}') && greek('\u{1DBF}'));
    assert!(greek('\u{1F00}') && !greek('\u{1F16}') && greek('\u{1FFE}') && !greek('\u{1FFF}'));
    assert!(greek('\u{2126}') && greek('\u{AB65}') && !greek('\u{AB66}'));
    assert!(greek('\u{10140}') && greek('\u{1018E}') && !greek('\u{1018F}'));
    assert!(greek('\u{101A0}') && greek('\u{1D245}') && !greek('\u{1D246}'));
}

#[test]
fn widths_are_those_of_utf8() {
    for c in ['\0', 'a', '\u{7F}', '\u{80}', '°', '\u{7FF}', '\u{800}', '€', '\u{FFFF}', '\u{10000}', '😀', '\u{10FFFF}'] {
        assert_eq!(char_width(c), c.len_utf8());
    }
}

#[test]
fn texts_and_their_characters() {
    let chars = chars_of("a°β😀");
    assert_eq!(chars, vec!['a', '°', 'β', '😀']);
    assert_eq!(string_of(&chars), "a°β😀");
    assert_eq!(copy_range(&chars, 1, 3), vec!['°', 'β']);
    assert_eq!(copy_range(&chars, 2, 2), vec![]);
    assert_eq!(chars_of(""), vec![]);
}

#[test]
fn scans_stop_where_the_run_ends() {
    let chars = chars_of("+12.5e-3xy_z9 ");
    assert_eq!(skip_sign(&chars, 0), 1);
    assert_eq!(skip_sign(&chars, 1), 1);
    assert_eq!(skip_sign(&chars, 14), 14);
    assert_eq!(scan_digits(&chars, 1), 3);
    assert_eq!(scan_digits(&chars, 3), 3);
    assert_eq!(scan_digits(&chars, 14), 14);
    assert_eq!(scan_name(&chars, 8), 13);
    assert_eq!(scan_name(&chars, 13), 13);
    assert_eq!(scan_number(&chars, 0), Some(8));
    assert_eq!(scan_number(&chars, 1), Some(8));
    assert_eq!(scan_number(&chars, 4), Some(8));
    assert_eq!(scan_number(&chars, 3), Some(8));
    assert_eq!(scan_number(&chars, 6), Some(8));
    assert_eq!(scan_number(&chars, 7), Some(8));
    assert_eq!(scan_number(&chars, 5), None);
    assert_eq!(scan_number(&chars, 8), None);
    assert_eq!(scan_integer(&chars, 0), Some(3));
    assert_eq!(scan_integer(&chars, 3), None);
    assert_eq!(scan_integer(&chars, 6), Some(8));
    assert_eq!(scan_integer(&chars, 10), None);
    assert_eq!(scan_integer(&chars, 12), Some(13));
    let grouped = chars_of("-1_000__5_.x");
    assert_eq!(scan_integer(&grouped, 0), Some(10));
    assert_eq!(scan_integer(&grouped, 2), None);
    assert_eq!(scan_number(&grouped, 0), Some(2));
    assert_eq!(scan_separated(&grouped, 2), 10);
    assert_eq!(scan_separated(&grouped, 10), 10);
    assert_eq!(scan_digits(&chars_of("1٢３x"), 0), 3);
    assert_eq!(scan_number(&chars_of("."), 0), None);
    assert_eq!(scan_number(&chars_of("-"), 0), None);
    assert_eq!(scan_number(&chars_of("7"), 0), Some(1));
    assert_eq!(scan_number(&chars_of("7."), 0), Some(2));
}

#[test]
fn digits_and_their_values() {
    assert_eq!(digit_of('0'), 0);
    assert_eq!(digit_of('7'), 7);
    assert_eq!(digit_of('9'), 9);
    assert_eq!(digit_char_of(0), '0');
    assert_eq!(digit_char_of(9), '9');
    assert_eq!(digits_of_u64(0), vec![0]);
    assert_eq!(digits_of_u64(907), vec![9, 0, 7]);
    assert_eq!(
        digits_of_u64(u64::MAX),
        vec![1, 8, 4, 4, 6, 7, 4, 4, 0, 7, 3, 7, 0, 9, 5, 5, 1, 6, 1, 5]
    );
}

#[test]
fn reading_integer_literals() {
    assert_eq!(read_integer(&chars_of("45")), Some(45));
    assert_eq!(read_integer(&chars_of("+45")), Some(45));
    assert_eq!(read_integer(&chars_of("-45")), Some(-45));
    assert_eq!(read_integer(&chars_of("-0")), Some(0));
    assert_eq!(read_integer(&chars_of("9223372036854775807")), Some(i64::MAX));
    assert_eq!(read_integer(&chars_of("9223372036854775808")), None);
    assert_eq!(read_integer(&chars_of("-9223372036854775808")), Some(i64::MIN));
    assert_eq!(read_integer(&chars_of("-9223372036854775809")), None);
    assert_eq!(read_integer(&chars_of("123456789012345678901234567890")), None);
}

#[test]
fn separators_do_not_count() {
    assert_eq!(read_integer(&chars_of("1_000")), Some(1000));
    assert_eq!(read_integer(&chars_of("-1_000_000")), Some(-1_000_000));
    assert_eq!(read_integer(&chars_of("1__0_")), Some(10));
    assert_eq!(read_integer(&chars_of("0_0_7")), Some(7));
    assert_eq!(
        read_integer(&chars_of("9_223_372_036_854_775_807")),
        Some(i64::MAX)
    );
    assert_eq!(read_integer(&chars_of("9_223_372_036_854_775_808")), None);
}

#[test]
fn other_text_is_no_integer_literal() {
    for text in ["", "+", "-", "_", "_1", "+_1", "1x", "x1", "1.0", "1e5", "1 ", " 1", "--1", "١٢٣", "1٢"] {
        assert!(!integer_text(&chars_of(text)));
        assert_eq!(read_integer(&chars_of(text)), None);
    }
    for text in ["0", "+0", "-12", "1_", "1_2"] {
        assert!(integer_text(&chars_of(text)));
    }
}

#[test]
fn writing_digits_and_integers() {
    let mut out = String::from("x");
    push_digits(&mut out, &vec![1, 2, 3, 4], 1, 3);
    assert_eq!(out, "x23");
    push_zeros(&mut out, 3);
    assert_eq!(out, "x23000");
    push_zeros(&mut out, 0);
    push_integer(&mut out, -17);
    assert_eq!(out, "x23000-17");
    push_integer(&mut out, 0);
    assert_eq!(out, "x23000-170");
    let mut text = String::from("<");
    Decimal::from_integer(5).write_to(&mut text);
    assert_eq!(text, "<5.0");
}

#[test]
fn decimal_from_the_characters_of_a_literal() {
    assert_eq!(
        Decimal::from_literal(&chars_of("-12.50e1")).unwrap().to_string(),
        "-125.0"
    );
    assert!(Decimal::from_literal(&chars_of("1e99999999999999999999")).is_none());
    assert!(Decimal::from_literal(&chars_of("1e-99999999999999999999")).is_none());
}

#[test]
fn decimal_text_reads_back() {
    for text in [
        "0", "-0", "1", "-1", "10", "1e15", "1e16", "1e-4", "1e-5", "123456.789", "1.5e300",
        "-9.75e-300", "0.000123", "12345678901234567890.5", "1e9223372036854775807",
        "1e-9223372036854775808",
    ] {
        let number = Decimal::parse(text).unwrap();
        let again = Decimal::parse(&number.to_string()).unwrap();
        assert_eq!(again, number);
        assert_eq!(again.is_negative(), number.is_negative());
        assert_eq!(again.to_string(), number.to_string());
    }
}
