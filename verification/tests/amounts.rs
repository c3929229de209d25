use accounts_cli::amount::{read_magnitude, Amount};
use accounts_cli::text::{
    chars_of, digit_str, parse_u32, push_decimal, read_decimal, same_text, space, trim,
    trim_bounds,
};

fn chars(text: &str) -> Vec<char> {
    text.chars().collect()
}

#[test]
fn amounts_are_read_in_ten_thousandths() {
    assert_eq!(Amount::parse("1.5"), Some(Amount::from_units(15_000)));
    assert_eq!(Amount::parse("1.0"), Some(Amount::from_units(10_000)));
    assert_eq!(Amount::parse("0"), Some(Amount::zero()));
    assert_eq!(Amount::parse("0.0001"), Some(Amount::from_units(1)));
    assert_eq!(Amount::parse("12.3456"), Some(Amount::from_units(123_456)));
    assert_eq!(Amount::parse("12.34"), Some(Amount::from_units(123_400)));
    assert_eq!(Amount::parse("007.5"), Some(Amount::from_units(75_000)));
    assert_eq!(Amount::parse(".5"), Some(Amount::from_units(5_000)));
    assert_eq!(Amount::parse("5."), Some(Amount::from_units(50_000)));
    assert_eq!(Amount::parse("+2"), Some(Amount::from_units(20_000)));
    assert_eq!(Amount::parse("-2.25"), Some(Amount::from_units(-22_500)));
    assert_eq!(Amount::parse("-0"), Some(Amount::zero()));
}

#[test]
fn ill_formed_amounts_are_refused() {
    assert_eq!(Amount::parse(""), None);
    assert_eq!(Amount::parse("."), None);
    assert_eq!(Amount::parse("-"), None);
    assert_eq!(Amount::parse("+."), None);
    assert_eq!(Amount::parse("1.23456"), None);
    assert_eq!(Amount::parse("1.2.3"), None);
    assert_eq!(Amount::parse("1,5"), None);
    assert_eq!(Amount::parse(" 1.5"), None);
    assert_eq!(Amount::parse("1.5 "), None);
    assert_eq!(Amount::parse("1e3"), None);
    assert_eq!(Amount::parse("--1"), None);
    assert_eq!(Amount::parse("1-"), None);
    assert_eq!(Amount::parse("\u{661}"), None);
}

#[test]
fn amounts_are_read_up_to_the_ends_of_their_range() {
    assert_eq!(
        Amount::parse("922337203685477.5807"),
        Some(Amount::from_units(i64::MAX))
    );
    assert_eq!(Amount::parse("922337203685477.5808"), None);
    assert_eq!(
        Amount::parse("-922337203685477.5808"),
        Some(Amount::from_units(i64::MIN))
    );
    assert_eq!(Amount::parse("-922337203685477.5809"), None);
    assert_eq!(Amount::parse("99999999999999999999999999999999999999999"), None);
    assert_eq!(
        Amount::parse("000000000000000000000000000000000000000001"),
        Some(Amount::from_units(10_000))
    );
}

#[test]
fn amounts_are_written_with_one_to_four_places() {
    assert_eq!(Amount::from_units(0).to_text(), "0.0");
    assert_eq!(Amount::from_units(10_000).to_text(), "1.0");
    assert_eq!(Amount::from_units(15_000).to_text(), "1.5");
    assert_eq!(Amount::from_units(1_200).to_text(), "0.12");
    assert_eq!(Amount::from_units(1_230).to_text(), "0.123");
    assert_eq!(Amount::from_units(12_345).to_text(), "1.2345");
    assert_eq!(Amount::from_units(1).to_text(), "0.0001");
    assert_eq!(Amount::from_units(100).to_text(), "0.01");
    assert_eq!(Amount::from_units(-1).to_text(), "-0.0001");
    assert_eq!(Amount::from_units(-50_000).to_text(), "-5.0");
    assert_eq!(Amount::from_units(1_234_567_800).to_text(), "123456.78");
    assert_eq!(Amount::from_units(i64::MAX).to_text(), "922337203685477.5807");
    assert_eq!(Amount::from_units(i64::MIN).to_text(), "-922337203685477.5808");
}

#[test]
fn the_text_of_an_amount_reads_back() {
    let samples: [i64; 12] = [
        0,
        1,
        -1,
        9,
        10,
        9_999,
        10_000,
        -10_001,
        123_456_789,
        -987_654_321_000,
        i64::MAX,
        i64::MIN,
    ];
    for units in samples {
        let a = Amount::from_units(units);
        assert_eq!(Amount::parse(&a.to_text()), Some(a));
    }
}

#[test]
fn sums_and_differences_are_checked() {
    let a = Amount::from_units(7);
    let b = Amount::from_units(-3);
    assert_eq!(a.checked_add(b), Some(Amount::from_units(4)));
    assert_eq!(a.checked_sub(b), Some(Amount::from_units(10)));
    assert_eq!(Amount::from_units(i64::MAX).checked_add(Amount::from_units(1)), None);
    assert_eq!(Amount::from_units(i64::MIN).checked_sub(Amount::from_units(1)), None);
    assert_eq!(
        Amount::from_units(i64::MIN).checked_add(Amount::from_units(i64::MAX)),
        Some(Amount::from_units(-1))
    );
    assert_eq!(Amount::from_units(0).checked_sub(Amount::from_units(i64::MIN)), None);
}

#[test]
fn from_chars_reads_what_parse_reads() {
    assert_eq!(Amount::from_chars(&chars("3.25")), Some(Amount::from_units(32_500)));
    assert_eq!(Amount::from_chars(&chars("x")), None);
    assert_eq!(Amount::from_chars(&[]), None);
}

#[test]
fn magnitudes_are_read_without_a_sign() {
    assert_eq!(read_magnitude(&chars("3.25")), Some(32_500));
    assert_eq!(read_magnitude(&chars("18446744073709551615.9999")), Some(184_467_440_737_095_516_159_999));
    assert_eq!(read_magnitude(&chars("18446744073709551616")), None);
    assert_eq!(read_magnitude(&chars("-1")), None);
    assert_eq!(read_magnitude(&chars("")), None);
}

#[test]
fn numbers_are_read_from_digits() {
    assert_eq!(parse_u32(&chars("42")), Some(42));
    assert_eq!(parse_u32(&chars("+7")), Some(7));
    assert_eq!(parse_u32(&chars("0")), Some(0));
    assert_eq!(parse_u32(&chars("0012")), Some(12));
    assert_eq!(parse_u32(&chars("4294967295")), Some(u32::MAX));
    assert_eq!(parse_u32(&chars("4294967296")), None);
    assert_eq!(parse_u32(&chars("")), None);
    assert_eq!(parse_u32(&chars("+")), None);
    assert_eq!(parse_u32(&chars("-1")), None);
    assert_eq!(parse_u32(&chars("++1")), None);
    assert_eq!(parse_u32(&chars("1.0")), None);
    assert_eq!(parse_u32(&chars(" 1")), None);
    assert_eq!(read_decimal(&chars("18446744073709551615")), Some(u64::MAX));
    assert_eq!(read_decimal(&chars("18446744073709551616")), None);
    assert_eq!(read_decimal(&chars("")), Some(0));
    assert_eq!(read_decimal(&chars("12a")), None);
}

#[test]
fn numerals_are_written_without_leading_zeros() {
    let mut out = String::from("n=");
    push_decimal(&mut out, 0);
    assert_eq!(out, "n=0");
    push_decimal(&mut out, 1_203);
    assert_eq!(out, "n=01203");
    let mut max = String::new();
    push_decimal(&mut max, u64::MAX);
    assert_eq!(max, "18446744073709551615");
    assert_eq!(digit_str(0), "0");
    assert_eq!(digit_str(9), "9");
}

#[test]
fn white_space_is_that_of_unicode() {
    for c in [' ', '\t', '\n', '\r', '\u{b}', '\u{c}', '\u{85}', '\u{a0}', '\u{1680}', '\u{2000}', '\u{200a}', '\u{2028}', '\u{2029}', '\u{202f}', '\u{205f}', '\u{3000}'] {
        assert!(space(c));
        assert!(c.is_whitespace());
    }
    for c in ['a', '0', '\u{0}', '\u{8}', '\u{e}', '\u{1f}', '\u{200b}', '\u{feff}', '\u{180e}', '\u{2060}'] {
        assert!(!space(c));
        assert!(!c.is_whitespace());
    }
}

#[test]
fn trimming_takes_the_space_off_both_ends_only() {
    let s = chars(" \t a b \n");
    assert_eq!(trim_bounds(&s), (3, 6));
    assert_eq!(trim(&s), &['a', ' ', 'b']);
    let blank = chars(" \u{a0} ");
    assert_eq!(trim(&blank), &[] as &[char]);
    let none = chars("xy");
    assert_eq!(trim_bounds(&none), (0, 2));
    assert_eq!(trim_bounds(&[]), (0, 0));
}

#[test]
fn texts_are_the_same_when_their_characters_are() {
    assert!(same_text("deposit", "deposit"));
    assert!(same_text("", ""));
    assert!(!same_text("deposit", "deposits"));
    assert!(!same_text("deposit", "Deposit"));
    assert!(!same_text("é", "e"));
    assert_eq!(chars_of("aé\u{3000}"), vec!['a', 'é', '\u{3000}']);
    assert_eq!(chars_of(""), Vec::<char>::new());
}
