use lexer::decimal::Decimal;

#[test]
fn parse_reads_whole_numbers() {
    assert_eq!(Decimal::parse("0"), Some(Decimal { whole: vec![0], fraction: vec![] }));
    assert_eq!(
        Decimal::parse("1234567890"),
        Some(Decimal { whole: vec![1, 2, 3, 4, 5, 6, 7, 8, 9, 0], fraction: vec![] })
    );
}

#[test]
fn parse_reads_fractions() {
    assert_eq!(Decimal::parse("3.14"), Some(Decimal { whole: vec![3], fraction: vec![1, 4] }));
    assert_eq!(Decimal::parse("10.0"), Some(Decimal { whole: vec![1, 0], fraction: vec![0] }));
}

#[test]
fn parse_reads_numbers_too_long_for_a_machine_word() {
    let text = "123456789012345678901234567890";
    let parsed = Decimal::parse(text).unwrap();
    assert_eq!(parsed.whole.len(), 30);
    assert_eq!(parsed.whole[29], 0);
    assert_eq!(parsed.whole[0], 1);
    assert!(parsed.fraction.is_empty());
}

#[test]
fn parse_refuses_what_is_no_number_literal() {
    for text in ["", ".", "1.", ".5", "1.2.3", "1a", "a1", "-1", "+1", "1e5", " 1", "1 ", "1..2"] {
        assert_eq!(Decimal::parse(text), None);
    }
}

#[test]
fn parse_refuses_digits_outside_the_basic_ones() {
    assert_eq!(Decimal::parse("\u{661}\u{662}"), None);
    assert_eq!(Decimal::parse("1.\u{662}"), None);
}
