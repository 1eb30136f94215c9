use sharebill::mixed_number::parse_mixed_number;
use sharebill::rational::{Rational, RationalError};

fn frac(numer: u32, denom: u32) -> Rational {
    Rational::new(&numer.to_le_bytes(), &denom.to_le_bytes()).unwrap()
}

#[test]
fn from_str_reads_whole_numbers_and_fractions() {
    assert_eq!(Rational::from_str("2"), Ok(frac(2, 1)));
    assert_eq!(Rational::from_str("5/3"), Ok(frac(5, 3)));
    assert_eq!(Rational::from_str("10/4"), Ok(frac(5, 2)));
    assert_eq!(Rational::from_str("007"), Ok(frac(7, 1)));
    assert_eq!(Rational::from_str("0/5"), Ok(Rational::zero()));
    assert_eq!(Rational::from_str("10/4").unwrap().into_inner(), (vec![5u8], vec![2u8]));
}

#[test]
fn from_str_reads_long_numbers() {
    // 2^64 == 18446744073709551616
    let value = Rational::from_str("18446744073709551616/3").unwrap();
    assert_eq!(value.numer_bytes(), &[0u8, 0, 0, 0, 0, 0, 0, 0, 1][..]);
    assert_eq!(value.denom_bytes(), &[3u8][..]);
}

#[test]
fn from_str_rejects_other_text() {
    for text in ["", "/", "1/", "/2", "1/2/3", "-1", "+1", "1 1/2", " 1", "1 ", "a", "1.5", "1_000", "٣"] {
        assert_eq!(Rational::from_str(text), Err(RationalError::MalformedLiteral), "{text:?}");
    }
}

#[test]
fn from_str_rejects_a_zero_denominator() {
    assert_eq!(Rational::from_str("5/0"), Err(RationalError::DenominatorZero));
    assert_eq!(Rational::from_str("0/000"), Err(RationalError::DenominatorZero));
}

#[test]
fn mixed_number_forms() {
    assert_eq!(parse_mixed_number("2"), Ok(frac(2, 1)));
    assert_eq!(parse_mixed_number("5/3"), Ok(frac(5, 3)));
    assert_eq!(parse_mixed_number("2 1/3"), Ok(frac(7, 3)));
    assert_eq!(parse_mixed_number("0 0/5"), Ok(Rational::zero()));
    assert_eq!(parse_mixed_number("12 6/4"), Ok(frac(27, 2)));
}

#[test]
fn mixed_number_refuses_negative_numbers() {
    assert_eq!(parse_mixed_number("-5/3"), Err(RationalError::NegativeUnsupported));
    assert_eq!(parse_mixed_number("-2"), Err(RationalError::NegativeUnsupported));
    assert_eq!(parse_mixed_number("-2 1/3"), Err(RationalError::NegativeUnsupported));
    assert_eq!(parse_mixed_number("-5/0"), Err(RationalError::NegativeUnsupported));
}

#[test]
fn mixed_number_rejects_other_text() {
    for text in ["", "-", "abc", "2 3", "2  1/3", "2 1/3 ", " 2", "1/2 3", "2 -1/3", "--2", "+2", "2 1/", "1/2/3", "2.5"] {
        assert_eq!(parse_mixed_number(text), Err(RationalError::MalformedLiteral), "{text:?}");
    }
}

#[test]
fn mixed_number_rejects_a_zero_denominator() {
    assert_eq!(parse_mixed_number("5/0"), Err(RationalError::DenominatorZero));
    assert_eq!(parse_mixed_number("2 1/0"), Err(RationalError::DenominatorZero));
}

#[test]
fn text_parses_into_a_value() {
    assert_eq!("5/3".parse::<Rational>(), Ok(frac(5, 3)));
    assert_eq!("x".parse::<Rational>(), Err(RationalError::MalformedLiteral));
}

#[test]
fn from_signed_refuses_negative_numbers() {
    assert_eq!(Rational::from_signed(0), Ok(Rational::zero()));
    assert_eq!(Rational::from_signed(7), Ok(frac(7, 1)));
    assert_eq!(Rational::from_signed(-1), Err(RationalError::NegativeUnsupported));
    assert_eq!(Rational::from_signed(i64::MIN), Err(RationalError::NegativeUnsupported));
    let most = Rational::from_signed(i64::MAX).unwrap();
    assert_eq!(most.numer_bytes(), &[255u8, 255, 255, 255, 255, 255, 255, 127][..]);
    assert_eq!(most.denom_bytes(), &[1u8][..]);
    let mixed = Rational::from_signed(0x0102_0304_0506).unwrap();
    assert_eq!(mixed.numer_bytes(), &[6u8, 5, 4, 3, 2, 1][..]);
}
