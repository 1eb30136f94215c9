use sharebill::rational::{Rational, RationalError, SumRat};

fn rational(numer: u32, denom: u32) -> Rational {
    Rational::new(&numer.to_le_bytes(), &denom.to_le_bytes()).unwrap()
}

fn through_storage(value: &Rational) -> Rational {
    assert!(value.is_encodable());
    Rational::decode(&value.encode()).unwrap()
}

#[test]
fn basic_db_roundtrip() {
    let res = through_storage(&rational(3, 14));
    assert_eq!(rational(3, 14), res);
}

#[test]
fn db_invalid_value_gives_error() {
    let res = Rational::decode(&[]);
    assert!(res.is_err());

    let res = Rational::decode(&[0x00, 0x00, 0x00, 0x00]);
    assert!(res.is_err());

    let res = Rational::decode(&[0x00, 0x00, 0x00, 0x01]);
    assert!(res.is_err());

    let res = Rational::decode(&[0x01, 0x00, 0x00, 0x00]);
    assert!(res.is_err());

    let res = Rational::decode(&[0x01, 0x00, 0x00, 0x00, 0x01]);
    assert!(res.is_err());

    // 1/1
    let res = Rational::decode(&[0x01, 0x00, 0x00, 0x00, 0x01, 0x01]);
    assert!(res.is_ok());

    // 1/1 with trailing zeroes on the denominator
    let res = Rational::decode(&[0x01, 0x00, 0x00, 0x00, 0x01, 0x01, 0x00, 0x00]);
    assert!(res.is_ok());

    // 1/1 with trailing zeroes on both runs
    let res = Rational::decode(&[0x02, 0x00, 0x00, 0x00, 0x01, 0x00, 0x01, 0x00, 0x00]);
    assert!(res.is_ok());
}

#[test]
fn sum_rat() {
    let mut aggregate = SumRat::default();
    aggregate.step(through_storage(&rational(3, 14)));
    aggregate.step(through_storage(&rational(2, 14)));
    let res = through_storage(&SumRat::finalize(Some(aggregate)));
    assert_eq!(rational(5, 14), res);
}

#[test]
fn new_reduces_to_lowest_terms() {
    let value = rational(6, 4);
    assert_eq!(value.numer_bytes(), &[3u8][..]);
    assert_eq!(value.denom_bytes(), &[2u8][..]);
    assert_eq!(value.into_inner(), (vec![3u8], vec![2u8]));
}

#[test]
fn new_rejects_zero_denominator() {
    assert_eq!(Rational::new(&[1], &[0]), Err(RationalError::DenominatorZero));
    assert_eq!(Rational::new(&[1], &[]), Err(RationalError::DenominatorZero));
    assert_eq!(Rational::new(&[1], &[0, 0, 0]), Err(RationalError::DenominatorZero));
}

#[test]
fn zero_is_zero_over_one() {
    let zero = Rational::zero();
    assert!(zero.is_zero());
    assert_eq!(zero.numer_bytes(), &[0u8][..]);
    assert_eq!(zero.denom_bytes(), &[1u8][..]);
    assert_eq!(Rational::default(), zero);
    assert_eq!(rational(0, 7), zero);
    assert!(!rational(1, 7).is_zero());
}

#[test]
fn from_u32_is_a_whole_number() {
    assert_eq!(Rational::from(2u32), rational(2, 1));
    assert_eq!(Rational::from(0u32), Rational::zero());
    let big = Rational::from(0x0102_0304u32);
    assert_eq!(big.numer_bytes(), &[4u8, 3, 2, 1][..]);
    assert_eq!(big.denom_bytes(), &[1u8][..]);
    assert_eq!(Rational::from(u32::MAX).numer_bytes(), &[255u8, 255, 255, 255][..]);
}

#[test]
fn new_reads_padded_magnitudes() {
    assert_eq!(Rational::new(&[3, 0, 0], &[14, 0]).unwrap(), rational(3, 14));
    assert_eq!(Rational::new(&[], &[5]).unwrap(), Rational::zero());
}

#[test]
fn addition_is_exact() {
    assert_eq!(rational(1, 2) + rational(1, 3), rational(5, 6));
    assert_eq!(rational(1, 6) + rational(1, 3), rational(1, 2));
    let mut value = rational(3, 14);
    value += rational(2, 14);
    assert_eq!(value, rational(5, 14));
}

#[test]
fn addition_has_zero_as_identity_and_commutes() {
    let a = rational(7, 3);
    let b = rational(5, 12);
    assert_eq!(a.clone() + Rational::zero(), a);
    assert_eq!(Rational::zero() + a.clone(), a);
    assert_eq!(a.clone() + b.clone(), b + a);
}

#[test]
fn addition_is_associative() {
    let (a, b, c) = (rational(1, 2), rational(2, 3), rational(3, 4));
    let left = (a.clone() + b.clone()) + c.clone();
    let right = a + (b + c);
    assert_eq!(left, right);
    assert_eq!(left, rational(23, 12));
}

#[test]
fn addition_goes_beyond_machine_words() {
    // (2^64 - 1) / 1 + 1 / 1 == 2^64 / 1
    let value = Rational::new(&[255; 8], &[1]).unwrap() + Rational::from(1u32);
    assert_eq!(value.numer_bytes(), &[0u8, 0, 0, 0, 0, 0, 0, 0, 1][..]);
    assert_eq!(value.denom_bytes(), &[1u8][..]);
}

#[test]
fn equal_numbers_are_equal_values() {
    assert_eq!(rational(2, 4), rational(1, 2));
    assert_eq!(rational(2, 4).clone(), rational(3, 6));
    assert_ne!(rational(1, 2), rational(1, 3));
    assert_ne!(rational(1, 2), rational(2, 1));
}

#[test]
fn aggregate_of_no_rows_is_zero() {
    assert_eq!(SumRat::finalize(None), Rational::zero());
    assert_eq!(SumRat::finalize(Some(SumRat::default())), Rational::zero());
}

#[test]
fn from_integer_is_a_whole_number() {
    assert_eq!(Rational::from_integer(0), Rational::zero());
    assert_eq!(Rational::from_integer(14), rational(14, 1));
    let most = Rational::from_integer(u64::MAX);
    assert_eq!(most.numer_bytes(), &[255u8; 8][..]);
    assert_eq!(most.denom_bytes(), &[1u8][..]);
}
