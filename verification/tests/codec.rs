use sharebill::rational::{Rational, RationalError};

fn amount(numer: u32, denom: u32) -> Rational {
    Rational::new(&numer.to_le_bytes(), &denom.to_le_bytes()).unwrap()
}

#[test]
fn encode_writes_prefix_numerator_denominator() {
    assert_eq!(amount(3, 14).encode(), vec![1, 0, 0, 0, 3, 14]);
    assert_eq!(amount(1, 1).encode(), vec![1, 0, 0, 0, 1, 1]);
    assert_eq!(Rational::zero().encode(), vec![1, 0, 0, 0, 0, 1]);
    // 1125 == 101 + 4 * 256, 65537 == 1 + 0 * 256 + 1 * 65536
    assert_eq!(amount(1125, 65537).encode(), vec![2, 0, 0, 0, 101, 4, 1, 0, 1]);
}

#[test]
fn encode_reduces_nothing_but_new_did() {
    assert_eq!(amount(6, 4).encode(), vec![1, 0, 0, 0, 3, 2]);
}

#[test]
fn encode_of_a_long_numerator() {
    let numer = vec![7u8; 300];
    let value = Rational::new(&numer, &[1]).unwrap();
    assert!(value.is_encodable());
    let bytes = value.encode();
    assert_eq!(&bytes[..4], &[44u8, 1, 0, 0][..]);
    assert_eq!(&bytes[4..304], &numer[..]);
    assert_eq!(&bytes[304..], &[1u8][..]);
    assert_eq!(Rational::decode(&bytes).unwrap(), value);
}

#[test]
fn decode_round_trips() {
    for (numer, denom) in [(0u32, 1u32), (1, 1), (3, 14), (5, 3), (255, 256), (65536, 3), (u32::MAX, 7)] {
        let value = amount(numer, denom);
        assert_eq!(Rational::decode(&value.encode()), Ok(value));
    }
}

#[test]
fn decode_gives_lowest_terms() {
    assert_eq!(Rational::decode(&[1, 0, 0, 0, 6, 4]), Ok(amount(3, 2)));
    assert_eq!(Rational::decode(&[1, 0, 0, 0, 0, 9]), Ok(Rational::zero()));
}

#[test]
fn decode_takes_an_empty_numerator_run_as_zero() {
    assert_eq!(Rational::decode(&[0, 0, 0, 0, 1]), Ok(Rational::zero()));
    assert_eq!(Rational::decode(&[0, 0, 0, 0, 5, 0]), Ok(Rational::zero()));
}

#[test]
fn decode_tolerates_padding() {
    let one = amount(1, 1);
    for numer_padding in [0usize, 2, 4] {
        for denom_padding in [0usize, 2, 4] {
            let mut bytes = vec![1 + numer_padding as u8, 0, 0, 0, 1];
            bytes.extend(std::iter::repeat(0).take(numer_padding));
            bytes.push(1);
            bytes.extend(std::iter::repeat(0).take(denom_padding));
            assert_eq!(Rational::decode(&bytes), Ok(one.clone()));
        }
    }
    assert_eq!(Rational::decode(&[3, 0, 0, 0, 3, 0, 0, 14, 0, 0, 0]), Ok(amount(3, 14)));
}

#[test]
fn decode_rejects_truncated_input() {
    assert_eq!(Rational::decode(&[]), Err(RationalError::Truncated));
    assert_eq!(Rational::decode(&[1, 0, 0]), Err(RationalError::Truncated));
    assert_eq!(Rational::decode(&[0, 0, 0, 0]), Err(RationalError::Truncated));
    assert_eq!(Rational::decode(&[0, 0, 0, 1]), Err(RationalError::Truncated));
    assert_eq!(Rational::decode(&[1, 0, 0, 0]), Err(RationalError::Truncated));
    assert_eq!(Rational::decode(&[1, 0, 0, 0, 1]), Err(RationalError::Truncated));
    assert_eq!(Rational::decode(&[2, 0, 0, 0, 1]), Err(RationalError::Truncated));
    assert_eq!(Rational::decode(&[3, 0, 0, 0, 1, 1]), Err(RationalError::Truncated));
    assert_eq!(Rational::decode(&[0, 1, 0, 0, 1, 1]), Err(RationalError::Truncated));
}

#[test]
fn decode_rejects_a_zero_denominator() {
    assert_eq!(Rational::decode(&[1, 0, 0, 0, 1, 0]), Err(RationalError::DenominatorZero));
    assert_eq!(Rational::decode(&[1, 0, 0, 0, 1, 0, 0, 0]), Err(RationalError::DenominatorZero));
    assert_eq!(Rational::decode(&[0, 0, 0, 0, 0]), Err(RationalError::DenominatorZero));
}
