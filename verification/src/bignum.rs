//! Arbitrary-precision arithmetic, done by the `num` crate. Each function here
//! hands magnitudes over as little-endian bytes and takes the result back the
//! same way; its contract is taken on trust from the crate's behaviour.

use crate::balance::{difference, SignedFraction};
use crate::fraction::{lowest_terms, Fraction};
use crate::literal::{is_fraction_literal, literal_denom, literal_numer};
use crate::magnitude::{is_minimal, le_value};
use num::rational::{ParseRatioError, Ratio};
use num::{BigInt, BigRational, BigUint, Signed};
use std::str::FromStr;
use vstd::prelude::*;

verus! {

/// The error of `Ratio::from_str`. It says that a part is no number or that
/// the denominator is zero, and keeps which to itself.
#[verifier::external_type_specification]
#[verifier::external_body]
pub struct ExParseRatioError(ParseRatioError);

/// `Ratio::<BigUint>::new`: the fraction `numer / denom` reduced to lowest
/// terms, each part as the minimal bytes that `BigUint::to_bytes_le` gives.
/// `BigUint::from_bytes_le` reads any little-endian string, padded or not.
/// `Ratio::new` panics on a zero denominator, which the precondition excludes.
#[verifier::external_body]
pub(crate) fn reduce(numer: &[u8], denom: &[u8]) -> (parts: (Vec<u8>, Vec<u8>))
    requires
        le_value(denom@) > 0,
    ensures
        is_minimal(parts.0@),
        is_minimal(parts.1@),
        (Fraction { numer: le_value(parts.0@), denom: le_value(parts.1@) }) == lowest_terms(
            le_value(numer@),
            le_value(denom@),
        ),
{
    let ratio = Ratio::new(BigUint::from_bytes_le(numer), BigUint::from_bytes_le(denom));
    (ratio.numer().to_bytes_le(), ratio.denom().to_bytes_le())
}

/// `Ratio<BigUint> + Ratio<BigUint>`: the sum of two fractions with positive
/// denominators, in lowest terms, as minimal bytes. The crate brings both to
/// the least common denominator, adds and reduces, which is the same number
/// as the cross-multiplied sum.
#[verifier::external_body]
pub(crate) fn sum(a_numer: &[u8], a_denom: &[u8], b_numer: &[u8], b_denom: &[u8]) -> (parts: (
    Vec<u8>,
    Vec<u8>,
))
    requires
        le_value(a_denom@) > 0,
        le_value(b_denom@) > 0,
    ensures
        is_minimal(parts.0@),
        is_minimal(parts.1@),
        (Fraction { numer: le_value(parts.0@), denom: le_value(parts.1@) }) == (Fraction {
            numer: le_value(a_numer@),
            denom: le_value(a_denom@),
        }).plus(Fraction { numer: le_value(b_numer@), denom: le_value(b_denom@) }),
{
    let a = Ratio::new_raw(BigUint::from_bytes_le(a_numer), BigUint::from_bytes_le(a_denom));
    let b = Ratio::new_raw(BigUint::from_bytes_le(b_numer), BigUint::from_bytes_le(b_denom));
    let total = a + b;
    (total.numer().to_bytes_le(), total.denom().to_bytes_le())
}

/// `Ratio::<BigUint>::from_str` on a whole number or a simple fraction of
/// ASCII decimal digits: the crate splits at the first slash, reads each part
/// in base ten (the denominator is 1 where there is no slash), fails where
/// the denominator is zero and else reduces to lowest terms. On such a text no
/// part fails to parse, so a zero denominator is the only error.
#[verifier::external_body]
pub(crate) fn parse(literal: &[char]) -> (result: Result<(Vec<u8>, Vec<u8>), ParseRatioError>)
    requires
        is_fraction_literal(literal@),
    ensures
        match result {
            Ok(parts) => {
                &&& literal_denom(literal@) != 0
                &&& is_minimal(parts.0@)
                &&& is_minimal(parts.1@)
                &&& (Fraction { numer: le_value(parts.0@), denom: le_value(parts.1@) })
                    == lowest_terms(literal_numer(literal@), literal_denom(literal@))
            },
            Err(_) => literal_denom(literal@) == 0,
        },
{
    let text: String = literal.iter().collect();
    let ratio = Ratio::<BigUint>::from_str(&text)?;
    Ok((ratio.numer().to_bytes_le(), ratio.denom().to_bytes_le()))
}

/// `BigRational - BigRational`, each made with `From<(BigInt, BigInt)>` from
/// magnitudes promoted with `BigInt::from`: whether the difference of two
/// fractions with positive denominators is below zero, and its absolute value
/// in lowest terms, as minimal bytes. The crate keeps the denominator of a
/// signed fraction positive, so the sign of the numerator is the sign of the
/// difference.
#[verifier::external_body]
pub(crate) fn subtract(
    credit_numer: &[u8],
    credit_denom: &[u8],
    debit_numer: &[u8],
    debit_denom: &[u8],
) -> (parts: (bool, Vec<u8>, Vec<u8>))
    requires
        le_value(credit_denom@) > 0,
        le_value(debit_denom@) > 0,
    ensures
        is_minimal(parts.1@),
        is_minimal(parts.2@),
        (SignedFraction {
            negative: parts.0,
            magnitude: Fraction { numer: le_value(parts.1@), denom: le_value(parts.2@) },
        }) == difference(
            Fraction { numer: le_value(credit_numer@), denom: le_value(credit_denom@) },
            Fraction { numer: le_value(debit_numer@), denom: le_value(debit_denom@) },
        ),
{
    let credit_numer = BigInt::from(BigUint::from_bytes_le(credit_numer));
    let credit_denom = BigInt::from(BigUint::from_bytes_le(credit_denom));
    let debit_numer = BigInt::from(BigUint::from_bytes_le(debit_numer));
    let debit_denom = BigInt::from(BigUint::from_bytes_le(debit_denom));
    let credit = BigRational::from((credit_numer, credit_denom));
    let balance = credit - BigRational::from((debit_numer, debit_denom));
    let (numer, denom) = (balance.numer(), balance.denom());
    (numer.is_negative(), numer.magnitude().to_bytes_le(), denom.magnitude().to_bytes_le())
}

} // verus!
