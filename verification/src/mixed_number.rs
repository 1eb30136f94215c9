//! Amounts written as mixed numbers: `2`, `5/3`, or `2 1/3` for 7/3.

use crate::fraction::Fraction;
use crate::literal::{
    all_digits, chars_of, find, fraction_literal, is_digits, is_fraction, is_fraction_literal,
    is_literal, is_simple_fraction,
};
use crate::rational::{Rational, RationalError};
use vstd::prelude::*;
use vstd::slice::slice_subrange;

verus! {

/// The three shapes of a mixed number without its sign: a whole number, a
/// whole number and a simple fraction with one space between them, or a
/// simple fraction.
pub open spec fn is_mixed_number(text: Seq<char>) -> bool {
    match text.index_of_first(' ') {
        Some(space) => is_digits(text.subrange(0, space)) && is_simple_fraction(
            text.subrange(space + 1, text.len() as int),
        ),
        None => is_fraction_literal(text),
    }
}

/// The value of a mixed number without its sign: the whole part plus the
/// fraction, where both are there.
pub open spec fn mixed_number_value(text: Seq<char>) -> Result<Fraction, RationalError> {
    match text.index_of_first(' ') {
        Some(space) => match (
            fraction_literal(text.subrange(0, space)),
            fraction_literal(text.subrange(space + 1, text.len() as int)),
        ) {
            (Ok(whole), Ok(part)) => Ok(whole.plus(part)),
            (Err(error), _) => Err(error),
            (_, Err(error)) => Err(error),
        },
        None => fraction_literal(text),
    }
}

/// What a text means as a mixed number. A leading `-` is a sign; a text
/// that is no mixed number after its sign is malformed, and a mixed number
/// with a sign is refused as negative, whatever its value.
pub open spec fn mixed_number(text: Seq<char>) -> Result<Fraction, RationalError> {
    let negative = text.len() > 0 && text[0] == '-';
    let body = if negative {
        text.drop_first()
    } else {
        text
    };
    if !is_mixed_number(body) {
        Err(RationalError::MalformedLiteral)
    } else if negative {
        Err(RationalError::NegativeUnsupported)
    } else {
        mixed_number_value(body)
    }
}

/// Reads a mixed number. `MalformedLiteral` for a text of another shape,
/// `NegativeUnsupported` for a mixed number with a minus sign,
/// `DenominatorZero` for one whose fraction has a zero denominator.
pub fn parse_mixed_number(number: &str) -> (result: Result<Rational, RationalError>)
    ensures
        match result {
            Ok(value) => mixed_number(number@) == Ok::<Fraction, RationalError>(value@),
            Err(error) => mixed_number(number@) == Err::<Fraction, RationalError>(error),
        },
{
    let chars = chars_of(number);
    let negative = chars.len() > 0 && chars[0] == '-';
    let start: usize = if negative {
        1
    } else {
        0
    };
    let body = slice_subrange(chars.as_slice(), start, chars.len());
    assert(body@ =~= if negative {
        number@.drop_first()
    } else {
        number@
    });
    proof {
        body@.index_of_first_ensures(' ');
    }
    match find(body, ' ') {
        Some(space) => {
            let whole = slice_subrange(body, 0, space);
            let part = slice_subrange(body, space + 1, body.len());
            if !(all_digits(body, 0, space) && is_fraction(part)) {
                return Err(RationalError::MalformedLiteral);
            }
            if negative {
                return Err(RationalError::NegativeUnsupported);
            }
            let whole = match Rational::from_chars(whole) {
                Ok(value) => value,
                Err(error) => { return Err(error); },
            };
            let part = match Rational::from_chars(part) {
                Ok(value) => value,
                Err(error) => { return Err(error); },
            };
            Ok(whole + part)
        },
        None => {
            if !is_literal(body) {
                return Err(RationalError::MalformedLiteral);
            }
            if negative {
                return Err(RationalError::NegativeUnsupported);
            }
            Rational::from_chars(body)
        },
    }
}

} // verus!
