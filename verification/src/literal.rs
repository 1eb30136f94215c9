//! The text of an amount: decimal digits, as a whole number `7` or as a
//! fraction `7/3`.

use crate::fraction::{lowest_terms, Fraction};
use crate::rational::RationalError;
use vstd::prelude::*;

verus! {

/// An ASCII decimal digit.
pub open spec fn is_digit(c: char) -> bool {
    '0' <= c && c <= '9'
}

/// A run of one or more decimal digits.
pub open spec fn is_digits(text: Seq<char>) -> bool {
    text.len() > 0 && forall|i: int| 0 <= i < text.len() ==> is_digit(#[trigger] text[i])
}

/// The number that a run of decimal digits denotes.
pub open spec fn decimal_value(digits: Seq<char>) -> nat
    decreases digits.len(),
{
    if digits.len() == 0 {
        0
    } else {
        (10 * decimal_value(digits.drop_last()) + (digits.last() as u32 - '0' as u32)) as nat
    }
}

/// Digits, a slash, digits.
pub open spec fn is_simple_fraction(text: Seq<char>) -> bool {
    match text.index_of_first('/') {
        Some(slash) => is_digits(text.subrange(0, slash)) && is_digits(
            text.subrange(slash + 1, text.len() as int),
        ),
        None => false,
    }
}

/// A whole number or a simple fraction.
pub open spec fn is_fraction_literal(text: Seq<char>) -> bool {
    is_digits(text) || is_simple_fraction(text)
}

/// The numerator that a fraction literal writes.
pub open spec fn literal_numer(text: Seq<char>) -> nat {
    match text.index_of_first('/') {
        Some(slash) => decimal_value(text.subrange(0, slash)),
        None => decimal_value(text),
    }
}

/// The denominator that a fraction literal writes; 1 for a whole number.
pub open spec fn literal_denom(text: Seq<char>) -> nat {
    match text.index_of_first('/') {
        Some(slash) => decimal_value(text.subrange(slash + 1, text.len() as int)),
        None => 1,
    }
}

/// What a text means as an amount: the value of a fraction literal, in
/// lowest terms.
pub open spec fn fraction_literal(text: Seq<char>) -> Result<Fraction, RationalError> {
    if !is_fraction_literal(text) {
        Err(RationalError::MalformedLiteral)
    } else if literal_denom(text) == 0 {
        Err(RationalError::DenominatorZero)
    } else {
        Ok(lowest_terms(literal_numer(text), literal_denom(text)))
    }
}

/// The characters of a text.
pub fn chars_of(text: &str) -> (chars: Vec<char>)
    ensures
        chars@ == text@,
{
    let mut chars: Vec<char> = Vec::new();
    for c in it: text.chars()
        invariant
            it.seq() == text@,
            chars@ == it.seq().take(it.index()),
    {
        chars.push(c);
        assert(it.seq().take(it.index() + 1) =~= it.seq().take(it.index()).push(c));
    }
    assert(chars@ =~= text@);
    chars
}

/// The position of the first `needle` among the characters, if it occurs.
pub fn find(chars: &[char], needle: char) -> (position: Option<usize>)
    ensures
        match position {
            Some(index) => chars@.index_of_first(needle) == Some(index as int),
            None => chars@.index_of_first(needle) == None::<int>,
        },
{
    let mut i: usize = 0;
    while i < chars.len()
        invariant
            i <= chars.len(),
            forall|j: int| 0 <= j < i ==> chars@[j] != needle,
        decreases chars.len() - i,
    {
        if chars[i] == needle {
            proof {
                chars@.index_of_first_ensures(needle);
            }
            return Some(i);
        }
        i += 1;
    }
    proof {
        chars@.index_of_first_ensures(needle);
    }
    None
}

/// Whether the characters from `start` up to `end` are one or more digits.
pub fn all_digits(chars: &[char], start: usize, end: usize) -> (digits: bool)
    requires
        start <= end <= chars@.len(),
    ensures
        digits == is_digits(chars@.subrange(start as int, end as int)),
{
    let ghost run = chars@.subrange(start as int, end as int);
    if start == end {
        return false;
    }
    let mut i: usize = start;
    while i < end
        invariant
            start <= i <= end <= chars@.len(),
            run == chars@.subrange(start as int, end as int),
            forall|j: int| 0 <= j < i - start ==> is_digit(#[trigger] run[j]),
        decreases end - i,
    {
        let c = chars[i];
        if !('0' <= c && c <= '9') {
            assert(!is_digit(run[i - start]));
            return false;
        }
        i += 1;
    }
    true
}

/// Whether the characters are digits, a slash, digits.
pub fn is_fraction(chars: &[char]) -> (fraction: bool)
    ensures
        fraction == is_simple_fraction(chars@),
{
    proof {
        chars@.index_of_first_ensures('/');
    }
    match find(chars, '/') {
        Some(slash) => {
            assert(slash < chars.len());
            all_digits(chars, 0, slash) && all_digits(chars, slash + 1, chars.len())
        },
        None => false,
    }
}

/// Whether the characters are a whole number or a simple fraction.
pub fn is_literal(chars: &[char]) -> (literal: bool)
    ensures
        literal == is_fraction_literal(chars@),
{
    proof {
        chars@.index_of_first_ensures('/');
    }
    match find(chars, '/') {
        Some(slash) => {
            assert(!is_digits(chars@)) by {
                if is_digits(chars@) {
                    assert(is_digit(chars@[slash as int]));
                }
            }
            assert(slash < chars.len());
            all_digits(chars, 0, slash) && all_digits(chars, slash + 1, chars.len())
        },
        None => {
            assert(chars@.subrange(0, chars@.len() as int) =~= chars@);
            all_digits(chars, 0, chars.len())
        },
    }
}

} // verus!
