//! The rational value type.

use crate::bignum;
use crate::fraction;
use crate::fraction::{gcd, lemma_lowest_terms, lemma_plus_canonical, lowest_terms, Fraction};
use crate::literal::{chars_of, fraction_literal, is_literal, literal_denom, literal_numer};
use crate::magnitude::{
    bytes_of, is_minimal, is_zero, le_bytes, le_value, lemma_minimal_is_le_bytes,
    lemma_single_byte_value,
};
use std::ops::AddAssign;
use vstd::prelude::*;

verus! {

/// Why a value could not be built, decoded or parsed.
#[derive(Debug, Clone, Copy, PartialEq, Eq, Structural)]
pub enum RationalError {
    /// The denominator is zero.
    DenominatorZero,
    /// The bytes end before the layout they announce.
    Truncated,
    /// The text is not a literal of the grammar.
    MalformedLiteral,
    /// The literal carries a minus sign.
    NegativeUnsupported,
}

/// A non-negative rational number of arbitrary precision, always in lowest
/// terms with a positive denominator. Both parts are kept as their minimal
/// little-endian bytes, so that equal numbers are equal byte for byte.
#[derive(Debug)]
pub struct Rational {
    numer: Vec<u8>,
    denom: Vec<u8>,
}

impl View for Rational {
    type V = Fraction;

    closed spec fn view(&self) -> Fraction {
        Fraction { numer: le_value(self.numer@), denom: le_value(self.denom@) }
    }
}

impl Rational {
    #[verifier::type_invariant]
    spec fn inv(self) -> bool {
        &&& is_minimal(self.numer@)
        &&& is_minimal(self.denom@)
        &&& self@.is_canonical()
    }

    /// The value `numer / denom` of two little-endian magnitudes, in lowest
    /// terms; `DenominatorZero` when `denom` denotes zero.
    pub fn new(numer: &[u8], denom: &[u8]) -> (result: Result<Rational, RationalError>)
        ensures
            match result {
                Ok(value) => le_value(denom@) != 0 && value@.is_canonical() && value@
                    == lowest_terms(le_value(numer@), le_value(denom@)),
                Err(error) => le_value(denom@) == 0 && error == RationalError::DenominatorZero,
            },
    {
        if is_zero(denom) {
            return Err(RationalError::DenominatorZero);
        }
        let parts = bignum::reduce(numer, denom);
        proof {
            lemma_lowest_terms(le_value(numer@), le_value(denom@));
        }
        Ok(Rational { numer: parts.0, denom: parts.1 })
    }

    /// The additive identity, `0/1`.
    pub fn zero() -> (value: Rational)
        ensures
            value@ == Fraction::zero(),
            value@.is_canonical(),
    {
        let numer: Vec<u8> = vec![0u8];
        let denom: Vec<u8> = vec![1u8];
        proof {
            lemma_single_byte_value(numer@);
            lemma_single_byte_value(denom@);
            assert(gcd(0, 1) == gcd(1, 0));
        }
        Rational { numer, denom }
    }

    /// The value whose parts are two minimal byte strings.
    pub(crate) fn from_parts(numer: Vec<u8>, denom: Vec<u8>) -> (value: Rational)
        requires
            is_minimal(numer@),
            is_minimal(denom@),
            (Fraction { numer: le_value(numer@), denom: le_value(denom@) }).is_canonical(),
        ensures
            value@ == (Fraction { numer: le_value(numer@), denom: le_value(denom@) }),
    {
        Rational { numer, denom }
    }

    /// The whole number `value`, as `value / 1`.
    pub fn from_integer(value: u64) -> (whole: Rational)
        ensures
            whole@ == (Fraction { numer: value as nat, denom: 1 }),
            whole@.is_canonical(),
    {
        let numer = bytes_of(value);
        let denom: Vec<u8> = vec![1u8];
        proof {
            lemma_single_byte_value(denom@);
            assert(gcd(value as nat, 1) == 1) by {
                assert(value as nat % 1 == 0);
                assert(gcd(1, 0) == 1);
            }
            assert(value as nat / 1 == value as nat);
        }
        let parts = bignum::reduce(numer.as_slice(), denom.as_slice());
        Rational { numer: parts.0, denom: parts.1 }
    }

    /// The whole number `value`; `NegativeUnsupported` where it is below zero.
    pub fn from_signed(value: i64) -> (result: Result<Rational, RationalError>)
        ensures
            match result {
                Ok(whole) => value >= 0 && whole@ == (Fraction { numer: value as nat, denom: 1 }),
                Err(error) => value < 0 && error == RationalError::NegativeUnsupported,
            },
    {
        if value < 0 {
            Err(RationalError::NegativeUnsupported)
        } else {
            Ok(Rational::from_integer(value as u64))
        }
    }

    /// The numerator, as its minimal little-endian bytes.
    pub fn numer_bytes(&self) -> (bytes: &[u8])
        ensures
            bytes@ == le_bytes(self@.numer),
            self@.is_canonical(),
    {
        proof {
            use_type_invariant(self);
            lemma_minimal_is_le_bytes(self.numer@);
        }
        self.numer.as_slice()
    }

    /// The denominator, as its minimal little-endian bytes.
    pub fn denom_bytes(&self) -> (bytes: &[u8])
        ensures
            bytes@ == le_bytes(self@.denom),
            self@.is_canonical(),
    {
        proof {
            use_type_invariant(self);
            lemma_minimal_is_le_bytes(self.denom@);
        }
        self.denom.as_slice()
    }

    /// The numerator and the denominator, each as its minimal little-endian
    /// bytes.
    pub fn into_inner(self) -> (parts: (Vec<u8>, Vec<u8>))
        ensures
            parts.0@ == le_bytes(self@.numer),
            parts.1@ == le_bytes(self@.denom),
            self@.is_canonical(),
    {
        proof {
            use_type_invariant(&self);
            lemma_minimal_is_le_bytes(self.numer@);
            lemma_minimal_is_le_bytes(self.denom@);
        }
        (self.numer, self.denom)
    }

    /// Whether the value is zero.
    pub fn is_zero(&self) -> (zero: bool)
        ensures
            zero == (self@.numer == 0),
    {
        is_zero(self.numer.as_slice())
    }

    /// The value of a whole number `7` or a simple fraction `7/3`, in lowest
    /// terms. `MalformedLiteral` for any other text, `DenominatorZero` for a
    /// fraction whose denominator is zero.
    pub fn from_str(text: &str) -> (result: Result<Rational, RationalError>)
        ensures
            match result {
                Ok(value) => fraction_literal(text@) == Ok::<Fraction, RationalError>(value@)
                    && value@.is_canonical(),
                Err(error) => fraction_literal(text@) == Err::<Fraction, RationalError>(error),
            },
    {
        let chars = chars_of(text);
        Rational::from_chars(chars.as_slice())
    }

    /// As `from_str`, on the characters of the text.
    pub fn from_chars(chars: &[char]) -> (result: Result<Rational, RationalError>)
        ensures
            match result {
                Ok(value) => fraction_literal(chars@) == Ok::<Fraction, RationalError>(value@)
                    && value@.is_canonical(),
                Err(error) => fraction_literal(chars@) == Err::<Fraction, RationalError>(error),
            },
    {
        if !is_literal(chars) {
            return Err(RationalError::MalformedLiteral);
        }
        match bignum::parse(chars) {
            Ok(parts) => {
                proof {
                    lemma_lowest_terms(literal_numer(chars@), literal_denom(chars@));
                }
                Ok(Rational { numer: parts.0, denom: parts.1 })
            },
            Err(_) => Err(RationalError::DenominatorZero),
        }
    }
}

impl PartialEq for Rational {
    fn eq(&self, other: &Rational) -> (equal: bool) {
        proof {
            use_type_invariant(self);
            use_type_invariant(other);
            lemma_minimal_is_le_bytes(self.numer@);
            lemma_minimal_is_le_bytes(self.denom@);
            lemma_minimal_is_le_bytes(other.numer@);
            lemma_minimal_is_le_bytes(other.denom@);
        }
        same_bytes(self.numer.as_slice(), other.numer.as_slice()) && same_bytes(
            self.denom.as_slice(),
            other.denom.as_slice(),
        )
    }
}

impl Eq for Rational {

}

impl vstd::std_specs::cmp::PartialEqSpecImpl for Rational {
    open spec fn obeys_eq_spec() -> bool {
        true
    }

    /// Two values are equal when they are the same number.
    open spec fn eq_spec(&self, other: &Rational) -> bool {
        self@ == other@
    }
}

impl vstd::std_specs::convert::FromSpecImpl<u32> for Rational {
    open spec fn obeys_from_spec() -> bool {
        false
    }

    open spec fn from_spec(value: u32) -> Rational {
        arbitrary()
    }
}

impl From<u32> for Rational {
    /// The whole number `value`, as `value / 1`.
    fn from(value: u32) -> (result: Rational)
        ensures
            result@ == (Fraction { numer: value as nat, denom: 1 }),
    {
        Rational::from_integer(value as u64)
    }
}

impl std::str::FromStr for Rational {
    type Err = RationalError;

    /// The value of a whole number `7` or a simple fraction `7/3`, in lowest
    /// terms. `MalformedLiteral` for any other text, `DenominatorZero` for a
    /// fraction whose denominator is zero.
    fn from_str(text: &str) -> (result: Result<Rational, RationalError>)
        ensures
            match result {
                Ok(value) => fraction_literal(text@) == Ok::<Fraction, RationalError>(value@)
                    && value@.is_canonical(),
                Err(error) => fraction_literal(text@) == Err::<Fraction, RationalError>(error),
            },
    {
        Rational::from_str(text)
    }
}

impl Default for Rational {
    /// The additive identity, `0/1`.
    fn default() -> (value: Rational)
        ensures
            value@ == Fraction::zero(),
    {
        Rational::zero()
    }
}

impl Clone for Rational {
    fn clone(&self) -> (copy: Rational)
        ensures
            copy@ == self@,
            copy@.is_canonical(),
    {
        proof {
            use_type_invariant(self);
        }
        Rational { numer: self.numer.clone(), denom: self.denom.clone() }
    }
}

impl vstd::std_specs::ops::AddSpecImpl for Rational {
    open spec fn obeys_add_spec() -> bool {
        false
    }

    open spec fn add_req(self, rhs: Rational) -> bool {
        true
    }

    open spec fn add_spec(self, rhs: Rational) -> Rational {
        arbitrary()
    }
}

impl std::ops::Add for Rational {
    type Output = Rational;

    /// The exact sum, in lowest terms.
    fn add(self, rhs: Rational) -> (total: Rational)
        ensures
            total@ == self@.plus(rhs@),
            total@.is_canonical(),
    {
        proof {
            use_type_invariant(&self);
            use_type_invariant(&rhs);
            lemma_plus_canonical(self@, rhs@);
        }
        let parts = bignum::sum(&self.numer, &self.denom, &rhs.numer, &rhs.denom);
        Rational { numer: parts.0, denom: parts.1 }
    }
}

impl std::ops::AddAssign for Rational {
    /// Adds `rhs` to the value in place.
    fn add_assign(&mut self, rhs: Rational)
        ensures
            final(self)@ == old(self)@.plus(rhs@),
            final(self)@.is_canonical(),
    {
        proof {
            use_type_invariant(&*self);
            use_type_invariant(&rhs);
            lemma_plus_canonical(self@, rhs@);
        }
        let parts = bignum::sum(&self.numer, &self.denom, &rhs.numer, &rhs.denom);
        *self = Rational { numer: parts.0, denom: parts.1 };
    }
}

/// The running state of the aggregate that sums the values of one group.
pub struct SumRat {
    sum: Rational,
}

impl View for SumRat {
    type V = Fraction;

    closed spec fn view(&self) -> Fraction {
        self.sum@
    }
}

impl Default for SumRat {
    /// The state before any value: `0/1`.
    fn default() -> (state: SumRat)
        ensures
            state@ == Fraction::zero(),
    {
        SumRat { sum: Rational::zero() }
    }
}

impl SumRat {
    /// Folds one more value into the sum.
    pub fn step(&mut self, expr: Rational)
        ensures
            final(self)@ == old(self)@.plus(expr@),
    {
        self.sum.add_assign(expr);
    }

    /// The sum of the group: the state if any value was seen, else `0/1`.
    pub fn finalize(aggregator: Option<SumRat>) -> (total: Rational)
        ensures
            total@ == match aggregator {
                Some(state) => state@,
                None => Fraction::zero(),
            },
            total@.is_canonical(),
    {
        match aggregator {
            Some(state) => {
                proof {
                    use_type_invariant(&state.sum);
                }
                state.sum
            },
            None => Rational::zero(),
        }
    }
}

/// The numbers that a sequence of values denotes.
pub open spec fn views(values: Seq<Rational>) -> Seq<Fraction> {
    values.map_values(|value: Rational| value@)
}

/// A list of amounts by account, as mathematical values.
pub open spec fn entries_view(entries: Seq<(String, Rational)>) -> Seq<(Seq<char>, Fraction)> {
    entries.map_values(|entry: (String, Rational)| (entry.0@, entry.1@))
}

/// The sum of the values, folded from the left; `0/1` for no values.
pub fn sum(values: &[Rational]) -> (total: Rational)
    ensures
        total@ == fraction::sum(views(values@)),
        total@.is_canonical(),
{
    let mut total = Rational::zero();
    let mut i: usize = 0;
    assert(views(values@).take(0) =~= Seq::<Fraction>::empty());
    while i < values.len()
        invariant
            i <= values.len(),
            total@ == fraction::sum(views(values@).take(i as int)),
        decreases values.len() - i,
    {
        let ghost seen = views(values@).take(i as int + 1);
        assert(seen.drop_last() =~= views(values@).take(i as int));
        assert(seen.last() == values@[i as int]@);
        total.add_assign(values[i].clone());
        i += 1;
    }
    assert(views(values@).take(i as int) =~= views(values@));
    proof {
        use_type_invariant(&total);
    }
    total
}

/// Whether two byte strings are the same.
fn same_bytes(left: &[u8], right: &[u8]) -> (same: bool)
    ensures
        same == (left@ == right@),
{
    if left.len() != right.len() {
        return false;
    }
    let mut i: usize = 0;
    while i < left.len()
        invariant
            i <= left.len(),
            left.len() == right.len(),
            forall|j: int| 0 <= j < i ==> left@[j] == right@[j],
        decreases left.len() - i,
    {
        if left[i] != right[i] {
            return false;
        }
        i += 1;
    }
    assert(left@ =~= right@);
    true
}

} // verus!
