//! The rules that a transaction must meet before it is stored.

use crate::fraction::{sum, Fraction};
use crate::rational::{entries_view, Rational};
use std::ops::AddAssign;
use vstd::prelude::*;

verus! {

/// Why a transaction is refused.
#[derive(Debug, Clone, Copy, PartialEq, Eq, Structural)]
pub enum ValidationError {
    /// Credits and debits are both zero.
    ZeroValue,
    /// The description is empty.
    MissingDescription,
    /// Credits and debits differ.
    Unbalanced,
    /// An account has an empty name.
    EmptyAccountName,
}

/// The amounts of a list, without their accounts.
pub open spec fn amounts(entries: Seq<(Seq<char>, Fraction)>) -> Seq<Fraction> {
    entries.map_values(|entry: (Seq<char>, Fraction)| entry.1)
}

/// Whether a list names an account with the empty name.
pub open spec fn has_empty_account(entries: Seq<(Seq<char>, Fraction)>) -> bool {
    exists|i: int| 0 <= i < entries.len() && (#[trigger] entries[i]).0.len() == 0
}

/// What `validate` answers: the first rule that the transaction breaks, in
/// the order description, balance, value, account names.
pub open spec fn verdict(
    description: Seq<char>,
    debits: Seq<(Seq<char>, Fraction)>,
    credits: Seq<(Seq<char>, Fraction)>,
) -> Result<(), ValidationError> {
    if description.len() == 0 {
        Err(ValidationError::MissingDescription)
    } else if sum(amounts(debits)) != sum(amounts(credits)) {
        Err(ValidationError::Unbalanced)
    } else if sum(amounts(debits)).numer == 0 {
        Err(ValidationError::ZeroValue)
    } else if has_empty_account(credits) || has_empty_account(debits) {
        Err(ValidationError::EmptyAccountName)
    } else {
        Ok(())
    }
}

/// The sum of the amounts of a list.
fn total(entries: &[(String, Rational)]) -> (total: Rational)
    ensures
        total@ == sum(amounts(entries_view(entries@))),
{
    let ghost all = amounts(entries_view(entries@));
    let mut total = Rational::zero();
    let mut i: usize = 0;
    assert(all.take(0) =~= Seq::<Fraction>::empty());
    while i < entries.len()
        invariant
            i <= entries.len(),
            all == amounts(entries_view(entries@)),
            total@ == sum(all.take(i as int)),
        decreases entries.len() - i,
    {
        let ghost seen = all.take(i as int + 1);
        assert(seen.drop_last() =~= all.take(i as int));
        assert(seen.last() == entries@[i as int].1@);
        total.add_assign(entries[i].1.clone());
        i += 1;
    }
    assert(all.take(i as int) =~= all);
    total
}

/// Whether a list names an account with the empty name.
fn any_empty_account(entries: &[(String, Rational)]) -> (found: bool)
    ensures
        found == has_empty_account(entries_view(entries@)),
{
    let ghost all = entries_view(entries@);
    let mut i: usize = 0;
    while i < entries.len()
        invariant
            i <= entries.len(),
            all == entries_view(entries@),
            forall|j: int| 0 <= j < i ==> (#[trigger] all[j]).0.len() != 0,
        decreases entries.len() - i,
    {
        if entries[i].0.as_str().is_empty() {
            assert(all[i as int].0.len() == 0);
            return true;
        }
        i += 1;
    }
    false
}

/// Checks a transaction: it has a description, its debits and credits sum
/// to the same amount, that amount is not zero, and no account has an empty
/// name. The first rule that is broken, in that order, is the error.
pub fn validate(description: &str, debits: &[(String, Rational)], credits: &[(String, Rational)]) -> (result:
    Result<(), ValidationError>)
    ensures
        result == verdict(description@, entries_view(debits@), entries_view(credits@)),
{
    if description.is_empty() {
        return Err(ValidationError::MissingDescription);
    }
    let sum_debits = total(debits);
    let sum_credits = total(credits);
    if sum_debits != sum_credits {
        return Err(ValidationError::Unbalanced);
    }
    if sum_debits.is_zero() {
        return Err(ValidationError::ZeroValue);
    }
    if any_empty_account(credits) || any_empty_account(debits) {
        return Err(ValidationError::EmptyAccountName);
    }
    Ok(())
}

} // verus!
