//! Account balances: what an account was credited less what it was debited.
//! Amounts have no sign; only a balance has one.

use crate::bignum;
use crate::fraction::{gcd, lemma_lowest_terms, lowest_terms, Fraction};
use crate::magnitude::lemma_le_bytes_value;
use crate::rational::{entries_view, Rational};
use std::ops::AddAssign;
use vstd::prelude::*;

verus! {

/// A rational number with a sign, as a mathematical value: a magnitude, and
/// whether the number is below zero.
pub struct SignedFraction {
    pub negative: bool,
    pub magnitude: Fraction,
}

impl SignedFraction {
    /// Whether the number is zero.
    pub open spec fn is_zero(self) -> bool {
        self.magnitude.numer == 0
    }

    /// A canonical value: a canonical magnitude, and no sign on zero.
    pub open spec fn is_canonical(self) -> bool {
        self.magnitude.is_canonical() && (self.negative ==> self.magnitude.numer > 0)
    }
}

/// `credit - debit`: its sign, and its absolute value in lowest terms.
pub open spec fn difference(credit: Fraction, debit: Fraction) -> SignedFraction {
    let left = credit.numer * debit.denom;
    let right = debit.numer * credit.denom;
    if left >= right {
        SignedFraction {
            negative: false,
            magnitude: lowest_terms((left - right) as nat, credit.denom * debit.denom),
        }
    } else {
        SignedFraction {
            negative: true,
            magnitude: lowest_terms((right - left) as nat, credit.denom * debit.denom),
        }
    }
}

/// A difference of two fractions with positive denominators is canonical, and
/// it is zero exactly when the two denote the same number.
pub proof fn lemma_difference(credit: Fraction, debit: Fraction)
    requires
        credit.denom > 0,
        debit.denom > 0,
    ensures
        difference(credit, debit).is_canonical(),
        difference(credit, debit).is_zero() <==> credit.same_number(debit),
{
    let left = credit.numer * debit.denom;
    let right = debit.numer * credit.denom;
    let denom = credit.denom * debit.denom;
    assert(denom > 0) by (nonlinear_arith)
        requires
            denom == credit.denom * debit.denom,
            credit.denom > 0,
            debit.denom > 0,
    ;
    let gap = if left >= right {
        (left - right) as nat
    } else {
        (right - left) as nat
    };
    lemma_lowest_terms(gap, denom);
    let reduced = lowest_terms(gap, denom);
    let g = gcd(gap, denom);
    assert(reduced.numer == 0 <==> gap == 0) by (nonlinear_arith)
        requires
            reduced.numer * g == gap,
            reduced.denom * g == denom,
            denom > 0,
    ;
}

/// A balance: a rational number that may be below zero, in lowest terms.
#[derive(Debug)]
pub struct Balance {
    negative: bool,
    magnitude: Rational,
}

impl View for Balance {
    type V = SignedFraction;

    closed spec fn view(&self) -> SignedFraction {
        SignedFraction { negative: self.negative, magnitude: self.magnitude@ }
    }
}

impl Balance {
    #[verifier::type_invariant]
    spec fn inv(self) -> bool {
        self.negative ==> self.magnitude@.numer > 0
    }

    /// `credit - debit`, exactly.
    pub fn between(credit: &Rational, debit: &Rational) -> (balance: Balance)
        ensures
            balance@ == difference(credit@, debit@),
            balance@.is_canonical(),
    {
        let credit_numer = credit.numer_bytes();
        let credit_denom = credit.denom_bytes();
        let debit_numer = debit.numer_bytes();
        let debit_denom = debit.denom_bytes();
        proof {
            lemma_le_bytes_value(credit@.numer);
            lemma_le_bytes_value(credit@.denom);
            lemma_le_bytes_value(debit@.numer);
            lemma_le_bytes_value(debit@.denom);
            lemma_difference(credit@, debit@);
        }
        let parts = bignum::subtract(credit_numer, credit_denom, debit_numer, debit_denom);
        let magnitude = Rational::from_parts(parts.1, parts.2);
        Balance { negative: parts.0, magnitude }
    }

    /// Whether the balance is exactly zero.
    pub fn is_zero(&self) -> (zero: bool)
        ensures
            zero == self@.is_zero(),
    {
        self.magnitude.is_zero()
    }

    /// Whether the balance is below zero.
    pub fn is_negative(&self) -> (negative: bool)
        ensures
            negative == self@.negative,
            negative ==> !self@.is_zero(),
    {
        proof {
            use_type_invariant(self);
        }
        self.negative
    }

    /// The absolute value of the balance.
    pub fn magnitude(&self) -> (magnitude: &Rational)
        ensures
            magnitude@ == self@.magnitude,
    {
        &self.magnitude
    }
}

/// The net balance of one account.
#[derive(Debug)]
pub struct AccountBalance {
    pub account: String,
    pub balance: Balance,
}

/// The sum of the amounts that a list holds for an account; `0/1` where it
/// holds none.
pub open spec fn total_of(entries: Seq<(Seq<char>, Fraction)>, account: Seq<char>) -> Fraction
    decreases entries.len(),
{
    if entries.len() == 0 {
        Fraction::zero()
    } else if entries.last().0 == account {
        total_of(entries.drop_last(), account).plus(entries.last().1)
    } else {
        total_of(entries.drop_last(), account)
    }
}

/// What an account was credited less what it was debited.
pub open spec fn net(
    credits: Seq<(Seq<char>, Fraction)>,
    debits: Seq<(Seq<char>, Fraction)>,
    account: Seq<char>,
) -> SignedFraction {
    difference(total_of(credits, account), total_of(debits, account))
}

/// The accounts of the credits, then those of the debits, as they stand.
pub open spec fn accounts_of(
    credits: Seq<(Seq<char>, Fraction)>,
    debits: Seq<(Seq<char>, Fraction)>,
) -> Seq<Seq<char>> {
    credits.map_values(|entry: (Seq<char>, Fraction)| entry.0) + debits.map_values(
        |entry: (Seq<char>, Fraction)| entry.0,
    )
}

/// Whether `position` is where `names` first holds the name that stands there.
pub open spec fn is_first(names: Seq<Seq<char>>, position: int) -> bool {
    &&& 0 <= position < names.len()
    &&& forall|earlier: int| 0 <= earlier < position ==> #[trigger] names[earlier] != names[position]
}

/// Where `names` first holds `account`.
pub open spec fn first_position(names: Seq<Seq<char>>, account: Seq<char>) -> int {
    choose|position: int| is_first(names, position) && names[position] == account
}

/// A name has one first position.
proof fn lemma_first_position(names: Seq<Seq<char>>, position: int)
    requires
        is_first(names, position),
    ensures
        first_position(names, names[position]) == position,
{
    let other = first_position(names, names[position]);
    assert(is_first(names, other) && names[other] == names[position]);
    if other < position {
        assert(names[other] != names[position]);
    }
    if position < other {
        assert(names[position] != names[other]);
    }
}

/// A list with no amount for an account totals `0/1` for it.
proof fn lemma_total_of_absent(entries: Seq<(Seq<char>, Fraction)>, account: Seq<char>)
    requires
        forall|i: int| 0 <= i < entries.len() ==> (#[trigger] entries[i]).0 != account,
    ensures
        total_of(entries, account) == Fraction::zero(),
    decreases entries.len(),
{
    if entries.len() > 0 {
        let front = entries.drop_last();
        assert(entries.last() == entries[entries.len() - 1]);
        assert forall|i: int| 0 <= i < front.len() implies (#[trigger] front[i]).0 != account by {
            assert(front[i] == entries[i]);
        }
        lemma_total_of_absent(front, account);
    }
}

/// The sum of the amounts that the list holds for the account.
fn total_for(entries: &[(String, Rational)], account: &String) -> (total: Rational)
    ensures
        total@ == total_of(entries_view(entries@), account@),
        total@.is_canonical(),
{
    let ghost all = entries_view(entries@);
    let mut total = Rational::zero();
    let mut i: usize = 0;
    assert(all.take(0) =~= Seq::<(Seq<char>, Fraction)>::empty());
    while i < entries.len()
        invariant
            i <= entries.len(),
            all == entries_view(entries@),
            total@ == total_of(all.take(i as int), account@),
            total@.is_canonical(),
        decreases entries.len() - i,
    {
        let ghost seen = all.take(i as int + 1);
        assert(seen.drop_last() =~= all.take(i as int));
        assert(seen.last() == (entries@[i as int].0@, entries@[i as int].1@));
        if entries[i].0.eq(account) {
            total.add_assign(entries[i].1.clone());
        }
        i += 1;
    }
    assert(all.take(i as int) =~= all);
    total
}

/// The account that stands at `position` among those of the credits followed
/// by those of the debits.
fn account_at<'a>(
    credits: &'a [(String, Rational)],
    debits: &'a [(String, Rational)],
    position: u128,
) -> (account: &'a String)
    requires
        position < credits@.len() + debits@.len(),
    ensures
        account@ == accounts_of(entries_view(credits@), entries_view(debits@))[position as int],
{
    if position < credits.len() as u128 {
        &credits[position as usize].0
    } else {
        &debits[(position - credits.len() as u128) as usize].0
    }
}

/// Whether the account at `position` stands at no earlier position.
fn first_at(credits: &[(String, Rational)], debits: &[(String, Rational)], position: u128) -> (first:
    bool)
    requires
        position < credits@.len() + debits@.len(),
    ensures
        first == is_first(accounts_of(entries_view(credits@), entries_view(debits@)), position as int),
{
    let ghost names = accounts_of(entries_view(credits@), entries_view(debits@));
    let account = account_at(credits, debits, position);
    let mut earlier: u128 = 0;
    while earlier < position
        invariant
            earlier <= position < credits@.len() + debits@.len(),
            names == accounts_of(entries_view(credits@), entries_view(debits@)),
            account@ == names[position as int],
            forall|j: int| 0 <= j < earlier ==> #[trigger] names[j] != names[position as int],
        decreases position - earlier,
    {
        if account_at(credits, debits, earlier).eq(account) {
            assert(names[earlier as int] == names[position as int]);
            return false;
        }
        earlier += 1;
    }
    true
}

/// The balance of every account whose credits and debits differ: for each
/// account the sum of its credits less the sum of its debits. An account
/// whose balance is exactly zero is left out. The accounts come in the order
/// in which they first occur, in the credits and then in the debits.
pub fn balances(credits: &[(String, Rational)], debits: &[(String, Rational)]) -> (result: Vec<
    AccountBalance,
>)
    ensures
        forall|i: int|
            0 <= i < result@.len() ==> (#[trigger] result@[i]).balance@ == net(
                entries_view(credits@),
                entries_view(debits@),
                result@[i].account@,
            ) && !result@[i].balance@.is_zero(),
        forall|i: int, j: int|
            0 <= i < j < result@.len() ==> first_position(
                accounts_of(entries_view(credits@), entries_view(debits@)),
                (#[trigger] result@[i]).account@,
            ) < first_position(
                accounts_of(entries_view(credits@), entries_view(debits@)),
                (#[trigger] result@[j]).account@,
            ),
        forall|account: Seq<char>|
            !(#[trigger] net(entries_view(credits@), entries_view(debits@), account)).is_zero()
                ==> exists|i: int| 0 <= i < result@.len() && (#[trigger] result@[i]).account@ == account,
{
    let ghost cv = entries_view(credits@);
    let ghost dv = entries_view(debits@);
    let ghost names = accounts_of(cv, dv);
    let count: u128 = credits.len() as u128 + debits.len() as u128;
    let mut result: Vec<AccountBalance> = Vec::new();
    let ghost mut positions: Seq<int> = Seq::empty();
    let mut position: u128 = 0;
    while position < count
        invariant
            position <= count,
            count == credits@.len() + debits@.len(),
            cv == entries_view(credits@),
            dv == entries_view(debits@),
            names == accounts_of(cv, dv),
            positions.len() == result@.len(),
            forall|i: int|
                0 <= i < result@.len() ==> {
                    &&& is_first(names, #[trigger] positions[i])
                    &&& positions[i] < position
                    &&& names[positions[i]] == result@[i].account@
                    &&& result@[i].balance@ == net(cv, dv, result@[i].account@)
                    &&& !result@[i].balance@.is_zero()
                },
            forall|i: int, j: int|
                0 <= i < j < result@.len() ==> #[trigger] positions[i] < #[trigger] positions[j],
            forall|p: int|
                0 <= p < position && is_first(names, p) && !net(cv, dv, #[trigger] names[p]).is_zero()
                    ==> exists|i: int| 0 <= i < result@.len() && #[trigger] positions[i] == p,
        decreases count - position,
    {
        let ghost before = result@;
        let ghost before_positions = positions;
        let mut pushed = false;
        if first_at(credits, debits, position) {
            let account = account_at(credits, debits, position);
            let credit = total_for(credits, account);
            let debit = total_for(debits, account);
            let balance = Balance::between(&credit, &debit);
            if !balance.is_zero() {
                result.push(AccountBalance { account: account.clone(), balance });
                proof {
                    positions = positions.push(position as int);
                }
                pushed = true;
            }
        }
        proof {
            assert forall|i: int| 0 <= i < result@.len() implies {
                &&& is_first(names, #[trigger] positions[i])
                &&& positions[i] < position + 1
                &&& names[positions[i]] == result@[i].account@
                &&& result@[i].balance@ == net(cv, dv, result@[i].account@)
                &&& !result@[i].balance@.is_zero()
            } by {
                if i < before.len() {
                    assert(result@[i] == before[i]);
                    assert(positions[i] == before_positions[i]);
                }
            }
            assert forall|i: int, j: int| 0 <= i < j < result@.len() implies #[trigger] positions[i]
                < #[trigger] positions[j] by {
                if j < before.len() {
                    assert(positions[i] == before_positions[i]);
                    assert(positions[j] == before_positions[j]);
                } else {
                    assert(positions[i] == before_positions[i]);
                }
            }
            assert forall|p: int|
                0 <= p < position + 1 && is_first(names, p) && !net(
                    cv,
                    dv,
                    #[trigger] names[p],
                ).is_zero() implies exists|i: int|
                0 <= i < result@.len() && #[trigger] positions[i] == p by {
                if p < position {
                    let i = choose|i: int| 0 <= i < before.len() && #[trigger] before_positions[i] == p;
                    assert(positions[i] == p);
                } else {
                    assert(pushed);
                    assert(positions[result@.len() - 1] == p);
                }
            }
        }
        position += 1;
    }
    proof {
        assert forall|i: int| 0 <= i < result@.len() implies (#[trigger] result@[i]).balance@ == net(
            cv,
            dv,
            result@[i].account@,
        ) && !result@[i].balance@.is_zero() by {
            assert(is_first(names, positions[i]));
        }
        assert forall|i: int, j: int| 0 <= i < j < result@.len() implies first_position(
            names,
            (#[trigger] result@[i]).account@,
        ) < first_position(names, (#[trigger] result@[j]).account@) by {
            assert(is_first(names, positions[i]));
            assert(is_first(names, positions[j]));
            lemma_first_position(names, positions[i]);
            lemma_first_position(names, positions[j]);
        }
        assert forall|account: Seq<char>|
            !(#[trigger] net(cv, dv, account)).is_zero() implies exists|i: int|
            0 <= i < result@.len() && (#[trigger] result@[i]).account@ == account by {
            lemma_net_of_absent(cv, dv, account);
            let p = choose|p: int| is_first(names, p) && names[p] == account;
            let i = choose|i: int| 0 <= i < result@.len() && #[trigger] positions[i] == p;
            assert(result@[i].account@ == account);
        }
    }
    result
}

/// An account with a balance other than zero stands in one of the two lists,
/// and so has a first position.
proof fn lemma_net_of_absent(
    credits: Seq<(Seq<char>, Fraction)>,
    debits: Seq<(Seq<char>, Fraction)>,
    account: Seq<char>,
)
    requires
        !net(credits, debits, account).is_zero(),
    ensures
        exists|p: int|
            is_first(accounts_of(credits, debits), p) && accounts_of(credits, debits)[p] == account,
{
    let names = accounts_of(credits, debits);
    if forall|k: int| 0 <= k < names.len() ==> #[trigger] names[k] != account {
        assert forall|i: int| 0 <= i < credits.len() implies (#[trigger] credits[i]).0 != account by {
            assert(names[i] == credits[i].0);
        }
        assert forall|i: int| 0 <= i < debits.len() implies (#[trigger] debits[i]).0 != account by {
            assert(names[credits.len() + i] == debits[i].0);
        }
        lemma_total_of_absent(credits, account);
        lemma_total_of_absent(debits, account);
        lemma_difference(Fraction::zero(), Fraction::zero());
        assert(false);
    }
    lemma_first_occurrence(names, account, names.len() as int);
}

/// A name that stands before `bound` has a first position.
proof fn lemma_first_occurrence(names: Seq<Seq<char>>, account: Seq<char>, bound: int)
    requires
        0 <= bound <= names.len(),
        exists|k: int| 0 <= k < bound && #[trigger] names[k] == account,
    ensures
        exists|p: int| is_first(names, p) && names[p] == account,
    decreases bound,
{
    let k = choose|k: int| 0 <= k < bound && #[trigger] names[k] == account;
    if exists|j: int| 0 <= j < k && #[trigger] names[j] == account {
        lemma_first_occurrence(names, account, k);
    } else {
        assert(is_first(names, k));
    }
}

} // verus!
