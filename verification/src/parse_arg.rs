//! Ledger entries written as one argument: an account, a sign, an amount.
//! `jh+2` credits 2 to `jh`; `xyz-5/3` debits 5/3 from `xyz`.

use crate::fraction::Fraction;
use crate::literal::{chars_of, find, fraction_literal};
use crate::rational::Rational;
use vstd::prelude::*;
use vstd::slice::slice_subrange;
use vstd::string::StrSliceExecFns;

verus! {

/// Which side of the ledger an entry is on.
#[derive(Debug, Clone, Copy, PartialEq, Eq, Structural)]
pub enum EntryType {
    Credit,
    Debit,
}

/// The entry that an argument denotes when its only sign stands at `sign`:
/// the account is what stands before the sign, the amount what follows it.
/// There is none where what follows is no amount.
pub open spec fn entry_at(arg: Seq<char>, entry_type: EntryType, sign: int) -> Option<
    (EntryType, Seq<char>, Fraction),
> {
    match fraction_literal(arg.subrange(sign + 1, arg.len() as int)) {
        Ok(amount) => Some((entry_type, arg.subrange(0, sign), amount)),
        Err(_) => None,
    }
}

/// The entry that an argument denotes. An argument must hold `+` or `-`, and
/// not both; the first one splits it.
pub open spec fn ledger_entry(arg: Seq<char>) -> Option<(EntryType, Seq<char>, Fraction)> {
    match (arg.index_of_first('+'), arg.index_of_first('-')) {
        (Some(sign), None) => entry_at(arg, EntryType::Credit, sign),
        (None, Some(sign)) => entry_at(arg, EntryType::Debit, sign),
        _ => None,
    }
}

/// An argument that denotes an entry holds exactly one sign character.
pub proof fn lemma_entry_has_one_sign(arg: Seq<char>)
    requires
        ledger_entry(arg) is Some,
    ensures
        exists|sign: int|
            0 <= sign < arg.len() && (arg[sign] == '+' || arg[sign] == '-') && forall|i: int|
                0 <= i < arg.len() && i != sign ==> arg[i] != '+' && arg[i] != '-',
{
    arg.index_of_first_ensures('+');
    arg.index_of_first_ensures('-');
    let sign = match arg.index_of_first('+') {
        Some(sign) => sign,
        None => arg.index_of_first('-').unwrap(),
    };
    let amount = arg.subrange(sign + 1, arg.len() as int);
    amount.index_of_first_ensures('/');
    assert forall|i: int| 0 <= i < arg.len() && i != sign implies arg[i] != '+' && arg[i] != '-' by {
        if i > sign {
            let k = i - sign - 1;
            assert(amount[k] == arg[i]);
            match amount.index_of_first('/') {
                Some(slash) => {
                    if k < slash {
                        assert(amount.subrange(0, slash)[k] == amount[k]);
                    } else if k > slash {
                        assert(amount.subrange(slash + 1, amount.len() as int)[k - slash - 1]
                            == amount[k]);
                    }
                },
                None => {},
            }
        } else {
            if arg[i] == '+' || arg[i] == '-' {
                assert(arg.contains(arg[i]));
            }
        }
    }
}

/// Reads an argument `account<sign>amount`. The amount is a whole number or a
/// simple fraction with a denominator that is not zero.
pub fn parse_arg<'a>(arg: &'a str) -> (entry: Option<(EntryType, &'a str, Rational)>)
    ensures
        match entry {
            Some((entry_type, account, amount)) => ledger_entry(arg@) == Some(
                (entry_type, account@, amount@),
            ),
            None => ledger_entry(arg@) is None,
        },
{
    let chars = chars_of(arg);
    let plus = find(chars.as_slice(), '+');
    let minus = find(chars.as_slice(), '-');
    let found = match (plus, minus) {
        (Some(index), None) => Some((EntryType::Credit, index)),
        (None, Some(index)) => Some((EntryType::Debit, index)),
        _ => None,
    };
    if let Some((entry_type, index)) = found {
        proof {
            arg@.index_of_first_ensures('+');
            arg@.index_of_first_ensures('-');
        }
        assert(index < chars.len());
        let account = arg.substring_char(0, index);
        let amount = slice_subrange(chars.as_slice(), index + 1, chars.len());
        return match Rational::from_chars(amount) {
            Ok(amount) => Some((entry_type, account, amount)),
            Err(_) => None,
        };
    }
    None
}

} // verus!
