//! The entries of one side of a transaction as a form sends them: a flat
//! list of fields in which each account is followed by its amount.

use crate::fraction::Fraction;
use crate::literal::fraction_literal;
use crate::rational::{entries_view, Rational, RationalError};
use vstd::prelude::*;

verus! {

/// What has been read of a form: the accounts and the amounts, each in the
/// order of the fields.
pub struct Columns {
    pub accounts: Seq<Seq<char>>,
    pub amounts: Seq<Fraction>,
}

/// A list of fields as mathematical values.
pub open spec fn fields_view(fields: Seq<(String, String)>) -> Seq<(Seq<char>, Seq<char>)> {
    fields.map_values(|field: (String, String)| (field.0@, field.1@))
}

/// The accounts and amounts that a list of fields holds. A field named
/// `account_field` gives an account and one named `amount_field` an amount;
/// other fields are passed over. An empty amount right after an empty
/// account is an unused row: the account is dropped again. Any other amount
/// must be a whole number or a simple fraction; the first that is not is the
/// error.
pub open spec fn columns(
    fields: Seq<(Seq<char>, Seq<char>)>,
    account_field: Seq<char>,
    amount_field: Seq<char>,
) -> Result<Columns, RationalError>
    decreases fields.len(),
{
    if fields.len() == 0 {
        Ok(Columns { accounts: Seq::empty(), amounts: Seq::empty() })
    } else {
        match columns(fields.drop_last(), account_field, amount_field) {
            Err(error) => Err(error),
            Ok(read) => {
                let (name, text) = fields.last();
                if name == account_field {
                    Ok(Columns { accounts: read.accounts.push(text), amounts: read.amounts })
                } else if name == amount_field {
                    if text.len() == 0 && read.accounts.len() > 0 && read.accounts.last().len()
                        == 0 {
                        Ok(Columns { accounts: read.accounts.drop_last(), amounts: read.amounts })
                    } else {
                        match fraction_literal(text) {
                            Ok(amount) => Ok(
                                Columns { accounts: read.accounts, amounts: read.amounts.push(amount) },
                            ),
                            Err(error) => Err(error),
                        }
                    }
                } else {
                    Ok(read)
                }
            },
        }
    }
}

/// The entries with one more: the amount replaces that of the first entry
/// with the same account, or the entry is added at the end.
pub open spec fn with_entry(
    entries: Seq<(Seq<char>, Fraction)>,
    account: Seq<char>,
    amount: Fraction,
) -> Seq<(Seq<char>, Fraction)> {
    match entries.map_values(|entry: (Seq<char>, Fraction)| entry.0).index_of_first(account) {
        Some(index) => entries.update(index, (account, amount)),
        None => entries.push((account, amount)),
    }
}

/// The entries that the first `count` accounts and amounts make, pair by
/// pair; of two entries with the same account the later amount stays.
pub open spec fn paired(columns: Columns, count: nat) -> Seq<(Seq<char>, Fraction)>
    decreases count,
{
    if count == 0 {
        Seq::empty()
    } else {
        with_entry(
            paired(columns, (count - 1) as nat),
            columns.accounts[count - 1],
            columns.amounts[count - 1],
        )
    }
}

/// The entries of a form: as many as there are both accounts and amounts.
pub open spec fn form_entries(
    fields: Seq<(Seq<char>, Seq<char>)>,
    account_field: Seq<char>,
    amount_field: Seq<char>,
) -> Result<Seq<(Seq<char>, Fraction)>, RationalError> {
    match columns(fields, account_field, amount_field) {
        Ok(read) => Ok(
            paired(
                read,
                if read.accounts.len() <= read.amounts.len() {
                    read.accounts.len()
                } else {
                    read.amounts.len()
                },
            ),
        ),
        Err(error) => Err(error),
    }
}

/// Puts one more entry into the list, as `with_entry` says.
fn put_entry(entries: &mut Vec<(String, Rational)>, account: String, amount: Rational)
    ensures
        entries_view(final(entries)@) == with_entry(entries_view(old(entries)@), account@, amount@),
{
    let ghost before = entries_view(entries@);
    let ghost names = before.map_values(|entry: (Seq<char>, Fraction)| entry.0);
    proof {
        names.index_of_first_ensures(account@);
    }
    let mut i: usize = 0;
    while i < entries.len()
        invariant
            i <= entries.len(),
            before == entries_view(entries@),
            before == entries_view(old(entries)@),
            names == before.map_values(|entry: (Seq<char>, Fraction)| entry.0),
            forall|j: int| 0 <= j < i ==> #[trigger] names[j] != account@,
        decreases entries.len() - i,
    {
        if entries[i].0.eq(&account) {
            proof {
                names.index_of_first_ensures(account@);
                assert(names[i as int] == account@);
                assert(names.contains(account@));
                assert(names.index_of_first(account@) == Some(i as int));
            }
            let ghost entry = (account@, amount@);
            entries.set(i, (account, amount));
            assert(entries_view(entries@) =~= before.update(i as int, entry));
            return ;
        }
        assert(names[i as int] == before[i as int].0);
        i += 1;
    }
    proof {
        names.index_of_first_ensures(account@);
        if names.contains(account@) {
            let j = choose|j: int| 0 <= j < names.len() && names[j] == account@;
            assert(names[j] != account@);
        }
    }
    let ghost entry = (account@, amount@);
    entries.push((account, amount));
    assert(entries_view(entries@) =~= before.push(entry));
}

/// Reads the entries of one side of a transaction from the fields of a form.
/// Fields named `account_field` and `amount_field` are read in their order
/// and paired; the error is that of the first amount that is no literal.
pub fn read_entries(fields: &[(String, String)], account_field: &str, amount_field: &str) -> (result:
    Result<Vec<(String, Rational)>, RationalError>)
    ensures
        match result {
            Ok(entries) => form_entries(fields_view(fields@), account_field@, amount_field@) == Ok::<
                Seq<(Seq<char>, Fraction)>,
                RationalError,
            >(entries_view(entries@)),
            Err(error) => form_entries(fields_view(fields@), account_field@, amount_field@) == Err::<
                Seq<(Seq<char>, Fraction)>,
                RationalError,
            >(error),
        },
{
    let ghost all = fields_view(fields@);
    let account_name = account_field.to_owned();
    let amount_name = amount_field.to_owned();
    let mut accounts: Vec<String> = Vec::new();
    let mut amounts: Vec<Rational> = Vec::new();
    let mut i: usize = 0;
    assert(all.take(0) =~= Seq::<(Seq<char>, Seq<char>)>::empty());
    assert(accounts@.map_values(|account: String| account@) =~= Seq::<Seq<char>>::empty());
    assert(amounts@.map_values(|amount: Rational| amount@) =~= Seq::<Fraction>::empty());
    while i < fields.len()
        invariant
            i <= fields.len(),
            all == fields_view(fields@),
            account_name@ == account_field@,
            amount_name@ == amount_field@,
            columns(all.take(i as int), account_field@, amount_field@) == Ok::<
                Columns,
                RationalError,
            >(
                Columns {
                    accounts: accounts@.map_values(|account: String| account@),
                    amounts: amounts@.map_values(|amount: Rational| amount@),
                },
            ),
        decreases fields.len() - i,
    {
        let ghost seen = all.take(i as int + 1);
        let ghost read_accounts = accounts@.map_values(|account: String| account@);
        let ghost read_amounts = amounts@.map_values(|amount: Rational| amount@);
        proof {
            assert(seen.drop_last() =~= all.take(i as int));
            assert(seen.last() == (fields@[i as int].0@, fields@[i as int].1@));
            lemma_columns_prefix_error(all, i as int + 1, account_field@, amount_field@);
        }
        let name = &fields[i].0;
        let text = &fields[i].1;
        proof {
            assert(read_accounts.len() == accounts@.len());
            if accounts@.len() > 0 {
                assert(read_accounts.last() == accounts@[accounts@.len() - 1]@);
            }
        }
        if name.eq(&account_name) {
            accounts.push(text.clone());
            assert(accounts@.map_values(|account: String| account@) =~= read_accounts.push(text@));
        } else if name.eq(&amount_name) {
            let unused = text.as_str().is_empty() && accounts.len() > 0 && accounts[accounts.len()
                - 1].as_str().is_empty();
            if unused {
                accounts.pop();
                assert(accounts@.map_values(|account: String| account@)
                    =~= read_accounts.drop_last());
            } else {
                match Rational::from_str(text.as_str()) {
                    Ok(amount) => {
                        amounts.push(amount);
                        assert(amounts@.map_values(|amount: Rational| amount@)
                            =~= read_amounts.push(amount@));
                    },
                    Err(error) => {
                        assert(columns(seen, account_field@, amount_field@) == Err::<
                            Columns,
                            RationalError,
                        >(error));
                        return Err(error);
                    },
                }
            }
        }
        i += 1;
    }
    assert(all.take(i as int) =~= all);
    let ghost read = Columns {
        accounts: accounts@.map_values(|account: String| account@),
        amounts: amounts@.map_values(|amount: Rational| amount@),
    };
    let count: usize = if accounts.len() <= amounts.len() {
        accounts.len()
    } else {
        amounts.len()
    };
    let mut entries: Vec<(String, Rational)> = Vec::new();
    let mut k: usize = 0;
    while k < count
        invariant
            k <= count,
            count <= accounts@.len(),
            count <= amounts@.len(),
            read == (Columns {
                accounts: accounts@.map_values(|account: String| account@),
                amounts: amounts@.map_values(|amount: Rational| amount@),
            }),
            entries_view(entries@) == paired(read, k as nat),
        decreases count - k,
    {
        put_entry(&mut entries, accounts[k].clone(), amounts[k].clone());
        k += 1;
    }
    Ok(entries)
}

/// Where the fields up to some point are in error, so are all the fields.
proof fn lemma_columns_prefix_error(
    fields: Seq<(Seq<char>, Seq<char>)>,
    upto: int,
    account_field: Seq<char>,
    amount_field: Seq<char>,
)
    requires
        0 <= upto <= fields.len(),
    ensures
        columns(fields.take(upto), account_field, amount_field) is Err ==> columns(
            fields,
            account_field,
            amount_field,
        ) == columns(fields.take(upto), account_field, amount_field),
    decreases fields.len() - upto,
{
    if upto < fields.len() {
        let next = fields.take(upto + 1);
        assert(next.drop_last() =~= fields.take(upto));
        lemma_columns_prefix_error(fields, upto + 1, account_field, amount_field);
    } else {
        assert(fields.take(upto) =~= fields);
    }
}

} // verus!
