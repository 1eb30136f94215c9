use sharebill::form::read_entries;
use sharebill::rational::{Rational, RationalError};

fn amount_of(numer: u32, denom: u32) -> Rational {
    Rational::new(&numer.to_le_bytes(), &denom.to_le_bytes()).unwrap()
}

fn fields(pairs: &[(&str, &str)]) -> Vec<(String, String)> {
    pairs.iter().map(|(name, text)| (name.to_string(), text.to_string())).collect()
}

#[test]
fn form_pairs_accounts_with_amounts() {
    let form = fields(&[
        ("when", "2024-01-01T00:00:00Z"),
        ("debit_account", "a"),
        ("debit_value", "1/2"),
        ("credit_account", "c"),
        ("credit_value", "5/6"),
        ("debit_account", "b"),
        ("debit_value", "2/6"),
    ]);
    let debits = read_entries(&form, "debit_account", "debit_value").unwrap();
    assert_eq!(debits, vec![("a".to_string(), amount_of(1, 2)), ("b".to_string(), amount_of(1, 3))]);
    let credits = read_entries(&form, "credit_account", "credit_value").unwrap();
    assert_eq!(credits, vec![("c".to_string(), amount_of(5, 6))]);
}

#[test]
fn form_passes_over_unused_rows() {
    let form = fields(&[
        ("debit_account", "a"),
        ("debit_value", "1"),
        ("debit_account", ""),
        ("debit_value", ""),
        ("debit_account", "b"),
        ("debit_value", "2"),
        ("debit_account", ""),
        ("debit_value", ""),
    ]);
    let debits = read_entries(&form, "debit_account", "debit_value").unwrap();
    assert_eq!(debits, vec![("a".to_string(), amount_of(1, 1)), ("b".to_string(), amount_of(2, 1))]);
    assert_eq!(read_entries(&[], "debit_account", "debit_value"), Ok(vec![]));
}

#[test]
fn form_keeps_the_later_amount_of_an_account() {
    let form = fields(&[
        ("debit_account", "a"),
        ("debit_value", "1"),
        ("debit_account", "b"),
        ("debit_value", "2"),
        ("debit_account", "a"),
        ("debit_value", "3"),
    ]);
    let debits = read_entries(&form, "debit_account", "debit_value").unwrap();
    assert_eq!(debits, vec![("a".to_string(), amount_of(3, 1)), ("b".to_string(), amount_of(2, 1))]);
}

#[test]
fn form_keeps_only_whole_pairs() {
    let form = fields(&[("debit_account", "a"), ("debit_value", "1"), ("debit_account", "b")]);
    let debits = read_entries(&form, "debit_account", "debit_value").unwrap();
    assert_eq!(debits, vec![("a".to_string(), amount_of(1, 1))]);
    // An amount with an empty account is kept: it is the account that is wrong.
    let form = fields(&[("debit_account", ""), ("debit_value", "1")]);
    let debits = read_entries(&form, "debit_account", "debit_value").unwrap();
    assert_eq!(debits, vec![(String::new(), amount_of(1, 1))]);
}

#[test]
fn form_rejects_an_amount_that_is_no_literal() {
    let form = fields(&[("debit_account", "a"), ("debit_value", "one")]);
    assert_eq!(read_entries(&form, "debit_account", "debit_value"), Err(RationalError::MalformedLiteral));
    let form = fields(&[("debit_account", "a"), ("debit_value", "")]);
    assert_eq!(read_entries(&form, "debit_account", "debit_value"), Err(RationalError::MalformedLiteral));
    let form = fields(&[("debit_account", "a"), ("debit_value", "1/0"), ("debit_value", "x")]);
    assert_eq!(read_entries(&form, "debit_account", "debit_value"), Err(RationalError::DenominatorZero));
    assert!(read_entries(&form, "credit_account", "credit_value").unwrap().is_empty());
}
