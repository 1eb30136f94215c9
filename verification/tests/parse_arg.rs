use sharebill::parse_arg::{parse_arg, EntryType};
use sharebill::rational::Rational;

fn q(numer: u32, denom: u32) -> Rational {
    Rational::new(&numer.to_le_bytes(), &denom.to_le_bytes()).unwrap()
}

#[test]
fn parse_arg_examples() {
    assert_eq!(parse_arg("test"), None);
    assert_eq!(parse_arg("jh+2"), Some((EntryType::Credit, "jh", 2u32.into())));
    assert_eq!(parse_arg("xyz-5/3"), Some((EntryType::Debit, "xyz", q(5, 3))));
    assert_eq!(parse_arg("xyz--5/3"), None);
    assert_eq!(parse_arg("xyz-+5/3"), None);
    assert_eq!(parse_arg("xyz+-5/3"), None);
    assert_eq!(parse_arg("xyz++5/3"), None);
}

#[test]
fn parse_arg_reduces_the_amount() {
    assert_eq!(parse_arg("a+10/4"), Some((EntryType::Credit, "a", q(5, 2))));
}

#[test]
fn parse_arg_keeps_the_account_as_written() {
    assert_eq!(parse_arg("blåbær ø+1"), Some((EntryType::Credit, "blåbær ø", q(1, 1))));
    assert_eq!(parse_arg("+1"), Some((EntryType::Credit, "", q(1, 1))));
    assert_eq!(parse_arg("a/b-1/2"), Some((EntryType::Debit, "a/b", q(1, 2))));
}

#[test]
fn parse_arg_needs_an_amount() {
    assert_eq!(parse_arg("jh+"), None);
    assert_eq!(parse_arg("jh-x"), None);
    assert_eq!(parse_arg("jh+1/0"), None);
    assert_eq!(parse_arg("jh+1 1/2"), None);
    assert_eq!(parse_arg("jh+2+"), None);
    assert_eq!(parse_arg("a-b-1"), None);
    assert_eq!(parse_arg(""), None);
}
