use sharebill::rational::Rational;
use sharebill::validation::{validate, ValidationError};

fn item(account: &str, numer: u32, denom: u32) -> (String, Rational) {
    (account.to_string(), Rational::new(&numer.to_le_bytes(), &denom.to_le_bytes()).unwrap())
}

#[test]
fn validate_accepts_a_balanced_transaction() {
    let debits = vec![item("a", 1, 2), item("b", 1, 3)];
    let credits = vec![item("c", 5, 6)];
    assert_eq!(validate("lunch", &debits, &credits), Ok(()));
}

#[test]
fn validate_wants_a_description() {
    let debits = vec![item("a", 1, 2)];
    let credits = vec![item("", 1, 3)];
    assert_eq!(validate("", &debits, &credits), Err(ValidationError::MissingDescription));
}

#[test]
fn validate_wants_equal_sides() {
    let debits = vec![item("a", 1, 2)];
    let credits = vec![item("", 1, 3)];
    assert_eq!(validate("lunch", &debits, &credits), Err(ValidationError::Unbalanced));
    assert_eq!(validate("lunch", &debits, &[]), Err(ValidationError::Unbalanced));
}

#[test]
fn validate_wants_a_value() {
    assert_eq!(validate("lunch", &[], &[]), Err(ValidationError::ZeroValue));
    let debits = vec![item("", 0, 1)];
    let credits = vec![item("c", 0, 7)];
    assert_eq!(validate("lunch", &debits, &credits), Err(ValidationError::ZeroValue));
}

#[test]
fn validate_wants_account_names() {
    let debits = vec![item("a", 1, 2)];
    let credits = vec![item("", 2, 4)];
    assert_eq!(validate("lunch", &debits, &credits), Err(ValidationError::EmptyAccountName));
    assert_eq!(validate("lunch", &credits, &debits), Err(ValidationError::EmptyAccountName));
}
