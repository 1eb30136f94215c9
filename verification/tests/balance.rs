use sharebill::balance::{balances, Balance};
use sharebill::rational::Rational;

fn r(numer: u32, denom: u32) -> Rational {
    Rational::new(&numer.to_le_bytes(), &denom.to_le_bytes()).unwrap()
}

fn entry(account: &str, numer: u32, denom: u32) -> (String, Rational) {
    (account.to_string(), r(numer, denom))
}

#[test]
fn balance_between_credit_and_debit() {
    let balance = Balance::between(&r(5, 1), &r(10, 3));
    assert!(!balance.is_negative());
    assert!(!balance.is_zero());
    assert_eq!(balance.magnitude(), &r(5, 3));

    let balance = Balance::between(&Rational::zero(), &r(5, 3));
    assert!(balance.is_negative());
    assert_eq!(balance.magnitude(), &r(5, 3));

    let balance = Balance::between(&r(2, 4), &r(1, 2));
    assert!(balance.is_zero());
    assert!(!balance.is_negative());
    assert_eq!(balance.magnitude(), &Rational::zero());

    let balance = Balance::between(&r(1, 6), &r(1, 2));
    assert!(balance.is_negative());
    assert_eq!(balance.magnitude(), &r(1, 3));
}

#[test]
fn balances_of_two_accounts() {
    let credits = vec![entry("A", 5, 1), entry("B", 0, 1)];
    let debits = vec![entry("A", 10, 3), entry("B", 5, 3)];
    let result = balances(&credits, &debits);
    assert_eq!(result.len(), 2);
    assert_eq!(result[0].account, "A");
    assert!(!result[0].balance.is_negative());
    assert_eq!(result[0].balance.magnitude(), &r(5, 3));
    assert_eq!(result[1].account, "B");
    assert!(result[1].balance.is_negative());
    assert_eq!(result[1].balance.magnitude(), &r(5, 3));
}

#[test]
fn balances_leave_out_settled_accounts() {
    let credits = vec![entry("A", 1, 2), entry("B", 3, 1), entry("C", 1, 1)];
    let debits = vec![entry("B", 6, 2), entry("D", 0, 5), entry("A", 1, 3)];
    let result = balances(&credits, &debits);
    let accounts: Vec<&str> = result.iter().map(|b| b.account.as_str()).collect();
    assert_eq!(accounts, vec!["A", "C"]);
    assert_eq!(result[0].balance.magnitude(), &r(1, 6));
    assert_eq!(result[1].balance.magnitude(), &r(1, 1));
}

#[test]
fn balances_of_accounts_on_one_side_only() {
    let result = balances(&[entry("jh", 2, 1)], &[entry("xyz", 5, 3)]);
    assert_eq!(result.len(), 2);
    assert_eq!(result[0].account, "jh");
    assert!(!result[0].balance.is_negative());
    assert_eq!(result[0].balance.magnitude(), &r(2, 1));
    assert_eq!(result[1].account, "xyz");
    assert!(result[1].balance.is_negative());
    assert_eq!(result[1].balance.magnitude(), &r(5, 3));
    assert!(balances(&[], &[]).is_empty());
}

#[test]
fn balances_add_up_repeated_accounts() {
    let credits = vec![entry("A", 1, 2), entry("A", 1, 3)];
    let debits = vec![entry("A", 1, 6), entry("A", 1, 6)];
    let result = balances(&credits, &debits);
    assert_eq!(result.len(), 1);
    assert_eq!(result[0].account, "A");
    assert!(!result[0].balance.is_negative());
    assert_eq!(result[0].balance.magnitude(), &r(1, 2));
}
