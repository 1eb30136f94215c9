//! Exact, non-negative rational numbers for a shared ledger.
//!
//! - [`rational`]: the value type `Rational`, always in lowest terms, its
//!   addition, and the aggregate `SumRat` that sums the values of a group.
//! - [`codec`]: the length-prefixed binary encoding of a value.
//! - [`literal`], [`mixed_number`], [`parse_arg`], [`form`]: amounts and
//!   ledger entries as text.
//! - [`balance`]: signed balances of accounts from their credits and debits.
//! - [`validation`]: the rules that a transaction must meet.
//! - [`fraction`], [`magnitude`]: the mathematical model that the contracts
//!   are stated over, and its laws.
//! - [`bignum`]: the arbitrary-precision arithmetic, done by the `num` crate
//!   and taken on trust.

pub mod balance;
pub mod bignum;
pub mod codec;
pub mod form;
pub mod fraction;
pub mod literal;
pub mod magnitude;
pub mod mixed_number;
pub mod parse_arg;
pub mod rational;
pub mod validation;
