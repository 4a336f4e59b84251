//! A small payments ledger: typed transaction records (deposits, withdrawals,
//! disputes, resolves, chargebacks) are applied to per-client accounts while
//! the invariant `total == available + held` is maintained.
//!
//! Monetary amounts are fixed-point integers with four fractional digits
//! (one unit is 1/10000 of the currency), so all balance arithmetic is exact.

pub mod parse;
pub mod report;
pub mod client;
pub mod ledger;
pub mod transaction;
