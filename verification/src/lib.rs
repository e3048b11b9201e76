//! A shared-expense ledger: named records of who paid what, and the pairwise
//! balances that follow from them.

pub mod balance;
pub mod expense;
pub mod names;
pub mod text;
pub mod time;
