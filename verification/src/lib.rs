//! An in-memory ledger of named accounts with unsigned integer balances.
//!
//! The ledger supports deposits, withdrawals and transfers, each returning
//! either a transaction record describing the completed effect or a typed
//! error, and a read-only dump of the current balances.  A thin command
//! parser turns already-read lines of text into commands for a driver loop.

pub mod account;
pub mod digits;
pub mod interface;
pub mod transaction;
