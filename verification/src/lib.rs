//! A ledger of client accounts, replayed from a list of transactions.
//!
//! Transactions (deposits, withdrawals, disputes, resolves, chargebacks) are
//! read from a table in text form, put in order by their ids and applied one
//! by one to the account of their client. The accounts that are left are
//! written out as a table again. Amounts are exact decimals with four places.
//!
//! `clients::ledger` says in mathematics what a replay leaves, and proves
//! what holds of it; `clients::models` and `transactions::models` hold the
//! code, each function with a contract over that mathematics.

pub mod amount;
pub mod clients;
pub mod table;
pub mod text;
pub mod transactions;
