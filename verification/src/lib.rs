//! A small expense-sharing ledger.
//!
//! Accounts hold named parties, costs are shared expenses split among
//! debtor accounts (by percentage or by pre-resolved amounts), payments
//! are direct settlements between two accounts, and a snapshot nets all
//! of it into a "who owes whom how much" list, with every amount kept as
//! integer cents until the very edge of the system.

pub mod auth;
pub mod config;
pub mod conversion;
pub mod error;
pub mod model;
pub mod netting;
pub mod service;
pub mod store;
pub mod text;
