//! The ledger's operations, one module per record kind.

pub mod account;
pub mod cost;
pub mod payment;
