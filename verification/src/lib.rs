//! Verified core of SplitPay, an expense-sharing contract: groups of
//! members record expenses into an escrow, keep running balances of who owes
//! whom, and settle by paying every member back from the escrow.
//!
//! The contract's storage is modelled by [`SplitPayContract`]; every
//! operation is a verified transition of that state which also returns the
//! token transfers the host has to perform.

pub mod address;
pub mod balances;
pub mod contract;
pub mod history;
pub mod laws;
pub mod model;
pub mod repayment;
pub mod split;
pub mod success;
pub mod types;

pub use address::Address;
pub use contract::SplitPayContract;
