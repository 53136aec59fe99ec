//! A local simulation engine for exercising smart-contract logic without a
//! live distributed ledger.
//!
//! The engine lets a test author register contract implementations,
//! instantiate them under distinct addresses, and drive inter-contract
//! instantiate/execute/query flows the way a production node would sequence
//! them, with full control over balances and deterministic rollback of
//! partial failures: a call tree either fully commits or fully reverts.

pub mod addr;
pub mod bank;
pub mod ensemble;
pub mod env;
pub mod error;
pub mod revertable;
pub mod scripted;
pub mod storage;
