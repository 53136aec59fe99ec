//! The error kinds the engine surfaces.

use vstd::prelude::*;

verus! {

/// An error a contract implementation returns from one of its entry points.
/// Contract errors are opaque to the engine, which only wraps and propagates
/// them; a bare code is carried so a test can tell failures apart.
#[derive(Clone, Copy, Debug, PartialEq, Eq, Structural)]
pub struct StdError {
    pub code: u64,
}

/// A failure of an engine call.  Every failure anywhere in a call tree
/// aborts and rolls back the entire tree, then surfaces the original error
/// unchanged to the caller.
#[derive(Debug)]
pub enum EnsembleError {
    /// A contract implementation is already registered under the tag.
    DuplicateRegistration,
    /// No contract is instantiated under the address (or, at registration
    /// lookup, no implementation is registered under the tag).
    UnknownContract { address: usize },
    /// The contract's init capability failed; carries its error.
    InitFailed { address: usize, error: StdError },
    /// The contract's handle capability failed; carries its error.
    HandleFailed { address: usize, error: StdError },
    /// The contract's query capability failed; carries its error.
    QueryFailed { address: usize, error: StdError },
    /// The debited address holds less of the denomination than the amount.
    InsufficientFunds { address: usize, denom: Vec<u8>, amount: u128 },
    /// Crediting the amount would overflow the receiving balance.
    BalanceOverflow { address: usize, denom: Vec<u8>, amount: u128 },
    /// The call tree nested deeper than the engine's call-depth limit.
    CallDepthExceeded,
}

} // verus!
