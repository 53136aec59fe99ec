//! A contract implementation driven by fixed scripts.
//!
//! A [`ScriptedContract`] performs a chosen list of storage writes and
//! outgoing messages whenever an entry point runs, and then succeeds or
//! fails as configured.  It lets a test stage whole call trees — nested
//! executes, instantiates, transfers, and failures at any depth — and watch
//! the engine commit or roll them back.

use vstd::prelude::*;
use crate::bank::{Bank, clone_coins, coins_view};
use crate::ensemble::{ContractHarness, Response, SubMsg};
use crate::env::Env;
use crate::error::StdError;
use crate::revertable::RevertableStorage;
use crate::storage::clone_bytes;

verus! {

/// One step a scripted entry point performs, in order.
pub enum Action {
    /// Write the value under the key in the contract's own storage.
    SetKey { key: Vec<u8>, value: Vec<u8> },
    /// Delete the key from the contract's own storage.
    RemoveKey { key: Vec<u8> },
    /// Ask the engine to dispatch the message after this entry point
    /// returns, within the same transaction.
    Emit { message: SubMsg },
}

/// What one entry point does: its actions run in order; then the entry
/// point fails with the code, or succeeds with the emitted messages.
/// A failing script still performs its writes first, so rollback is
/// observable.
pub struct Script {
    pub actions: Vec<Action>,
    pub fail_code: Option<u64>,
}

impl Script {
    /// A script that does nothing and succeeds.
    pub fn quiet() -> (r: Script)
        ensures
            r.actions@.len() == 0,
            r.fail_code is None,
    {
        Script { actions: Vec::new(), fail_code: None }
    }
}

/// A contract whose behaviour is fixed at registration: one script for
/// init, one for handle, and a query that reads the message as a key of its
/// own storage (or fails with the configured code).
pub struct ScriptedContract {
    pub on_init: Script,
    pub on_handle: Script,
    pub query_fail_code: Option<u64>,
}

/// The two messages carry equal addresses, payloads, funds and amounts.
pub open spec fn submsg_equiv(a: SubMsg, b: SubMsg) -> bool {
    match (a, b) {
        (
            SubMsg::Execute { address: a1, msg: m1, funds: f1 },
            SubMsg::Execute { address: a2, msg: m2, funds: f2 },
        ) => a1 == a2 && m1@ == m2@ && coins_view(f1@) == coins_view(f2@),
        (
            SubMsg::Instantiate { code_tag: t1, msg: m1, funds: f1 },
            SubMsg::Instantiate { code_tag: t2, msg: m2, funds: f2 },
        ) => t1 == t2 && m1@ == m2@ && coins_view(f1@) == coins_view(f2@),
        (
            SubMsg::Transfer { to: to1, denom: d1, amount: x1 },
            SubMsg::Transfer { to: to2, denom: d2, amount: x2 },
        ) => to1 == to2 && d1@ == d2@ && x1 == x2,
        _ => false,
    }
}

/// Copies a message.
pub fn clone_submsg(m: &SubMsg) -> (r: SubMsg)
    ensures
        submsg_equiv(r, *m),
{
    match m {
        SubMsg::Execute { address, msg, funds } => SubMsg::Execute {
            address: *address,
            msg: clone_bytes(msg),
            funds: clone_coins(funds),
        },
        SubMsg::Instantiate { code_tag, msg, funds } => SubMsg::Instantiate {
            code_tag: *code_tag,
            msg: clone_bytes(msg),
            funds: clone_coins(funds),
        },
        SubMsg::Transfer { to, denom, amount } => SubMsg::Transfer {
            to: *to,
            denom: clone_bytes(denom),
            amount: *amount,
        },
    }
}

/// Runs a script against the contract's storage: performs the writes, then
/// fails with the configured code or succeeds with the emitted messages.
/// The storage's open scopes and saved snapshots survive, as the engine's
/// transaction discipline demands.
pub fn run_script(script: &Script, storage: &mut RevertableStorage) -> (r: Result<
    Response,
    StdError,
>)
    requires
        old(storage).wf(),
        old(storage).depth() > 0,
    ensures
        final(storage).wf(),
        final(storage).depth() == old(storage).depth(),
        final(storage).saved() == old(storage).saved(),
        r is Err <==> script.fail_code is Some,
        r matches Err(e) ==> (script.fail_code matches Some(code) && e == (StdError { code })),
{
    let mut messages: Vec<SubMsg> = Vec::new();
    let mut i: usize = 0;
    while i < script.actions.len()
        invariant
            storage.wf(),
            storage.depth() == old(storage).depth(),
            storage.saved() == old(storage).saved(),
            old(storage).depth() > 0,
            i <= script.actions@.len(),
        decreases script.actions@.len() - i,
    {
        match &script.actions[i] {
            Action::SetKey { key, value } => {
                storage.set(clone_bytes(key), clone_bytes(value));
            },
            Action::RemoveKey { key } => {
                storage.remove(clone_bytes(key));
            },
            Action::Emit { message } => {
                messages.push(clone_submsg(message));
            },
        }
        i = i + 1;
    }
    match script.fail_code {
        Some(code) => Err(StdError { code }),
        None => Ok(Response { messages }),
    }
}

impl ContractHarness for ScriptedContract {
    fn init(&self, storage: &mut RevertableStorage, _bank: &Bank, _env: &Env, _msg: &Vec<u8>) -> (r:
        Result<Response, StdError>) {
        run_script(&self.on_init, storage)
    }

    fn handle(&self, storage: &mut RevertableStorage, _bank: &Bank, _env: &Env, _msg: &Vec<
        u8,
    >) -> (r: Result<Response, StdError>) {
        run_script(&self.on_handle, storage)
    }

    fn query(&self, storage: &RevertableStorage, _bank: &Bank, msg: &Vec<u8>) -> (r: Result<
        Vec<u8>,
        StdError,
    >) {
        match self.query_fail_code {
            Some(code) => Err(StdError { code }),
            None => match storage.get(msg) {
                Some(v) => Ok(v),
                None => Ok(Vec::new()),
            },
        }
    }
}

} // verus!
