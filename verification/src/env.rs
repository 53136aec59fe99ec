//! The read-only execution context handed to a contract for one call.

use vstd::prelude::*;
use crate::bank::{Coin, clone_coins, coins_view};
use crate::storage::clone_bytes;

verus! {

/// The context of one dispatch: immutable for the call, constructed fresh
/// for every dispatch from the engine's chain clock and the call parameters.
pub struct Env {
    pub block_height: u64,
    pub block_time: u64,
    pub chain_id: Vec<u8>,
    pub contract_address: usize,
    pub sender: usize,
    pub funds: Vec<Coin>,
}

/// Builds the context for one dispatch.
pub fn build_env(
    block_height: u64,
    block_time: u64,
    chain_id: &Vec<u8>,
    contract_address: usize,
    sender: usize,
    funds: &Vec<Coin>,
) -> (e: Env)
    ensures
        e.block_height == block_height,
        e.block_time == block_time,
        e.chain_id@ == chain_id@,
        e.contract_address == contract_address,
        e.sender == sender,
        coins_view(e.funds@) == coins_view(funds@),
{
    Env {
        block_height,
        block_time,
        chain_id: clone_bytes(chain_id),
        contract_address,
        sender,
        funds: clone_coins(funds),
    }
}

} // verus!
