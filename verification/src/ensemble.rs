//! The orchestrator: contract registry, dispatcher and transaction boundary.
//!
//! An [`Ensemble`] owns the registered contract implementations, one
//! [`RevertableStorage`] per instantiated contract, the [`Bank`], and the
//! chain clock.  Its entry points drive instantiate/execute/query dispatch;
//! each top-level call runs inside a transaction: if the contract, any
//! sub-call it issues, or any funds transfer fails at any depth, every
//! storage and balance change of the whole call tree is undone, and the
//! original error is surfaced unchanged.

use vstd::prelude::*;
use crate::bank::{Bank, Coin, TransferError, coins_total, coins_total_before, coins_view};
use crate::env::{Env, build_env};
use crate::error::{EnsembleError, StdError};
use crate::revertable::RevertableStorage;
use crate::storage::clone_bytes;

verus! {

broadcast use crate::bank::lemma_coins_total_nonneg;

/// How deep a call tree may nest before the engine aborts it.  Termination
/// of dispatch needs some bound; this one leaves room for any legitimate
/// call tree while keeping the native call stack safe.
pub const CALL_DEPTH_LIMIT: u64 = 256;

/// A message a contract's response asks the engine to dispatch next, in
/// response order.
pub enum SubMsg {
    /// Execute the handle capability of the contract at the address.
    Execute { address: usize, msg: Vec<u8>, funds: Vec<Coin> },
    /// Instantiate a new contract from the registered tag.
    Instantiate { code_tag: usize, msg: Vec<u8>, funds: Vec<Coin> },
    /// Move an amount from the responding contract to another address.
    Transfer { to: usize, denom: Vec<u8>, amount: u128 },
}

/// What a contract returns on success: the messages for the engine to
/// dispatch next, within the same transaction.
pub struct Response {
    pub messages: Vec<SubMsg>,
}

impl Response {
    /// A response with no outgoing messages.
    pub fn empty() -> (r: Response)
        ensures
            r.messages@.len() == 0,
    {
        Response { messages: Vec::new() }
    }
}

/// The capability set of a contract implementation under test.  The engine
/// supplies the contract's own revertable storage, a read-only view of the
/// bank, and the per-call environment; the contract returns a structured
/// response or an error.
///
/// An implementation may mutate its storage only through the storage's own
/// operations, which is what the contract here pins down: the open
/// transaction scopes and their saved snapshots survive the call, so the
/// engine can still roll the call tree back.
pub trait ContractHarness {
    /// Runs once, when a contract is instantiated under a fresh address.
    fn init(&self, storage: &mut RevertableStorage, bank: &Bank, env: &Env, msg: &Vec<u8>) -> (r:
        Result<Response, StdError>)
        requires
            old(storage).wf(),
            old(storage).depth() > 0,
        ensures
            final(storage).wf(),
            final(storage).depth() == old(storage).depth(),
            final(storage).saved() == old(storage).saved(),
    ;

    /// Runs on every execute dispatched to the contract's address.
    fn handle(&self, storage: &mut RevertableStorage, bank: &Bank, env: &Env, msg: &Vec<u8>) -> (r:
        Result<Response, StdError>)
        requires
            old(storage).wf(),
            old(storage).depth() > 0,
        ensures
            final(storage).wf(),
            final(storage).depth() == old(storage).depth(),
            final(storage).saved() == old(storage).saved(),
    ;

    /// Read-only: no mutable state is reachable from a query.
    fn query(&self, storage: &RevertableStorage, bank: &Bank, msg: &Vec<u8>) -> (r: Result<
        Vec<u8>,
        StdError,
    >);
}

/// A contract implementation in the catalog, under its registration tag.
pub struct Registration<H> {
    pub tag: usize,
    pub harness: H,
}

/// One instantiated contract: which registration runs it, and its storage.
/// Records live for the engine's lifetime; a record created inside a failed
/// call tree is discarded with the rollback.
pub struct ContractRecord {
    pub reg_index: usize,
    pub storage: RevertableStorage,
}

/// The simulation engine.  Single-threaded and synchronous: cross-contract
/// calls are ordinary nested invocations on one call stack, serialized the
/// way a deterministic ledger serializes contract execution.
pub struct Ensemble<H> {
    registry: Vec<Registration<H>>,
    contracts: Vec<ContractRecord>,
    bank: Bank,
    block_height: u64,
    block_time: u64,
    chain_id: Vec<u8>,
}

impl<H: ContractHarness> Ensemble<H> {
    /// The catalog of registered implementations, in registration order.
    pub closed spec fn registry_seq(self) -> Seq<Registration<H>> {
        self.registry@
    }

    /// How many contracts are instantiated; addresses are `0 .. len`.
    pub closed spec fn contracts_len(self) -> nat {
        self.contracts@.len()
    }

    /// A contract is instantiated under the address.
    pub open spec fn has_contract(self, address: usize) -> bool {
        address < self.contracts_len()
    }

    /// Which registration the contract at address `a` runs.
    pub closed spec fn reg_index_of(self, a: int) -> int {
        self.contracts@[a].reg_index as int
    }

    /// The live storage map of the contract at address `a`.
    pub closed spec fn storage_live(self, a: int) -> Map<Seq<u8>, Seq<u8>> {
        self.contracts@[a].storage.live()
    }

    /// The amount the address holds of the denomination.
    pub closed spec fn balance_of(self, a: usize, d: Seq<u8>) -> u128 {
        self.bank.bal(a, d)
    }

    /// The sum held of the denomination across all addresses.
    pub closed spec fn total_of(self, d: Seq<u8>) -> int {
        self.bank.total(d)
    }

    /// Some implementation is registered under the tag.
    pub open spec fn has_tag(self, tag: usize) -> bool {
        exists|i: int|
            0 <= i < self.registry_seq().len() && (#[trigger] self.registry_seq()[i]).tag == tag
    }

    /// The chain clock's height.
    pub closed spec fn height(self) -> u64 {
        self.block_height
    }

    /// The chain clock's time.
    pub closed spec fn time(self) -> u64 {
        self.block_time
    }

    /// The chain identifier every call context carries.
    pub closed spec fn chain(self) -> Seq<u8> {
        self.chain_id@
    }

    /// Well-formedness between calls: no transaction is open anywhere, every
    /// record points into the registry, and tags are distinct.
    pub closed spec fn wf(self) -> bool {
        &&& self.bank.wf()
        &&& self.bank.depth() == 0
        &&& forall|i: int|
            0 <= i < self.contracts@.len() ==> (#[trigger] self.contracts@[i]).storage.wf()
        &&& forall|i: int|
            0 <= i < self.contracts@.len() ==> (#[trigger] self.contracts@[i]).storage.depth() == 0
        &&& forall|i: int|
            0 <= i < self.contracts@.len() ==> (#[trigger] self.contracts@[i]).reg_index
                < self.registry@.len()
        &&& forall|i: int, j: int|
            0 <= i < j < self.registry@.len() ==> (#[trigger] self.registry@[i]).tag != (
            #[trigger] self.registry@[j]).tag
    }

    /// Observable state equality: same registry, same contracts with the
    /// same live storage, same balances.  What a failed top-level call
    /// leaves unchanged.
    pub open spec fn state_eq(pre: Self, post: Self) -> bool {
        &&& post.registry_seq() == pre.registry_seq()
        &&& post.contracts_len() == pre.contracts_len()
        &&& forall|i: int|
            0 <= i < pre.contracts_len() ==> #[trigger] post.storage_live(i) == pre.storage_live(i)
        &&& forall|i: int|
            0 <= i < pre.contracts_len() ==> #[trigger] post.reg_index_of(i) == pre.reg_index_of(i)
        &&& forall|a: usize, d: Seq<u8>| #[trigger] post.balance_of(a, d) == pre.balance_of(a, d)
    }

    /// A fresh engine: nothing registered, nothing instantiated, all
    /// balances zero, the chain clock at its start.
    pub fn new(chain_id: Vec<u8>) -> (r: Ensemble<H>)
        ensures
            r.wf(),
            r.registry_seq().len() == 0,
            r.contracts_len() == 0,
            forall|a: usize, d: Seq<u8>| #[trigger] r.balance_of(a, d) == 0,
            forall|d: Seq<u8>| #[trigger] r.total_of(d) == 0,
            r.height() == 1,
            r.time() == 1,
            r.chain() == chain_id@,
    {
        Ensemble {
            registry: Vec::new(),
            contracts: Vec::new(),
            bank: Bank::new(),
            block_height: 1,
            block_time: 1,
            chain_id,
        }
    }

    /// Advances the chain clock; only an explicit test action moves it.
    pub fn advance_block(&mut self, heights: u64, seconds: u64)
        requires
            old(self).wf(),
            old(self).height() + heights <= u64::MAX,
            old(self).time() + seconds <= u64::MAX,
        ensures
            final(self).height() == old(self).height() + heights,
            final(self).time() == old(self).time() + seconds,
            final(self).chain() == old(self).chain(),
            final(self).wf(),
            Self::state_eq(*old(self), *final(self)),
            forall|d: Seq<u8>| #[trigger] final(self).total_of(d) == old(self).total_of(d),
    {
        self.block_height = self.block_height + heights;
        self.block_time = self.block_time + seconds;
    }

    /// Adds a contract implementation to the catalog under the tag, without
    /// instantiating any state.  Fails, changing nothing, exactly when the
    /// tag is already registered.
    pub fn register(&mut self, tag: usize, harness: H) -> (r: Result<(), EnsembleError>)
        requires
            old(self).wf(),
        ensures
            final(self).wf(),
            r is Ok <==> !old(self).has_tag(tag),
            r is Err ==> *final(self) == *old(self) && (r matches Err(e) && e is
                DuplicateRegistration),
            r is Ok ==> final(self).registry_seq() == old(self).registry_seq().push(
                Registration { tag, harness },
            ),
            Self::state_eq_but_registry(*old(self), *final(self)),
            final(self).height() == old(self).height(),
            final(self).time() == old(self).time(),
            final(self).chain() == old(self).chain(),
            forall|d: Seq<u8>| #[trigger] final(self).total_of(d) == old(self).total_of(d),
    {
        match self.find_tag(tag) {
            Some(i) => {
                proof {
                    assert(old(self).registry_seq()[i as int].tag == tag);
                    assert(old(self).has_tag(tag));
                }
                Err(EnsembleError::DuplicateRegistration)
            },
            None => {
                let ghost pre = self.registry@;
                self.registry.push(Registration { tag, harness });
                proof {
                    assert(self.registry@.drop_last() == pre);
                    assert forall|i: int, j: int| 0 <= i < j < self.registry@.len() implies (
                    #[trigger] self.registry@[i]).tag != (#[trigger] self.registry@[j]).tag by {
                        assert(self.registry@[i] == pre[i]);
                        if j == self.registry@.len() - 1 {
                            if pre[i].tag == tag {
                                assert(old(self).registry_seq()[i].tag == tag);
                                assert(old(self).has_tag(tag));
                            }
                        } else {
                            assert(self.registry@[j] == pre[j]);
                        }
                    }
                }
                Ok(())
            },
        }
    }

    /// Observable state equality apart from the registry.
    pub open spec fn state_eq_but_registry(pre: Self, post: Self) -> bool {
        &&& post.contracts_len() == pre.contracts_len()
        &&& forall|i: int|
            0 <= i < pre.contracts_len() ==> #[trigger] post.storage_live(i) == pre.storage_live(i)
        &&& forall|i: int|
            0 <= i < pre.contracts_len() ==> #[trigger] post.reg_index_of(i) == pre.reg_index_of(i)
        &&& forall|a: usize, d: Seq<u8>| #[trigger] post.balance_of(a, d) == pre.balance_of(a, d)
    }

    /// How many contracts are instantiated, as a run-time count; the next
    /// successful instantiate allocates exactly this address.
    pub fn contract_count(&self) -> (r: usize)
        ensures
            r == self.contracts_len(),
    {
        self.contracts.len()
    }

    /// Finds the registration under the tag, when one exists.
    fn find_tag(&self, tag: usize) -> (r: Option<usize>)
        ensures
            match r {
                Some(i) => i < self.registry@.len() && self.registry@[i as int].tag == tag,
                None => !self.has_tag(tag),
            },
    {
        let mut i: usize = 0;
        while i < self.registry.len()
            invariant
                i <= self.registry@.len(),
                forall|j: int| 0 <= j < i ==> (#[trigger] self.registry@[j]).tag != tag,
            decreases self.registry@.len() - i,
        {
            if self.registry[i].tag == tag {
                return Some(i);
            }
            i = i + 1;
        }
        None
    }

    /// Reads the amount the address holds of the denomination, zero for
    /// unseen pairs.
    pub fn balance(&self, address: usize, denom: &Vec<u8>) -> (r: u128)
        ensures
            r == self.balance_of(address, denom@),
    {
        self.bank.balance(address, denom)
    }

    /// Overrides a balance directly, bypassing conservation; the test-only
    /// seeding hook.
    pub fn set_balance(&mut self, address: usize, denom: Vec<u8>, amount: u128)
        requires
            old(self).wf(),
        ensures
            final(self).wf(),
            forall|a: usize, d: Seq<u8>| #[trigger]
                final(self).balance_of(a, d) == if a == address && d == denom@ {
                    amount
                } else {
                    old(self).balance_of(a, d)
                },
            final(self).registry_seq() == old(self).registry_seq(),
            final(self).contracts_len() == old(self).contracts_len(),
            forall|i: int|
                0 <= i < old(self).contracts_len() ==> #[trigger] final(self).storage_live(i)
                    == old(self).storage_live(i),
            forall|i: int|
                0 <= i < old(self).contracts_len() ==> #[trigger] final(self).reg_index_of(i)
                    == old(self).reg_index_of(i),
            final(self).height() == old(self).height(),
            final(self).time() == old(self).time(),
            final(self).chain() == old(self).chain(),
    {
        self.bank.set_balance(address, denom, amount);
    }

    /// Read-only dispatch to the contract's query capability.  Fails with
    /// `UnknownContract` when the address is not instantiated, and with
    /// `QueryFailed` when the capability errors; no state is mutable from
    /// here, as the receiver is shared.
    pub fn query(&self, address: usize, msg: &Vec<u8>) -> (r: Result<Vec<u8>, EnsembleError>)
        requires
            self.wf(),
        ensures
            !self.has_contract(address) ==> (r matches Err(e) && (e matches
                EnsembleError::UnknownContract { address: a } && a == address)),
            self.has_contract(address) ==> (r matches Err(e) ==> e is QueryFailed),
    {
        if address >= self.contracts.len() {
            return Err(EnsembleError::UnknownContract { address });
        }
        let rec = &self.contracts[address];
        match self.registry[rec.reg_index].harness.query(&rec.storage, &self.bank, msg) {
            Ok(v) => Ok(v),
            Err(error) => Err(EnsembleError::QueryFailed { address, error }),
        }
    }

    /// Reads one key of one contract's live storage from outside, the test
    /// author's read path.  Fails with `UnknownContract` when the address is
    /// not instantiated; never mutates anything.
    pub fn storage_read(&self, address: usize, key: &Vec<u8>) -> (r: Result<
        Option<Vec<u8>>,
        EnsembleError,
    >)
        ensures
            match r {
                Ok(v) => self.has_contract(address) && (match v {
                    Some(b) => self.storage_live(address as int).contains_key(key@) && b@
                        == self.storage_live(address as int)[key@],
                    None => !self.storage_live(address as int).contains_key(key@),
                }),
                Err(e) => !self.has_contract(address) && (e matches EnsembleError::UnknownContract {
                    address: a,
                } && a == address),
            },
    {
        if address >= self.contracts.len() {
            return Err(EnsembleError::UnknownContract { address });
        }
        Ok(self.contracts[address].storage.get(key))
    }

    /// The contract at address `a` runs the implementation registered under
    /// the tag.
    pub closed spec fn record_runs_tag(self, a: int, code_tag: usize) -> bool {
        &&& (self.contracts@[a].reg_index as int) < self.registry@.len()
        &&& self.registry@[self.contracts@[a].reg_index as int].tag == code_tag
    }

    /// Coin `k` of the list can move from `from` to `to`, once the coins
    /// before it have moved: the debited balance still covers it and the
    /// credited balance still has room.
    pub open spec fn coin_ok(
        self,
        from: usize,
        to: usize,
        f: Seq<(Seq<u8>, u128)>,
        k: int,
    ) -> bool {
        if from == to {
            self.balance_of(from, f[k].0) >= f[k].1
        } else {
            &&& self.balance_of(from, f[k].0) - coins_total_before(f, k, f[k].0) >= f[k].1
            &&& self.balance_of(to, f[k].0) + coins_total_before(f, k, f[k].0) + f[k].1
                <= u128::MAX
        }
    }

    /// Coin `k` fails by insufficiency: the debited balance cannot cover it.
    pub open spec fn coin_short(
        self,
        from: usize,
        to: usize,
        f: Seq<(Seq<u8>, u128)>,
        k: int,
    ) -> bool {
        if from == to {
            self.balance_of(from, f[k].0) < f[k].1
        } else {
            self.balance_of(from, f[k].0) - coins_total_before(f, k, f[k].0) < f[k].1
        }
    }

    /// Every coin of the list can move, in order: what attaching `funds` to
    /// a call demands of the sender's balances.
    pub open spec fn funds_ok(self, from: usize, to: usize, f: Seq<(Seq<u8>, u128)>) -> bool {
        forall|k: int| 0 <= k < f.len() ==> self.coin_ok(from, to, f, k)
    }

    /// The balance of `a2` in `d` once the whole coin list has moved.
    pub open spec fn moved_balance(
        pre: Self,
        from: usize,
        to: usize,
        f: Seq<(Seq<u8>, u128)>,
        a2: usize,
        d: Seq<u8>,
    ) -> u128 {
        if from != to && a2 == from {
            (pre.balance_of(from, d) - coins_total(f, d)) as u128
        } else if from != to && a2 == to {
            (pre.balance_of(to, d) + coins_total(f, d)) as u128
        } else {
            pre.balance_of(a2, d)
        }
    }

    /// The error names coin `k`'s failure: `InsufficientFunds` against the
    /// debited address when the balance is short, `BalanceOverflow` against
    /// the credited address otherwise.
    pub open spec fn coin_failure_err(
        pre: Self,
        from: usize,
        to: usize,
        f: Seq<(Seq<u8>, u128)>,
        k: int,
        e: EnsembleError,
    ) -> bool {
        if pre.coin_short(from, to, f, k) {
            e matches EnsembleError::InsufficientFunds { address: a3, denom: dn, amount: am }
                && a3 == from && dn@ == f[k].0 && am == f[k].1
        } else {
            e matches EnsembleError::BalanceOverflow { address: a3, denom: dn, amount: am } && a3
                == to && dn@ == f[k].0 && am == f[k].1
        }
    }

    /// Some coin is the first of the list that cannot move, and the error
    /// names it.
    pub open spec fn first_coin_failure(
        pre: Self,
        from: usize,
        to: usize,
        f: Seq<(Seq<u8>, u128)>,
        e: EnsembleError,
    ) -> bool {
        exists|k: int|
            0 <= k < f.len() && !(#[trigger] pre.coin_ok(from, to, f, k)) && (forall|i: int|
                0 <= i < k ==> pre.coin_ok(from, to, f, i)) && Self::coin_failure_err(
                pre,
                from,
                to,
                f,
                k,
                e,
            )
    }

    /// Two engine states with pointwise equal balances agree on every
    /// funds-feasibility judgement.
    proof fn lemma_funds_pred_agree(
        pre: Self,
        post: Self,
        from: usize,
        to: usize,
        f: Seq<(Seq<u8>, u128)>,
    )
        requires
            forall|a2: usize, d: Seq<u8>| #[trigger]
                post.balance_of(a2, d) == pre.balance_of(a2, d),
        ensures
            post.funds_ok(from, to, f) == pre.funds_ok(from, to, f),
            forall|e: EnsembleError| #[trigger]
                Self::first_coin_failure(post, from, to, f, e) == Self::first_coin_failure(
                    pre,
                    from,
                    to,
                    f,
                    e,
                ),
    {
        assert forall|k: int| 0 <= k < f.len() implies (#[trigger] post.coin_ok(from, to, f, k)
            == pre.coin_ok(from, to, f, k)) && (post.coin_short(from, to, f, k) == pre.coin_short(
            from,
            to,
            f,
            k,
        )) by {
            assert(post.balance_of(from, f[k].0) == pre.balance_of(from, f[k].0));
            assert(post.balance_of(to, f[k].0) == pre.balance_of(to, f[k].0));
        }
        assert(post.funds_ok(from, to, f) == pre.funds_ok(from, to, f)) by {
            if post.funds_ok(from, to, f) {
                assert forall|k: int| 0 <= k < f.len() implies pre.coin_ok(from, to, f, k) by {
                    assert(post.coin_ok(from, to, f, k));
                }
            }
            if pre.funds_ok(from, to, f) {
                assert forall|k: int| 0 <= k < f.len() implies post.coin_ok(from, to, f, k) by {
                    assert(pre.coin_ok(from, to, f, k));
                }
            }
        }
        assert forall|e: EnsembleError| #[trigger]
            Self::first_coin_failure(post, from, to, f, e) == Self::first_coin_failure(
                pre,
                from,
                to,
                f,
                e,
            ) by {
            if Self::first_coin_failure(post, from, to, f, e) {
                let k = choose|k: int|
                    0 <= k < f.len() && !(#[trigger] post.coin_ok(from, to, f, k)) && (forall|
                        i: int,
                    |
                        0 <= i < k ==> post.coin_ok(from, to, f, i)) && Self::coin_failure_err(
                        post,
                        from,
                        to,
                        f,
                        k,
                        e,
                    );
                assert(!pre.coin_ok(from, to, f, k));
                assert forall|i: int| 0 <= i < k implies pre.coin_ok(from, to, f, i) by {
                    assert(post.coin_ok(from, to, f, i));
                }
                assert(Self::coin_failure_err(pre, from, to, f, k, e));
            }
            if Self::first_coin_failure(pre, from, to, f, e) {
                let k = choose|k: int|
                    0 <= k < f.len() && !(#[trigger] pre.coin_ok(from, to, f, k)) && (forall|
                        i: int,
                    |
                        0 <= i < k ==> pre.coin_ok(from, to, f, i)) && Self::coin_failure_err(
                        pre,
                        from,
                        to,
                        f,
                        k,
                        e,
                    );
                assert(!post.coin_ok(from, to, f, k));
                assert forall|i: int| 0 <= i < k implies post.coin_ok(from, to, f, i) by {
                    assert(pre.coin_ok(from, to, f, i));
                }
                assert(Self::coin_failure_err(post, from, to, f, k, e));
            }
        }
    }

    /// Well-formedness while one top-level call is running: the bank holds
    /// exactly the top-level snapshot, and every storage is consistent at
    /// whatever scope depth its frames have opened.
    spec fn mid_wf(self) -> bool {
        &&& self.bank.wf()
        &&& self.bank.depth() == 1
        &&& forall|i: int|
            0 <= i < self.contracts@.len() ==> (#[trigger] self.contracts@[i]).storage.wf()
        &&& forall|i: int|
            0 <= i < self.contracts@.len() ==> (#[trigger] self.contracts@[i]).reg_index
                < self.registry@.len()
        &&& forall|i: int, j: int|
            0 <= i < j < self.registry@.len() ==> (#[trigger] self.registry@[i]).tag != (
            #[trigger] self.registry@[j]).tag
    }

    /// What every step inside one top-level call preserves: the registry,
    /// the records and storage baselines of pre-existing contracts, the
    /// bank's snapshot, the per-denomination totals, and the chain clock.
    spec fn frame(pre: Self, post: Self) -> bool {
        &&& post.registry@ == pre.registry@
        &&& post.contracts@.len() >= pre.contracts@.len()
        &&& forall|i: int|
            0 <= i < pre.contracts@.len() ==> (#[trigger] post.contracts@[i]).reg_index
                == pre.contracts@[i].reg_index
        &&& forall|i: int|
            0 <= i < pre.contracts@.len() ==> (#[trigger] post.contracts@[i]).storage.base()
                == pre.contracts@[i].storage.base()
        &&& post.bank.snaps_rep() == pre.bank.snaps_rep()
        &&& forall|d: Seq<u8>| #[trigger] post.bank.total(d) == pre.bank.total(d)
        &&& post.block_height == pre.block_height
        &&& post.block_time == pre.block_time
        &&& post.chain_id@ == pre.chain_id@
    }

    /// Moves each coin of `funds` from one address to the other, in order,
    /// stopping at the first coin the balances cannot carry.
    fn send_funds(&mut self, from: usize, to: usize, funds: &Vec<Coin>) -> (r: Result<
        (),
        EnsembleError,
    >)
        requires
            old(self).mid_wf(),
        ensures
            final(self).mid_wf(),
            Self::frame(*old(self), *final(self)),
            final(self).contracts@ == old(self).contracts@,
            r is Ok <==> old(self).funds_ok(from, to, coins_view(funds@)),
            r is Ok ==> forall|a2: usize, d: Seq<u8>| #[trigger]
                final(self).balance_of(a2, d) == Self::moved_balance(
                    *old(self),
                    from,
                    to,
                    coins_view(funds@),
                    a2,
                    d,
                ),
            r matches Err(e) ==> Self::first_coin_failure(
                *old(self),
                from,
                to,
                coins_view(funds@),
                e,
            ),
    {
        let ghost f = coins_view(funds@);
        let mut k: usize = 0;
        while k < funds.len()
            invariant
                self.mid_wf(),
                Self::frame(*old(self), *self),
                self.contracts@ == old(self).contracts@,
                k <= funds@.len(),
                f == coins_view(funds@),
                forall|i: int| 0 <= i < k ==> old(self).coin_ok(from, to, f, i),
                from == to ==> forall|a2: usize, d: Seq<u8>| #[trigger]
                    self.balance_of(a2, d) == old(self).balance_of(a2, d),
                from != to ==> forall|a2: usize, d: Seq<u8>| #[trigger]
                    self.balance_of(a2, d) == (if a2 == from {
                        (old(self).balance_of(from, d) - coins_total_before(f, k as int, d)) as u128
                    } else if a2 == to {
                        (old(self).balance_of(to, d) + coins_total_before(f, k as int, d)) as u128
                    } else {
                        old(self).balance_of(a2, d)
                    }),
                from != to ==> forall|d: Seq<u8>| #[trigger]
                    coins_total_before(f, k as int, d) <= old(self).balance_of(from, d),
                from != to ==> forall|d: Seq<u8>|
                    old(self).balance_of(to, d) + #[trigger] coins_total_before(f, k as int, d)
                        <= u128::MAX,
            decreases funds@.len() - k,
        {
            let c = &funds[k];
            let ghost before = *self;
            let ghost kk = k as int;
            let ghost d0 = c.denom@;
            proof {
                assert(f[kk] == (c.denom@, c.amount));
            }
            let step = self.bank.transfer(from, to, &c.denom, c.amount);
            proof {
                assert(coins_total_before(f, kk + 1, d0) == coins_total_before(f, kk, d0)
                    + c.amount as int);
                assert forall|d: Seq<u8>|
                    d != d0 implies #[trigger] coins_total_before(f, kk + 1, d)
                    == coins_total_before(f, kk, d) by {}
                if from != to {
                    assert(before.balance_of(from, d0) == (old(self).balance_of(from, d0)
                        - coins_total_before(f, kk, d0)) as u128);
                    assert(before.balance_of(to, d0) == (old(self).balance_of(to, d0)
                        + coins_total_before(f, kk, d0)) as u128);
                    assert(coins_total_before(f, kk, d0) <= old(self).balance_of(from, d0));
                    assert(old(self).balance_of(to, d0) + coins_total_before(f, kk, d0)
                        <= u128::MAX);
                }
            }
            match step {
                Ok(()) => {
                    proof {
                        assert(before.bank.bal(from, d0) >= c.amount);
                        assert(f[kk].0 == d0 && f[kk].1 == c.amount);
                        if from == to {
                            assert(before.balance_of(from, d0) == old(self).balance_of(from, d0));
                            assert(old(self).balance_of(from, d0) >= c.amount);
                            assert(old(self).coin_ok(from, to, f, kk));
                            assert forall|a2: usize, d: Seq<u8>| #[trigger]
                                self.balance_of(a2, d) == old(self).balance_of(a2, d) by {
                                assert(before.balance_of(a2, d) == old(self).balance_of(a2, d));
                                assert(self.bank.bal(a2, d) == before.bank.bal(a2, d));
                            }
                        } else {
                            assert(old(self).balance_of(from, d0) - coins_total_before(f, kk, d0)
                                >= c.amount);
                            assert(c.amount <= u128::MAX - before.bank.bal(to, d0));
                            assert(old(self).balance_of(to, d0) + coins_total_before(f, kk, d0)
                                + c.amount <= u128::MAX);
                            assert(old(self).coin_ok(from, to, f, kk));
                        }
                        if from != to {
                            assert forall|a2: usize, d: Seq<u8>| #[trigger]
                                self.balance_of(a2, d) == (if a2 == from {
                                    (old(self).balance_of(from, d) - coins_total_before(
                                        f,
                                        kk + 1,
                                        d,
                                    )) as u128
                                } else if a2 == to {
                                    (old(self).balance_of(to, d) + coins_total_before(
                                        f,
                                        kk + 1,
                                        d,
                                    )) as u128
                                } else {
                                    old(self).balance_of(a2, d)
                                }) by {
                                assert(before.balance_of(a2, d) == (if a2 == from {
                                    (old(self).balance_of(from, d) - coins_total_before(
                                        f,
                                        kk,
                                        d,
                                    )) as u128
                                } else if a2 == to {
                                    (old(self).balance_of(to, d) + coins_total_before(
                                        f,
                                        kk,
                                        d,
                                    )) as u128
                                } else {
                                    old(self).balance_of(a2, d)
                                }));
                                if d != d0 {
                                    assert(coins_total_before(f, kk + 1, d) == coins_total_before(
                                        f,
                                        kk,
                                        d,
                                    ));
                                }
                            }
                            assert forall|d: Seq<u8>| #[trigger]
                                coins_total_before(f, kk + 1, d) <= old(self).balance_of(
                                    from,
                                    d,
                                ) by {
                                assert(coins_total_before(f, kk, d) <= old(self).balance_of(
                                    from,
                                    d,
                                ));
                            }
                            assert forall|d: Seq<u8>|
                                old(self).balance_of(to, d) + #[trigger] coins_total_before(
                                    f,
                                    kk + 1,
                                    d,
                                ) <= u128::MAX by {
                                assert(old(self).balance_of(to, d) + coins_total_before(f, kk, d)
                                    <= u128::MAX);
                            }
                        }
                    }
                },
                Err(TransferError::InsufficientFunds) => {
                    proof {
                        assert(before.bank.bal(from, d0) < c.amount);
                        assert(f[kk].0 == d0 && f[kk].1 == c.amount);
                        if from == to {
                            assert(before.balance_of(from, d0) == old(self).balance_of(from, d0));
                        } else {
                            assert(before.balance_of(from, d0) as int == old(self).balance_of(
                                from,
                                d0,
                            ) - coins_total_before(f, kk, d0));
                        }
                        assert(old(self).coin_short(from, to, f, kk));
                        assert(!old(self).coin_ok(from, to, f, kk));
                    }
                    let e = EnsembleError::InsufficientFunds {
                        address: from,
                        denom: clone_bytes(&c.denom),
                        amount: c.amount,
                    };
                    proof {
                        assert(Self::coin_failure_err(*old(self), from, to, f, kk, e));
                    }
                    return Err(e);
                },
                Err(TransferError::BalanceOverflow) => {
                    proof {
                        assert(before.bank.bal(from, d0) >= c.amount);
                        assert(from != to && c.amount > u128::MAX - before.bank.bal(to, d0));
                        assert(!old(self).coin_short(from, to, f, kk));
                        assert(!old(self).coin_ok(from, to, f, kk));
                    }
                    let e = EnsembleError::BalanceOverflow {
                        address: to,
                        denom: clone_bytes(&c.denom),
                        amount: c.amount,
                    };
                    proof {
                        assert(Self::coin_failure_err(*old(self), from, to, f, kk, e));
                    }
                    return Err(e);
                },
            }
            k = k + 1;
        }
        proof {
            assert(f.len() == funds@.len());
        }
        Ok(())
    }

    /// One execute frame: moves the funds, opens a scope on the target's
    /// storage, invokes its handle capability, then dispatches the response
    /// messages within the same transaction, stopping at the first failure.
    fn dispatch_execute(
        &mut self,
        depth: u64,
        address: usize,
        sender: usize,
        msg: &Vec<u8>,
        funds: &Vec<Coin>,
    ) -> (r: Result<(), EnsembleError>)
        requires
            old(self).mid_wf(),
        ensures
            final(self).mid_wf(),
            Self::frame(*old(self), *final(self)),
            depth > 0 && address >= old(self).contracts@.len() ==> (r matches Err(e) && (e matches
                EnsembleError::UnknownContract { address: a } && a == address)),
            depth > 0 && address < old(self).contracts@.len() && !old(self).funds_ok(
                sender,
                address,
                coins_view(funds@),
            ) ==> (r matches Err(e) && Self::first_coin_failure(
                *old(self),
                sender,
                address,
                coins_view(funds@),
                e,
            )),
        decreases depth, 1int,
    {
        if depth == 0 {
            return Err(EnsembleError::CallDepthExceeded);
        }
        if address >= self.contracts.len() {
            return Err(EnsembleError::UnknownContract { address });
        }
        match self.send_funds(sender, address, funds) {
            Err(e) => {
                return Err(e);
            },
            Ok(()) => {},
        }
        let ghost pre = *self;
        let mut rec = self.contracts.remove(address);
        rec.storage.begin();
        let env = build_env(
            self.block_height,
            self.block_time,
            &self.chain_id,
            address,
            sender,
            funds,
        );
        let reg_index = rec.reg_index;
        let res = self.registry[reg_index].harness.handle(&mut rec.storage, &self.bank, &env, msg);
        proof {
            assert(rec.storage.base() == pre.contracts@[address as int].storage.base());
        }
        self.contracts.insert(address, rec);
        proof {
            let ai = address as int;
            assert(self.contracts@ =~= pre.contracts@.update(ai, self.contracts@[ai]));
        }
        match res {
            Err(error) => Err(EnsembleError::HandleFailed { address, error }),
            Ok(response) => self.run_messages(depth, address, response.messages),
        }
    }

    /// One instantiate frame: allocates the next address, opens the new
    /// storage's scope, moves the funds to the new address, invokes the init
    /// capability, then dispatches the response messages within the same
    /// transaction.  The record joins the registry-backed catalog even when
    /// init fails; the surrounding rollback discards it.
    fn dispatch_instantiate(
        &mut self,
        depth: u64,
        code_tag: usize,
        sender: usize,
        msg: &Vec<u8>,
        funds: &Vec<Coin>,
    ) -> (r: Result<usize, EnsembleError>)
        requires
            old(self).mid_wf(),
        ensures
            final(self).mid_wf(),
            Self::frame(*old(self), *final(self)),
            r matches Ok(a) ==> a == old(self).contracts@.len() && final(self).contracts@.len()
                > old(self).contracts@.len() && final(self).record_runs_tag(a as int, code_tag),
            depth > 0 && !old(self).has_tag(code_tag) ==> (r matches Err(e) && e is
                UnknownContract),
            depth > 0 && old(self).has_tag(code_tag) && !old(self).funds_ok(
                sender,
                old(self).contracts@.len() as usize,
                coins_view(funds@),
            ) ==> (r matches Err(e) && Self::first_coin_failure(
                *old(self),
                sender,
                old(self).contracts@.len() as usize,
                coins_view(funds@),
                e,
            )),
        decreases depth, 1int,
    {
        if depth == 0 {
            return Err(EnsembleError::CallDepthExceeded);
        }
        let reg_index = match self.find_tag(code_tag) {
            Some(i) => {
                proof {
                    assert(old(self).registry_seq()[i as int].tag == code_tag);
                    assert(old(self).has_tag(code_tag));
                }
                i
            },
            None => {
                return Err(EnsembleError::UnknownContract { address: code_tag });
            },
        };
        let address = self.contracts.len();
        match self.send_funds(sender, address, funds) {
            Err(e) => {
                return Err(e);
            },
            Ok(()) => {},
        }
        let ghost pre = *self;
        let mut storage = RevertableStorage::new();
        storage.begin();
        let env = build_env(
            self.block_height,
            self.block_time,
            &self.chain_id,
            address,
            sender,
            funds,
        );
        let res = self.registry[reg_index].harness.init(&mut storage, &self.bank, &env, msg);
        self.contracts.push(ContractRecord { reg_index, storage });
        proof {
            assert(self.contracts@.drop_last() == pre.contracts@);
            assert forall|i: int|
                0 <= i < pre.contracts@.len() implies (#[trigger] self.contracts@[i])
                    == pre.contracts@[i] by {}
        }
        match res {
            Err(error) => Err(EnsembleError::InitFailed { address, error }),
            Ok(response) => match self.run_messages(depth, address, response.messages) {
                Ok(()) => Ok(address),
                Err(e) => Err(e),
            },
        }
    }

    /// Dispatches a response's messages in response order, on behalf of the
    /// contract that returned them, stopping at the first failure.
    fn run_messages(&mut self, depth: u64, sender: usize, msgs: Vec<SubMsg>) -> (r: Result<
        (),
        EnsembleError,
    >)
        requires
            old(self).mid_wf(),
            depth >= 1,
        ensures
            final(self).mid_wf(),
            Self::frame(*old(self), *final(self)),
            msgs@.len() == 0 ==> r is Ok && *final(self) == *old(self),
        decreases depth, 0int,
    {
        let mut j: usize = 0;
        while j < msgs.len()
            invariant
                self.mid_wf(),
                Self::frame(*old(self), *self),
                depth >= 1,
                j <= msgs@.len(),
                msgs@.len() == 0 ==> *self == *old(self),
            decreases msgs@.len() - j,
        {
            let step = match &msgs[j] {
                SubMsg::Execute { address, msg, funds } => self.dispatch_execute(
                    depth - 1,
                    *address,
                    sender,
                    msg,
                    funds,
                ),
                SubMsg::Instantiate { code_tag, msg, funds } => match self.dispatch_instantiate(
                    depth - 1,
                    *code_tag,
                    sender,
                    msg,
                    funds,
                ) {
                    Ok(_) => Ok(()),
                    Err(e) => Err(e),
                },
                SubMsg::Transfer { to, denom, amount } => match self.bank.transfer(
                    sender,
                    *to,
                    denom,
                    *amount,
                ) {
                    Ok(()) => Ok(()),
                    Err(TransferError::InsufficientFunds) => Err(
                        EnsembleError::InsufficientFunds {
                            address: sender,
                            denom: clone_bytes(denom),
                            amount: *amount,
                        },
                    ),
                    Err(TransferError::BalanceOverflow) => Err(
                        EnsembleError::BalanceOverflow {
                            address: *to,
                            denom: clone_bytes(denom),
                            amount: *amount,
                        },
                    ),
                },
            };
            match step {
                Ok(()) => {},
                Err(e) => {
                    return Err(e);
                },
            }
            j = j + 1;
        }
        Ok(())
    }

    /// Closes the top-level transaction keeping all changes: commits every
    /// open storage scope and discards the bank snapshot.
    fn finish_commit(&mut self)
        requires
            old(self).mid_wf(),
        ensures
            final(self).wf(),
            final(self).registry@ == old(self).registry@,
            final(self).contracts@.len() == old(self).contracts@.len(),
            forall|i: int|
                0 <= i < old(self).contracts@.len() ==> #[trigger] final(self).storage_live(i)
                    == old(self).contracts@[i].storage.live(),
            forall|i: int|
                0 <= i < old(self).contracts@.len() ==> (#[trigger] final(self).contracts@[
                i]).reg_index == old(self).contracts@[i].reg_index,
            forall|a: usize, d: Seq<u8>| #[trigger]
                final(self).balance_of(a, d) == old(self).bank.bal(a, d),
            forall|d: Seq<u8>| #[trigger] final(self).total_of(d) == old(self).bank.total(d),
            final(self).block_height == old(self).block_height,
            final(self).block_time == old(self).block_time,
            final(self).chain_id@ == old(self).chain_id@,
    {
        let mut i: usize = 0;
        while i < self.contracts.len()
            invariant
                self.mid_wf(),
                self.contracts@.len() == old(self).contracts@.len(),
                i <= self.contracts@.len(),
                self.registry@ == old(self).registry@,
                self.bank == old(self).bank,
                self.block_height == old(self).block_height,
                self.block_time == old(self).block_time,
                self.chain_id == old(self).chain_id,
                forall|j: int|
                    0 <= j < i ==> (#[trigger] self.contracts@[j]).storage.depth() == 0,
                forall|j: int|
                    0 <= j < self.contracts@.len() ==> (#[trigger] self.contracts@[j]).storage.live()
                        == old(self).contracts@[j].storage.live(),
                forall|j: int|
                    0 <= j < self.contracts@.len() ==> (#[trigger] self.contracts@[j]).reg_index
                        == old(self).contracts@[j].reg_index,
            decreases self.contracts@.len() - i,
        {
            let ghost pre = self.contracts@;
            let mut rec = self.contracts.remove(i);
            rec.storage.commit_all();
            self.contracts.insert(i, rec);
            proof {
                assert(self.contracts@ =~= pre.update(i as int, self.contracts@[i as int]));
            }
            i = i + 1;
        }
        self.bank.commit();
    }

    /// Closes the top-level transaction undoing everything: discards the
    /// records created inside it, rolls every surviving storage back to its
    /// baseline, and restores the bank snapshot.
    fn finish_rollback(&mut self, old_len: usize)
        requires
            old(self).mid_wf(),
            old_len <= old(self).contracts@.len(),
        ensures
            final(self).wf(),
            final(self).registry@ == old(self).registry@,
            final(self).contracts@.len() == old_len,
            forall|i: int|
                0 <= i < old_len ==> #[trigger] final(self).storage_live(i) == old(
                    self,
                ).contracts@[i].storage.base(),
            forall|i: int|
                0 <= i < old_len ==> (#[trigger] final(self).contracts@[i]).reg_index == old(
                    self,
                ).contracts@[i].reg_index,
            forall|a: usize, d: Seq<u8>| #[trigger]
                final(self).balance_of(a, d) == old(self).bank.snap_bal(0, a, d),
            forall|d: Seq<u8>| #[trigger] final(self).total_of(d) == old(self).bank.snap_total(0, d),
            final(self).block_height == old(self).block_height,
            final(self).block_time == old(self).block_time,
            final(self).chain_id@ == old(self).chain_id@,
    {
        proof {
            assert(old(self).contracts@.take(self.contracts@.len() as int) =~= self.contracts@);
        }
        while self.contracts.len() > old_len
            invariant
                self.mid_wf(),
                old_len <= self.contracts@.len(),
                self.contracts@.len() <= old(self).contracts@.len(),
                self.contracts@ == old(self).contracts@.take(self.contracts@.len() as int),
                self.registry@ == old(self).registry@,
                self.bank == old(self).bank,
                self.block_height == old(self).block_height,
                self.block_time == old(self).block_time,
                self.chain_id == old(self).chain_id,
            decreases self.contracts@.len(),
        {
            proof {
                let n = self.contracts@.len() as int;
                assert forall|i: int|
                    0 <= i < n - 1 implies self.contracts@.drop_last()[i] == old(
                    self,
                ).contracts@.take(n - 1)[i] by {
                    assert(self.contracts@.drop_last()[i] == self.contracts@[i]);
                    assert(old(self).contracts@.take(n)[i] == old(self).contracts@[i]);
                    assert(old(self).contracts@.take(n - 1)[i] == old(self).contracts@[i]);
                }
                assert(self.contracts@.drop_last() =~= old(self).contracts@.take(n - 1));
            }
            let _ = self.contracts.pop();
        }
        let mut i: usize = 0;
        while i < self.contracts.len()
            invariant
                self.mid_wf(),
                self.contracts@.len() == old_len,
                old_len <= old(self).contracts@.len(),
                i <= self.contracts@.len(),
                self.registry@ == old(self).registry@,
                self.bank == old(self).bank,
                self.block_height == old(self).block_height,
                self.block_time == old(self).block_time,
                self.chain_id == old(self).chain_id,
                forall|j: int|
                    0 <= j < i ==> (#[trigger] self.contracts@[j]).storage.depth() == 0,
                forall|j: int|
                    0 <= j < i ==> (#[trigger] self.contracts@[j]).storage.live() == old(
                        self,
                    ).contracts@[j].storage.base(),
                forall|j: int|
                    i <= j < old_len ==> (#[trigger] self.contracts@[j]).storage.base() == old(
                        self,
                    ).contracts@[j].storage.base(),
                forall|j: int|
                    0 <= j < old_len ==> (#[trigger] self.contracts@[j]).reg_index == old(
                        self,
                    ).contracts@[j].reg_index,
            decreases self.contracts@.len() - i,
        {
            let ghost pre = self.contracts@;
            let mut rec = self.contracts.remove(i);
            rec.storage.rollback_all();
            self.contracts.insert(i, rec);
            proof {
                assert(self.contracts@ =~= pre.update(i as int, self.contracts@[i as int]));
            }
            i = i + 1;
        }
        self.bank.rollback();
    }

    /// Dispatches an execute to the contract at the address, inside a fresh
    /// transaction over every storage and the bank.  On any failure at any
    /// depth — unknown address, a failing handler, a failing sub-call, a
    /// short or overflowing transfer, or exceeding the call-depth limit —
    /// the whole call tree is rolled back and the error surfaced; only when
    /// the handler and every sub-call succeed is the tree committed.  The
    /// total of every denomination is conserved either way.
    pub fn execute(&mut self, address: usize, msg: Vec<u8>, sender: usize, funds: Vec<Coin>) -> (r:
        Result<(), EnsembleError>)
        requires
            old(self).wf(),
        ensures
            final(self).wf(),
            r is Err ==> Self::state_eq(*old(self), *final(self)),
            !old(self).has_contract(address) ==> (r matches Err(e) && (e matches
                EnsembleError::UnknownContract { address: a } && a == address)),
            old(self).has_contract(address) && !old(self).funds_ok(
                sender,
                address,
                coins_view(funds@),
            ) ==> (r matches Err(e) && Self::first_coin_failure(
                *old(self),
                sender,
                address,
                coins_view(funds@),
                e,
            )),
            final(self).registry_seq() == old(self).registry_seq(),
            final(self).contracts_len() >= old(self).contracts_len(),
            forall|i: int|
                0 <= i < old(self).contracts_len() ==> #[trigger] final(self).reg_index_of(i)
                    == old(self).reg_index_of(i),
            forall|d: Seq<u8>| #[trigger] final(self).total_of(d) == old(self).total_of(d),
            final(self).height() == old(self).height(),
            final(self).time() == old(self).time(),
            final(self).chain() == old(self).chain(),
    {
        let ghost pre = *self;
        let old_len = self.contracts.len();
        self.bank.begin();
        let ghost opened = *self;
        proof {
            assert forall|a2: usize, d: Seq<u8>| #[trigger]
                opened.balance_of(a2, d) == pre.balance_of(a2, d) by {
                assert(opened.bank.bal(a2, d) == pre.bank.bal(a2, d));
            }
            Self::lemma_funds_pred_agree(pre, opened, sender, address, coins_view(funds@));
        }
        let r = self.dispatch_execute(CALL_DEPTH_LIMIT, address, sender, &msg, &funds);
        let ghost mid = *self;
        match r {
            Ok(()) => {
                self.finish_commit();
                Ok(())
            },
            Err(e) => {
                self.finish_rollback(old_len);
                proof {
                    crate::bank::lemma_snaps_agree(opened.bank, mid.bank);
                    assert forall|i: int|
                        0 <= i < pre.contracts_len() implies #[trigger] self.storage_live(i)
                        == pre.storage_live(i) by {
                        assert(mid.contracts@[i].storage.base()
                            == pre.contracts@[i].storage.base());
                        pre.contracts@[i].storage.lemma_base_closed();
                    }
                    assert forall|a: usize, d: Seq<u8>| #[trigger]
                        self.balance_of(a, d) == pre.balance_of(a, d) by {
                        assert(self.balance_of(a, d) == mid.bank.snap_bal(0, a, d));
                        assert(mid.bank.snap_bal(0, a, d) == opened.bank.snap_bal(0, a, d));
                        assert(opened.bank.snap_bal(0, a, d) == pre.bank.bal(a, d));
                    }
                    assert forall|d: Seq<u8>| #[trigger]
                        self.total_of(d) == pre.total_of(d) by {
                        assert(self.total_of(d) == mid.bank.snap_total(0, d));
                        assert(mid.bank.snap_total(0, d) == opened.bank.snap_total(0, d));
                        assert(opened.bank.snap_total(0, d) == pre.bank.total(d));
                    }
                }
                Err(e)
            },
        }
    }

    /// Instantiates a new contract from the registered tag: allocates the
    /// next address, runs the init capability with the funds credited from
    /// the sender, and dispatches the response's messages, all inside a
    /// fresh transaction.  On success returns the new address, which is the
    /// previous contract count; on any failure the whole tree is rolled back
    /// — the address is not allocated and nothing changed.  The total of
    /// every denomination is conserved either way.
    #[verifier::rlimit(50)]
    pub fn instantiate(&mut self, code_tag: usize, msg: Vec<u8>, sender: usize, funds: Vec<
        Coin,
    >) -> (r: Result<usize, EnsembleError>)
        requires
            old(self).wf(),
        ensures
            final(self).wf(),
            r is Err ==> Self::state_eq(*old(self), *final(self)),
            r matches Ok(a) ==> a == old(self).contracts_len() && final(self).contracts_len() > old(
                self,
            ).contracts_len() && final(self).record_runs_tag(a as int, code_tag),
            !old(self).has_tag(code_tag) ==> (r matches Err(e) && e is UnknownContract),
            old(self).has_tag(code_tag) && !old(self).funds_ok(
                sender,
                old(self).contracts_len() as usize,
                coins_view(funds@),
            ) ==> (r matches Err(e) && Self::first_coin_failure(
                *old(self),
                sender,
                old(self).contracts_len() as usize,
                coins_view(funds@),
                e,
            )),
            final(self).registry_seq() == old(self).registry_seq(),
            forall|i: int|
                0 <= i < old(self).contracts_len() ==> #[trigger] final(self).reg_index_of(i)
                    == old(self).reg_index_of(i),
            forall|d: Seq<u8>| #[trigger] final(self).total_of(d) == old(self).total_of(d),
            final(self).height() == old(self).height(),
            final(self).time() == old(self).time(),
            final(self).chain() == old(self).chain(),
    {
        let ghost pre = *self;
        let old_len = self.contracts.len();
        self.bank.begin();
        let ghost opened = *self;
        proof {
            if opened.has_tag(code_tag) {
                let rs = opened.registry_seq();
                let i = choose|i: int| 0 <= i < rs.len() && (#[trigger] rs[i]).tag == code_tag;
                assert(pre.registry_seq()[i].tag == code_tag);
                assert(pre.has_tag(code_tag));
            }
            if pre.has_tag(code_tag) {
                let rs2 = pre.registry_seq();
                let i2 = choose|i: int| 0 <= i < rs2.len() && (#[trigger] rs2[i]).tag == code_tag;
                assert(opened.registry_seq()[i2].tag == code_tag);
                assert(opened.has_tag(code_tag));
            }
            assert forall|a2: usize, d: Seq<u8>| #[trigger]
                opened.balance_of(a2, d) == pre.balance_of(a2, d) by {
                assert(opened.bank.bal(a2, d) == pre.bank.bal(a2, d));
            }
            Self::lemma_funds_pred_agree(
                pre,
                opened,
                sender,
                pre.contracts_len() as usize,
                coins_view(funds@),
            );
            assert(opened.contracts@.len() as usize == pre.contracts_len() as usize);
        }
        let r = self.dispatch_instantiate(CALL_DEPTH_LIMIT, code_tag, sender, &msg, &funds);
        let ghost mid = *self;
        match r {
            Ok(address) => {
                self.finish_commit();
                Ok(address)
            },
            Err(e) => {
                self.finish_rollback(old_len);
                proof {
                    crate::bank::lemma_snaps_agree(opened.bank, mid.bank);
                    assert forall|i: int|
                        0 <= i < pre.contracts_len() implies #[trigger] self.storage_live(i)
                        == pre.storage_live(i) by {
                        assert(mid.contracts@[i].storage.base()
                            == pre.contracts@[i].storage.base());
                        pre.contracts@[i].storage.lemma_base_closed();
                    }
                    assert forall|a: usize, d: Seq<u8>| #[trigger]
                        self.balance_of(a, d) == pre.balance_of(a, d) by {
                        assert(self.balance_of(a, d) == mid.bank.snap_bal(0, a, d));
                        assert(mid.bank.snap_bal(0, a, d) == opened.bank.snap_bal(0, a, d));
                        assert(opened.bank.snap_bal(0, a, d) == pre.bank.bal(a, d));
                    }
                    assert forall|d: Seq<u8>| #[trigger]
                        self.total_of(d) == pre.total_of(d) by {
                        assert(self.total_of(d) == mid.bank.snap_total(0, d));
                        assert(mid.bank.snap_total(0, d) == opened.bank.snap_total(0, d));
                        assert(opened.bank.snap_total(0, d) == pre.bank.total(d));
                    }
                }
                Err(e)
            },
        }
    }
}

} // verus!
