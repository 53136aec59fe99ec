//! The in-memory ledger of per-address token balances.
//!
//! A [`Bank`] maps (address, denomination) pairs to non-negative amounts,
//! defaulting to zero.  [`Bank::transfer`] moves an amount between addresses
//! and conserves the total per denomination; [`Bank::set_balance`] is the
//! test-only override that seeds scenarios.  Snapshots taken by
//! [`Bank::begin`] let a surrounding transaction undo every balance change.

use vstd::prelude::*;
use crate::storage::{bytes_eq, clone_bytes};

verus! {

/// An amount of one token denomination.
pub struct Coin {
    pub denom: Vec<u8>,
    pub amount: u128,
}

/// The mathematical content of a list of coins.
pub open spec fn coins_view(s: Seq<Coin>) -> Seq<(Seq<u8>, u128)> {
    s.map_values(|c: Coin| (c.denom@, c.amount))
}

/// Copies a list of coins.
pub fn clone_coins(s: &Vec<Coin>) -> (r: Vec<Coin>)
    ensures
        coins_view(r@) == coins_view(s@),
{
    let mut r: Vec<Coin> = Vec::new();
    let mut i: usize = 0;
    while i < s.len()
        invariant
            i <= s.len(),
            r@.len() == i,
            forall|j: int|
                0 <= j < i ==> (#[trigger] r@[j]).denom@ == s@[j].denom@ && r@[j].amount
                    == s@[j].amount,
        decreases s.len() - i,
    {
        let denom = clone_bytes(&s[i].denom);
        r.push(Coin { denom, amount: s[i].amount });
        i = i + 1;
    }
    proof {
        assert(coins_view(r@) =~= coins_view(s@));
    }
    r
}

/// The amount of `d` among the first `k` coins of a list.
pub open spec fn coins_total_before(f: Seq<(Seq<u8>, u128)>, k: int, d: Seq<u8>) -> int
    decreases k,
{
    if k <= 0 {
        0int
    } else {
        coins_total_before(f, k - 1, d) + if f[k - 1].0 == d {
            f[k - 1].1 as int
        } else {
            0int
        }
    }
}

/// The amount of `d` in the whole coin list.
pub open spec fn coins_total(f: Seq<(Seq<u8>, u128)>, d: Seq<u8>) -> int {
    coins_total_before(f, f.len() as int, d)
}

/// A sum of amounts is never negative.
pub broadcast proof fn lemma_coins_total_nonneg(f: Seq<(Seq<u8>, u128)>, k: int, d: Seq<u8>)
    ensures
        #[trigger] coins_total_before(f, k, d) >= 0,
    decreases k,
{
    if k > 0 {
        lemma_coins_total_nonneg(f, k - 1, d);
    }
}

/// One ledger row: the amount an address holds of one denomination.
pub struct BalanceEntry {
    pub address: usize,
    pub denom: Vec<u8>,
    pub amount: u128,
}

/// The row binds this (address, denomination) pair.
pub open spec fn entry_matches(e: BalanceEntry, a: usize, d: Seq<u8>) -> bool {
    e.address == a && e.denom@ == d
}

/// No two rows bind the same (address, denomination) pair.
pub open spec fn entries_unique(s: Seq<BalanceEntry>) -> bool {
    forall|i: int, j: int|
        0 <= i < j < s.len() ==> !((#[trigger] s[i]).address == (#[trigger] s[j]).address
            && s[i].denom@ == s[j].denom@)
}

/// The amount the rows give the pair; zero when no row binds it.
pub open spec fn bal_in(s: Seq<BalanceEntry>, a: usize, d: Seq<u8>) -> u128
    decreases s.len(),
{
    if s.len() == 0 {
        0
    } else if entry_matches(s.last(), a, d) {
        s.last().amount
    } else {
        bal_in(s.drop_last(), a, d)
    }
}

/// The sum the rows hold of one denomination, over all addresses.
pub open spec fn total_in(s: Seq<BalanceEntry>, d: Seq<u8>) -> int
    decreases s.len(),
{
    if s.len() == 0 {
        0int
    } else {
        total_in(s.drop_last(), d) + if s.last().denom@ == d {
            s.last().amount as int
        } else {
            0int
        }
    }
}

/// When no row binds the pair, its amount is zero.
pub proof fn lemma_bal_absent(s: Seq<BalanceEntry>, a: usize, d: Seq<u8>)
    requires
        forall|i: int| 0 <= i < s.len() ==> !entry_matches(#[trigger] s[i], a, d),
    ensures
        bal_in(s, a, d) == 0,
    decreases s.len(),
{
    if s.len() > 0 {
        assert(!entry_matches(s[s.len() - 1], a, d));
        assert forall|i: int| 0 <= i < s.drop_last().len() implies !entry_matches(
            #[trigger] s.drop_last()[i],
            a,
            d,
        ) by {
            assert(s.drop_last()[i] == s[i]);
        }
        lemma_bal_absent(s.drop_last(), a, d);
    }
}

/// Removing row `i` zeroes the pair it bound and leaves every other pair and
/// every total short of exactly that row's amount.
pub proof fn lemma_remove_entry(s: Seq<BalanceEntry>, i: int)
    requires
        entries_unique(s),
        0 <= i < s.len(),
    ensures
        entries_unique(s.remove(i)),
        forall|j: int|
            0 <= j < s.remove(i).len() ==> !entry_matches(
                #[trigger] s.remove(i)[j],
                s[i].address,
                s[i].denom@,
            ),
        forall|a: usize, d: Seq<u8>|
            !(a == s[i].address && d == s[i].denom@) ==> #[trigger] bal_in(s.remove(i), a, d)
                == bal_in(s, a, d),
        forall|d: Seq<u8>| #[trigger]
            total_in(s.remove(i), d) == total_in(s, d) - if s[i].denom@ == d {
                s[i].amount as int
            } else {
                0int
            },
    decreases s.len(),
{
    let r = s.remove(i);
    assert forall|j: int| 0 <= j < r.len() implies r[j] == if j < i {
        s[j]
    } else {
        s[j + 1]
    } by {}
    assert forall|j1: int, j2: int| 0 <= j1 < j2 < r.len() implies !((#[trigger] r[j1]).address == (
    #[trigger] r[j2]).address && r[j1].denom@ == r[j2].denom@) by {}
    assert forall|j: int| 0 <= j < r.len() implies !entry_matches(
        #[trigger] r[j],
        s[i].address,
        s[i].denom@,
    ) by {}
    if i == s.len() - 1 {
        assert(r =~= s.drop_last());
    } else {
        let dl = s.drop_last();
        assert(entries_unique(dl));
        lemma_remove_entry(dl, i);
        assert(r.drop_last() =~= dl.remove(i));
        assert(r.last() == s.last());
        assert forall|a: usize, d: Seq<u8>|
            !(a == s[i].address && d == s[i].denom@) implies #[trigger] bal_in(r, a, d) == bal_in(
            s,
            a,
            d,
        ) by {
            if entry_matches(r.last(), a, d) {
            } else {
                assert(bal_in(r, a, d) == bal_in(dl.remove(i), a, d));
                assert(bal_in(s, a, d) == bal_in(dl, a, d));
            }
        }
        assert forall|d: Seq<u8>| #[trigger]
            total_in(r, d) == total_in(s, d) - (if s[i].denom@ == d {
                s[i].amount as int
            } else {
                0int
            }) by {
            assert(total_in(r, d) == total_in(dl.remove(i), d) + if r.last().denom@ == d {
                r.last().amount as int
            } else {
                0int
            });
        }
    }
}

/// Two row lists with the same addresses, denominations and amounts in the
/// same order give every pair and every total the same value.
pub proof fn lemma_entries_equiv(s1: Seq<BalanceEntry>, s2: Seq<BalanceEntry>)
    requires
        s1.len() == s2.len(),
        forall|j: int|
            0 <= j < s1.len() ==> (#[trigger] s2[j]).address == s1[j].address && s2[j].denom@
                == s1[j].denom@ && s2[j].amount == s1[j].amount,
    ensures
        forall|a: usize, d: Seq<u8>| #[trigger] bal_in(s2, a, d) == bal_in(s1, a, d),
        forall|d: Seq<u8>| #[trigger] total_in(s2, d) == total_in(s1, d),
        entries_unique(s1) ==> entries_unique(s2),
    decreases s1.len(),
{
    if s1.len() > 0 {
        assert forall|j: int| 0 <= j < s1.drop_last().len() implies (#[trigger] s2.drop_last()[
        j]).address == s1.drop_last()[j].address && s2.drop_last()[j].denom@
            == s1.drop_last()[j].denom@ && s2.drop_last()[j].amount == s1.drop_last()[j].amount by {
            assert(s1.drop_last()[j] == s1[j]);
            assert(s2.drop_last()[j] == s2[j]);
        }
        lemma_entries_equiv(s1.drop_last(), s2.drop_last());
        let n = s1.len() - 1;
        assert(s2[n].address == s1[n].address && s2[n].denom@ == s1[n].denom@ && s2[n].amount
            == s1[n].amount);
        assert forall|a: usize, d: Seq<u8>| #[trigger] bal_in(s2, a, d) == bal_in(s1, a, d) by {
            assert(entry_matches(s2.last(), a, d) == entry_matches(s1.last(), a, d));
            if !entry_matches(s1.last(), a, d) {
                assert(bal_in(s2, a, d) == bal_in(s2.drop_last(), a, d));
                assert(bal_in(s1, a, d) == bal_in(s1.drop_last(), a, d));
            }
        }
        assert forall|d: Seq<u8>| #[trigger] total_in(s2, d) == total_in(s1, d) by {
            assert(total_in(s2, d) == total_in(s2.drop_last(), d) + if s2.last().denom@ == d {
                s2.last().amount as int
            } else {
                0int
            });
            assert(total_in(s1, d) == total_in(s1.drop_last(), d) + if s1.last().denom@ == d {
                s1.last().amount as int
            } else {
                0int
            });
        }
    }
    if entries_unique(s1) {
        assert forall|i: int, j: int| 0 <= i < j < s2.len() implies !((#[trigger] s2[i]).address
            == (#[trigger] s2[j]).address && s2[i].denom@ == s2[j].denom@) by {
            assert(s1[i].address == s2[i].address && s1[i].denom@ == s2[i].denom@);
            assert(s1[j].address == s2[j].address && s1[j].denom@ == s2[j].denom@);
        }
    }
}

/// The error a transfer can fail with.
#[derive(Debug)]
pub enum TransferError {
    /// The debited address holds less of the denomination than the amount.
    InsufficientFunds,
    /// Crediting the amount would take the receiving balance past the
    /// largest representable amount.
    BalanceOverflow,
}

/// The ledger: balances per (address, denomination), with snapshots that a
/// surrounding transaction scope uses to undo balance changes.
pub struct Bank {
    entries: Vec<BalanceEntry>,
    snaps: Vec<Vec<BalanceEntry>>,
}

impl Bank {
    /// The amount the pair holds; zero for unseen pairs.
    pub closed spec fn bal(self, a: usize, d: Seq<u8>) -> u128 {
        bal_in(self.entries@, a, d)
    }

    /// The sum held of one denomination, over all addresses.
    pub closed spec fn total(self, d: Seq<u8>) -> int {
        total_in(self.entries@, d)
    }

    /// How many snapshots are open.
    pub closed spec fn depth(self) -> nat {
        self.snaps@.len()
    }

    /// The amount the pair held when snapshot `i` was taken.
    pub closed spec fn snap_bal(self, i: int, a: usize, d: Seq<u8>) -> u128 {
        bal_in(self.snaps@[i]@, a, d)
    }

    /// The sum of one denomination when snapshot `i` was taken.
    pub closed spec fn snap_total(self, i: int, d: Seq<u8>) -> int {
        total_in(self.snaps@[i]@, d)
    }

    /// The snapshots currently held, oldest first.
    pub closed spec fn snaps_rep(self) -> Seq<Vec<BalanceEntry>> {
        self.snaps@
    }

    /// Well-formedness: no pair is bound by two rows, in the ledger or in
    /// any snapshot.
    pub closed spec fn wf(self) -> bool {
        &&& entries_unique(self.entries@)
        &&& forall|i: int| 0 <= i < self.snaps@.len() ==> entries_unique((#[trigger] self.snaps@[i])@)
    }

    /// An empty ledger: every balance is zero.
    pub fn new() -> (r: Bank)
        ensures
            r.wf(),
            r.depth() == 0,
            forall|a: usize, d: Seq<u8>| #[trigger] r.bal(a, d) == 0,
            forall|d: Seq<u8>| #[trigger] r.total(d) == 0,
    {
        Bank { entries: Vec::new(), snaps: Vec::new() }
    }

    /// Reads the amount the pair holds, zero for unseen pairs.
    pub fn balance(&self, address: usize, denom: &Vec<u8>) -> (r: u128)
        ensures
            r == self.bal(address, denom@),
    {
        let mut i: usize = self.entries.len();
        proof {
            assert(self.entries@.take(i as int) =~= self.entries@);
        }
        while i > 0
            invariant
                i <= self.entries.len(),
                bal_in(self.entries@, address, denom@) == bal_in(
                    self.entries@.take(i as int),
                    address,
                    denom@,
                ),
            decreases i,
        {
            proof {
                assert(self.entries@.take(i as int).drop_last() =~= self.entries@.take(i - 1));
                assert(self.entries@.take(i as int).last() == self.entries@[i - 1]);
            }
            let e = &self.entries[i - 1];
            if e.address == address && bytes_eq(&e.denom, denom) {
                return e.amount;
            }
            i = i - 1;
        }
        proof {
            assert(self.entries@.take(0) =~= Seq::<BalanceEntry>::empty());
        }
        0
    }

    /// Overrides the pair's amount directly, bypassing conservation; meant
    /// for seeding test scenarios.
    pub fn set_balance(&mut self, address: usize, denom: Vec<u8>, amount: u128)
        requires
            old(self).wf(),
        ensures
            final(self).wf(),
            final(self).depth() == old(self).depth(),
            final(self).snaps_rep() == old(self).snaps_rep(),
            forall|a: usize, d: Seq<u8>| #[trigger]
                final(self).bal(a, d) == if a == address && d == denom@ {
                    amount
                } else {
                    old(self).bal(a, d)
                },
            forall|d: Seq<u8>| #[trigger]
                final(self).total(d) == old(self).total(d) + (if d == denom@ {
                    amount - old(self).bal(address, denom@)
                } else {
                    0int
                }),
    {
        let ghost pre = self.entries@;
        match self.find_entry(address, &denom) {
            Some(i) => {
                let _removed = self.entries.remove(i);
                proof {
                    assert(pre[i as int].address == address && pre[i as int].denom@ == denom@);
                    lemma_remove_entry(pre, i as int);
                    lemma_bal_at_index(pre, i as int);
                    lemma_bal_absent(self.entries@, address, denom@);
                }
            },
            None => {
                proof {
                    lemma_bal_absent(self.entries@, address, denom@);
                }
            },
        }
        let ghost mid = self.entries@;
        let ghost was = bal_in(pre, address, denom@);
        proof {
            assert(bal_in(mid, address, denom@) == 0);
            assert forall|a: usize, d: Seq<u8>|
                !(a == address && d == denom@) implies #[trigger] bal_in(mid, a, d) == bal_in(
                pre,
                a,
                d,
            ) by {}
            assert forall|d: Seq<u8>| #[trigger]
                total_in(mid, d) == total_in(pre, d) - (if d == denom@ {
                    was as int
                } else {
                    0int
                }) by {}
            assert(forall|j: int|
                0 <= j < mid.len() ==> !entry_matches(#[trigger] mid[j], address, denom@));
        }
        self.entries.push(BalanceEntry { address, denom, amount });
        proof {
            assert(self.entries@.drop_last() == mid);
            assert(entry_matches(self.entries@.last(), address, denom@));
            assert forall|a: usize, d: Seq<u8>| #[trigger]
                self.bal(a, d) == if a == address && d == denom@ {
                    amount
                } else {
                    bal_in(pre, a, d)
                } by {
                if !(a == address && d == denom@) {
                    assert(!entry_matches(self.entries@.last(), a, d));
                    assert(bal_in(self.entries@, a, d) == bal_in(mid, a, d));
                }
            }
            assert forall|d: Seq<u8>| #[trigger]
                total_in(self.entries@, d) == total_in(pre, d) + (if d == denom@ {
                    amount - was
                } else {
                    0int
                }) by {
                assert(total_in(self.entries@, d) == total_in(mid, d) + if d == denom@ {
                    amount as int
                } else {
                    0int
                });
            }
            assert forall|i1: int, i2: int| 0 <= i1 < i2 < self.entries@.len() implies !((
            #[trigger] self.entries@[i1]).address == (#[trigger] self.entries@[i2]).address
                && self.entries@[i1].denom@ == self.entries@[i2].denom@) by {
                if i2 == self.entries@.len() - 1 {
                    assert(self.entries@[i1] == mid[i1]);
                    assert(!entry_matches(mid[i1], address, denom@));
                } else {
                    assert(self.entries@[i1] == mid[i1]);
                    assert(self.entries@[i2] == mid[i2]);
                }
            }
        }
    }

    /// Finds the row binding the pair, when one exists.
    fn find_entry(&self, address: usize, denom: &Vec<u8>) -> (r: Option<usize>)
        ensures
            match r {
                Some(i) => i < self.entries@.len() && entry_matches(
                    self.entries@[i as int],
                    address,
                    denom@,
                ),
                None => forall|j: int|
                    0 <= j < self.entries@.len() ==> !entry_matches(
                        #[trigger] self.entries@[j],
                        address,
                        denom@,
                    ),
            },
    {
        let mut i: usize = 0;
        while i < self.entries.len()
            invariant
                i <= self.entries@.len(),
                forall|j: int|
                    0 <= j < i ==> !entry_matches(#[trigger] self.entries@[j], address, denom@),
            decreases self.entries@.len() - i,
        {
            let e = &self.entries[i];
            if e.address == address && bytes_eq(&e.denom, denom) {
                return Some(i);
            }
            i = i + 1;
        }
        None
    }

    /// Moves `amount` of `denom` from one address to another.  Fails, and
    /// changes nothing, when the debited balance is short or the credited
    /// balance would overflow; otherwise debits and credits in one step,
    /// conserving the total of every denomination.
    pub fn transfer(&mut self, from: usize, to: usize, denom: &Vec<u8>, amount: u128) -> (r: Result<
        (),
        TransferError,
    >)
        requires
            old(self).wf(),
        ensures
            final(self).wf(),
            final(self).depth() == old(self).depth(),
            final(self).snaps_rep() == old(self).snaps_rep(),
            r is Ok <==> old(self).bal(from, denom@) >= amount && (from == to || amount <= u128::MAX
                - old(self).bal(to, denom@)),
            r == Err::<(), TransferError>(TransferError::InsufficientFunds) <==> old(self).bal(
                from,
                denom@,
            ) < amount,
            forall|a: usize, d: Seq<u8>| #[trigger]
                final(self).bal(a, d) == if r is Ok && from != to && a == from && d == denom@ {
                    (old(self).bal(from, denom@) - amount) as u128
                } else if r is Ok && from != to && a == to && d == denom@ {
                    (old(self).bal(to, denom@) + amount) as u128
                } else {
                    old(self).bal(a, d)
                },
            forall|d: Seq<u8>| #[trigger] final(self).total(d) == old(self).total(d),
    {
        let bf = self.balance(from, denom);
        if bf < amount {
            return Err(TransferError::InsufficientFunds);
        }
        if from == to {
            return Ok(());
        }
        let bt = self.balance(to, denom);
        if amount > u128::MAX - bt {
            return Err(TransferError::BalanceOverflow);
        }
        let d1 = clone_bytes(denom);
        self.set_balance(from, d1, bf - amount);
        let d2 = clone_bytes(denom);
        self.set_balance(to, d2, bt + amount);
        Ok(())
    }

    /// Takes a snapshot of every balance; a later
    /// [`rollback`](Bank::rollback) restores them.
    pub fn begin(&mut self)
        requires
            old(self).wf(),
        ensures
            final(self).wf(),
            final(self).depth() == old(self).depth() + 1,
            forall|a: usize, d: Seq<u8>| #[trigger] final(self).bal(a, d) == old(self).bal(a, d),
            forall|d: Seq<u8>| #[trigger] final(self).total(d) == old(self).total(d),
            forall|i: int|
                0 <= i < old(self).depth() ==> #[trigger] final(self).snaps_rep()[i] == old(
                    self,
                ).snaps_rep()[i],
            forall|a: usize, d: Seq<u8>| #[trigger]
                final(self).snap_bal(old(self).depth() as int, a, d) == old(self).bal(a, d),
            forall|d: Seq<u8>| #[trigger]
                final(self).snap_total(old(self).depth() as int, d) == old(self).total(d),
    {
        let mut copy: Vec<BalanceEntry> = Vec::new();
        let mut i: usize = 0;
        while i < self.entries.len()
            invariant
                i <= self.entries@.len(),
                copy@.len() == i,
                forall|j: int|
                    0 <= j < i ==> (#[trigger] copy@[j]).address == self.entries@[j].address
                        && copy@[j].denom@ == self.entries@[j].denom@ && copy@[j].amount
                        == self.entries@[j].amount,
        decreases self.entries@.len() - i,
        {
            let e = &self.entries[i];
            let denom = clone_bytes(&e.denom);
            copy.push(BalanceEntry { address: e.address, denom, amount: e.amount });
            i = i + 1;
        }
        proof {
            lemma_entries_equiv(self.entries@, copy@);
        }
        self.snaps.push(copy);
    }

    /// Discards the newest snapshot, keeping the current balances.
    pub fn commit(&mut self)
        requires
            old(self).wf(),
            old(self).depth() > 0,
        ensures
            final(self).wf(),
            final(self).depth() == old(self).depth() - 1,
            final(self).snaps_rep() == old(self).snaps_rep().drop_last(),
            forall|a: usize, d: Seq<u8>| #[trigger] final(self).bal(a, d) == old(self).bal(a, d),
            forall|d: Seq<u8>| #[trigger] final(self).total(d) == old(self).total(d),
    {
        let _ = self.snaps.pop();
    }

    /// Restores every balance to the newest snapshot and discards it.
    pub fn rollback(&mut self)
        requires
            old(self).wf(),
            old(self).depth() > 0,
        ensures
            final(self).wf(),
            final(self).depth() == old(self).depth() - 1,
            final(self).snaps_rep() == old(self).snaps_rep().drop_last(),
            forall|a: usize, d: Seq<u8>| #[trigger]
                final(self).bal(a, d) == old(self).snap_bal(old(self).depth() - 1, a, d),
            forall|d: Seq<u8>| #[trigger]
                final(self).total(d) == old(self).snap_total(old(self).depth() - 1, d),
    {
        let top = self.snaps.pop().unwrap();
        self.entries = top;
    }
}

/// Banks holding the same snapshots agree on every snapshot reading.
pub proof fn lemma_snaps_agree(b1: Bank, b2: Bank)
    requires
        b1.snaps_rep() == b2.snaps_rep(),
    ensures
        b1.depth() == b2.depth(),
        forall|i: int, a: usize, d: Seq<u8>| #[trigger] b2.snap_bal(i, a, d) == b1.snap_bal(i, a, d),
        forall|i: int, d: Seq<u8>| #[trigger] b2.snap_total(i, d) == b1.snap_total(i, d),
{
}

/// When the rows are unique and row `i` binds the pair, the pair's amount is
/// that row's.
pub proof fn lemma_bal_at_index(s: Seq<BalanceEntry>, i: int)
    requires
        entries_unique(s),
        0 <= i < s.len(),
    ensures
        bal_in(s, s[i].address, s[i].denom@) == s[i].amount,
    decreases s.len(),
{
    if i == s.len() - 1 {
    } else {
        assert(!entry_matches(s.last(), s[i].address, s[i].denom@));
        assert(entries_unique(s.drop_last()));
        assert(s.drop_last()[i] == s[i]);
        lemma_bal_at_index(s.drop_last(), i);
    }
}

} // verus!
