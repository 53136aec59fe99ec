//! Key-value storage with scoped snapshot, commit and rollback.
//!
//! A [`RevertableStorage`] wraps a [`Storage`] with nested transaction
//! scopes, one per call frame.  Within the open scope, the first touch of a
//! key records the key's prior value once; [`rollback`](RevertableStorage::rollback)
//! replays those records to restore exactly the map that was live at
//! [`begin`](RevertableStorage::begin), while [`commit`](RevertableStorage::commit)
//! keeps the changes and folds the scope's records into the enclosing scope,
//! so that the enclosing scope can still be rolled back to its own start.

use vstd::prelude::*;
use vstd::map::*;
use crate::storage::{Storage, clone_bytes, bytes_eq};

verus! {

/// The prior value of a touched key: the bytes it held, or `None` when the
/// key was absent when first touched.
pub struct LogEntry {
    pub key: Vec<u8>,
    pub prior: Option<Vec<u8>>,
}

/// A byte option, as a mathematical option of byte sequences.
pub open spec fn opt_bytes_view(o: Option<Vec<u8>>) -> Option<Seq<u8>> {
    match o {
        Some(v) => Some(v@),
        None => None,
    }
}

/// The map a snapshot log denotes: each touched key bound to its prior value
/// (or to `None` when it was absent).
pub open spec fn lmap(s: Seq<LogEntry>) -> Map<Seq<u8>, Option<Seq<u8>>>
    decreases s.len(),
{
    if s.len() == 0 {
        Map::empty()
    } else {
        lmap(s.drop_last()).insert(s.last().key@, opt_bytes_view(s.last().prior))
    }
}

/// Every key is recorded at most once in the log.
pub open spec fn log_unique(s: Seq<LogEntry>) -> bool {
    forall|i: int, j: int| 0 <= i < j < s.len() ==> (#[trigger] s[i]).key@ != (#[trigger] s[j]).key@
}

/// The map obtained by replaying a snapshot log over a live map: recorded
/// keys take their recorded prior value (absent when the record is `None`),
/// all other keys keep their live binding.
pub open spec fn restore(
    m: Map<Seq<u8>, Seq<u8>>,
    log: Map<Seq<u8>, Option<Seq<u8>>>,
) -> Map<Seq<u8>, Seq<u8>> {
    Map::new(
        |k: Seq<u8>|
            if log.contains_key(k) {
                log[k] is Some
            } else {
                m.contains_key(k)
            },
        |k: Seq<u8>|
            if log.contains_key(k) {
                log[k].unwrap()
            } else {
                m[k]
            },
    )
}

/// A key is recorded in the log exactly when some entry carries it.
pub proof fn lemma_lmap_contains(s: Seq<LogEntry>)
    ensures
        forall|k: Seq<u8>| #[trigger]
            lmap(s).contains_key(k) <==> (exists|i: int| 0 <= i < s.len() && s[i].key@ == k),
    decreases s.len(),
{
    if s.len() > 0 {
        lemma_lmap_contains(s.drop_last());
        let dl = s.drop_last();
        assert forall|k: Seq<u8>| #[trigger]
            lmap(s).contains_key(k) <==> (exists|i: int| 0 <= i < s.len() && s[i].key@ == k) by {
            if lmap(s).contains_key(k) {
                if k == s.last().key@ {
                    assert(s[s.len() - 1].key@ == k);
                } else {
                    assert(lmap(dl).contains_key(k));
                    let i = choose|i: int| 0 <= i < dl.len() && dl[i].key@ == k;
                    assert(dl[i] == s[i]);
                    assert(s[i].key@ == k);
                }
            }
            if exists|i: int| 0 <= i < s.len() && s[i].key@ == k {
                let i = choose|i: int| 0 <= i < s.len() && s[i].key@ == k;
                if i < s.len() - 1 {
                    assert(dl[i] == s[i]);
                    assert(dl[i].key@ == k);
                    assert(exists|j: int| 0 <= j < dl.len() && dl[j].key@ == k);
                    assert(lmap(dl).contains_key(k));
                    assert(lmap(s).contains_key(k));
                } else {
                    assert(k == s.last().key@);
                    assert(lmap(s).contains_key(k));
                }
            }
        }
    }
}

/// Key-value storage whose mutations within a scope can be rolled back to
/// the state the scope was opened at.  Scopes nest, one per call frame, and
/// close in LIFO order.
pub struct RevertableStorage {
    store: Storage,
    logs: Vec<Vec<LogEntry>>,
    saved: Ghost<Seq<Map<Seq<u8>, Seq<u8>>>>,
}

impl RevertableStorage {
    /// The map currently live, as reads see it.
    pub closed spec fn live(self) -> Map<Seq<u8>, Seq<u8>> {
        self.store.live()
    }

    /// The underlying store, byte for byte.
    pub closed spec fn backing(self) -> Storage {
        self.store
    }

    /// How many scopes are open.
    pub closed spec fn depth(self) -> nat {
        self.logs@.len()
    }

    /// The maps that were live when each open scope began, oldest first.
    pub closed spec fn saved(self) -> Seq<Map<Seq<u8>, Seq<u8>>> {
        self.saved@
    }

    /// The map live before the outermost open scope began; the live map
    /// itself when no scope is open.  Rolling every scope back restores it.
    pub open spec fn base(self) -> Map<Seq<u8>, Seq<u8>> {
        if self.saved().len() > 0 {
            self.saved()[0]
        } else {
            self.live()
        }
    }

    /// The snapshot above scope `i`: what a rollback of scope `i` must meet
    /// once every scope inside it has closed.
    pub closed spec fn level_above(self, i: int) -> Map<Seq<u8>, Seq<u8>> {
        if i == self.logs@.len() - 1 {
            self.live()
        } else {
            self.saved@[i + 1]
        }
    }

    /// Scope `i` is consistent: its log records each key once, and replaying
    /// it over the level above restores the map saved at its `begin`.
    pub closed spec fn scope_ok(self, i: int) -> bool {
        &&& log_unique(self.logs@[i]@)
        &&& self.saved@[i] == restore(self.level_above(i), lmap(self.logs@[i]@))
    }

    /// Well-formedness: every open scope is consistent.
    pub closed spec fn wf(self) -> bool {
        &&& self.saved@.len() == self.logs@.len()
        &&& forall|i: int| 0 <= i < self.logs@.len() ==> #[trigger] self.scope_ok(i)
    }

    /// An empty store with no open scope.
    pub fn new() -> (r: RevertableStorage)
        ensures
            r.wf(),
            r.depth() == 0,
            r.live() == Map::<Seq<u8>, Seq<u8>>::empty(),
    {
        RevertableStorage { store: Storage::new(), logs: Vec::new(), saved: Ghost(Seq::empty()) }
    }

    /// Opens a new scope.  The live map is unchanged; rolling the scope back
    /// will restore the map live now.
    pub fn begin(&mut self)
        requires
            old(self).wf(),
        ensures
            final(self).wf(),
            final(self).live() == old(self).live(),
            final(self).backing() == old(self).backing(),
            final(self).depth() == old(self).depth() + 1,
            final(self).saved() == old(self).saved().push(old(self).live()),
    {
        self.logs.push(Vec::new());
        proof {
            self.saved@ = self.saved@.push(self.store.live());
            let t = self.logs@.len() - 1;
            assert(lmap(self.logs@[t]@) =~= Map::<Seq<u8>, Option<Seq<u8>>>::empty());
            assert_maps_equal!(
                self.saved@[t],
                restore(self.level_above(t), lmap(self.logs@[t]@))
            );
            assert(self.scope_ok(t));
            assert forall|i: int| 0 <= i < self.logs@.len() implies #[trigger] self.scope_ok(i) by {
                if i < t {
                    assert(old(self).scope_ok(i));
                    assert(self.logs@[i] == old(self).logs@[i]);
                    assert(self.level_above(i) == old(self).level_above(i));
                }
            }
        }
    }

    /// Reads a key from the live map.
    pub fn get(&self, key: &Vec<u8>) -> (r: Option<Vec<u8>>)
        ensures
            match r {
                Some(v) => self.live().contains_key(key@) && v@ == self.live()[key@],
                None => !self.live().contains_key(key@),
            },
    {
        self.store.get(key)
    }

    /// Binds the key to the value in the live map.  The key's prior value is
    /// recorded in the open scope on first touch, so the scope can be rolled
    /// back; open scopes and their saved snapshots are unaffected.
    pub fn set(&mut self, key: Vec<u8>, value: Vec<u8>)
        requires
            old(self).wf(),
            old(self).depth() > 0,
        ensures
            final(self).wf(),
            final(self).live() == old(self).live().insert(key@, value@),
            final(self).depth() == old(self).depth(),
            final(self).saved() == old(self).saved(),
    {
        self.touch(&key);
        let ghost mid = *self;
        self.store.set(key, value);
        proof {
            self.lemma_scopes_after_write(mid, key@);
        }
    }

    /// Deletes the key from the live map, recording its prior value in the
    /// open scope on first touch, as [`set`](RevertableStorage::set) does.
    pub fn remove(&mut self, key: Vec<u8>)
        requires
            old(self).wf(),
            old(self).depth() > 0,
        ensures
            final(self).wf(),
            final(self).live() == old(self).live().remove(key@),
            final(self).depth() == old(self).depth(),
            final(self).saved() == old(self).saved(),
    {
        self.touch(&key);
        let ghost mid = *self;
        self.store.remove(key);
        proof {
            self.lemma_scopes_after_write(mid, key@);
        }
    }

    /// Records the key's prior value in the open scope, unless the scope has
    /// already touched it.
    fn touch(&mut self, key: &Vec<u8>)
        requires
            old(self).wf(),
            old(self).depth() > 0,
        ensures
            final(self).wf(),
            final(self).live() == old(self).live(),
            final(self).backing() == old(self).backing(),
            final(self).depth() == old(self).depth(),
            final(self).saved() == old(self).saved(),
            lmap(final(self).top_log()).contains_key(key@),
    {
        let ghost pre = *self;
        let mut top = self.logs.pop().unwrap();
        let ghost top0 = top@;
        if !log_contains(&top, key) {
            let prior = self.store.get(key);
            let kc = clone_bytes(key);
            proof {
                lemma_lmap_contains(top0);
            }
            top.push(LogEntry { key: kc, prior });
            proof {
                assert(top@.drop_last() == top0);
            }
        }
        self.logs.push(top);
        proof {
            let t = self.logs@.len() - 1;
            assert(self.logs@ =~= pre.logs@.update(t, self.logs@[t]));
            assert(pre.scope_ok(t));
            if !lmap(top0).contains_key(key@) {
                let pv = opt_bytes_view(top@.last().prior);
                assert(lmap(self.logs@[t]@) == lmap(top0).insert(key@, pv));
                assert(pv == lookup(self.store.live(), key@));
                lemma_lmap_contains(top0);
                assert(log_unique(self.logs@[t]@));
                assert_maps_equal!(
                    self.saved@[t],
                    restore(self.level_above(t), lmap(self.logs@[t]@)),
                    k => {
                        assert(pre.saved@[t] == restore(pre.level_above(t), lmap(pre.logs@[t]@)));
                    }
                );
            } else {
                assert(self.logs@[t]@ == top0);
            }
            assert(self.scope_ok(t));
            assert forall|i: int| 0 <= i < self.logs@.len() implies #[trigger] self.scope_ok(i) by {
                if i < t {
                    assert(pre.scope_ok(i));
                    assert(self.logs@[i] == pre.logs@[i]);
                    assert(self.level_above(i) == pre.level_above(i));
                }
            }
        }
    }

    /// The open scope's log.
    pub closed spec fn top_log(self) -> Seq<LogEntry> {
        self.logs@.last()@
    }

    /// Every scope is still consistent after one live write to a key that
    /// the open scope has already recorded.
    proof fn lemma_scopes_after_write(&self, mid: Self, key: Seq<u8>)
        requires
            mid.wf(),
            mid.depth() > 0,
            lmap(mid.top_log()).contains_key(key),
            self.logs@ == mid.logs@,
            self.saved@ == mid.saved@,
            forall|k: Seq<u8>|
                k != key ==> #[trigger] self.store.live().contains_key(k)
                    == mid.store.live().contains_key(k),
            forall|k: Seq<u8>|
                k != key && mid.store.live().contains_key(k) ==> #[trigger] self.store.live()[k]
                    == mid.store.live()[k],
        ensures
            self.wf(),
    {
        let t = self.logs@.len() - 1;
        assert(mid.scope_ok(t));
        assert(self.logs@[t]@ == mid.top_log());
        assert_maps_equal!(
            self.saved@[t],
            restore(self.level_above(t), lmap(self.logs@[t]@)),
            k => {
                assert(mid.saved@[t] == restore(mid.level_above(t), lmap(mid.logs@[t]@)));
                if !lmap(self.logs@[t]@).contains_key(k) {
                    assert(k != key);
                }
            }
        );
        assert(self.scope_ok(t));
        assert forall|i: int| 0 <= i < self.logs@.len() implies #[trigger] self.scope_ok(i) by {
            if i < t {
                assert(mid.scope_ok(i));
                assert(self.logs@[i] == mid.logs@[i]);
                assert(self.level_above(i) == mid.level_above(i));
            }
        }
    }

    /// Closes the open scope and keeps its changes.  The live map is
    /// untouched — the underlying store is byte-identical to before — and the
    /// changes become visible to the enclosing scope, whose own records are
    /// extended so that it still rolls back to its own start.
    pub fn commit(&mut self)
        requires
            old(self).wf(),
            old(self).depth() > 0,
        ensures
            final(self).wf(),
            final(self).live() == old(self).live(),
            final(self).backing() == old(self).backing(),
            final(self).depth() == old(self).depth() - 1,
            final(self).saved() == old(self).saved().drop_last(),
    {
        let ghost pre = *self;
        let popped = self.logs.pop().unwrap();
        proof {
            self.saved@ = self.saved@.drop_last();
            assert(pre.scope_ok(pre.logs@.len() - 1));
        }
        let ghost b = lmap(popped@);
        if self.logs.len() > 0 {
            proof {
                assert(pre.scope_ok(pre.logs@.len() - 2));
            }
            let mut encl = self.logs.pop().unwrap();
            let ghost encl0 = encl@;
            let ghost a = lmap(encl0);
            proof {
                assert(popped@.take(0) =~= Seq::<LogEntry>::empty());
                assert_maps_equal!(lmap(encl@), merge_map(a, lmap(popped@.take(0))));
            }
            let mut j: usize = 0;
            while j < popped.len()
                invariant
                    j <= popped@.len(),
                    a == lmap(encl0),
                    log_unique(encl@),
                    log_unique(popped@),
                    lmap(encl@) == merge_map(a, lmap(popped@.take(j as int))),
                decreases popped@.len() - j,
            {
                let ghost enclp = encl@;
                let ghost u = popped@[j as int].key@;
                let ghost pvj = opt_bytes_view(popped@[j as int].prior);
                proof {
                    assert(popped@.take(j + 1).drop_last() =~= popped@.take(j as int));
                    assert(popped@.take(j + 1).last() == popped@[j as int]);
                    assert(lmap(popped@.take(j + 1)) == lmap(popped@.take(j as int)).insert(
                        u,
                        pvj,
                    ));
                    assert forall|i: int| 0 <= i < popped@.take(j as int).len() implies (
                    #[trigger] popped@.take(j as int)[i]).key@ != u by {
                        assert(popped@.take(j as int)[i] == popped@[i]);
                        assert(popped@[i].key@ != popped@[j as int].key@);
                    }
                    lemma_lmap_contains(popped@.take(j as int));
                    assert(!lmap(popped@.take(j as int)).contains_key(u));
                    lemma_lmap_contains(enclp);
                }
                let recorded = log_contains(&encl, &popped[j].key);
                if !recorded {
                    let ke = clone_bytes(&popped[j].key);
                    let pe = clone_opt_bytes(&popped[j].prior);
                    encl.push(LogEntry { key: ke, prior: pe });
                    proof {
                        assert(encl@.drop_last() == enclp);
                        assert(lmap(encl@) == lmap(enclp).insert(u, pvj));
                        assert forall|i1: int, i2: int| 0 <= i1 < i2 < encl@.len() implies (
                        #[trigger] encl@[i1]).key@ != (#[trigger] encl@[i2]).key@ by {
                            if i2 == encl@.len() - 1 {
                                assert(encl@[i1] == enclp[i1]);
                            } else {
                                assert(encl@[i1] == enclp[i1]);
                                assert(encl@[i2] == enclp[i2]);
                            }
                        }
                    }
                }
                proof {
                    assert_maps_equal!(
                        lmap(encl@),
                        merge_map(a, lmap(popped@.take(j + 1))),
                        k => {
                            if k == u {
                                if lmap(enclp).contains_key(u) {
                                    assert(a.contains_key(u) || lmap(
                                        popped@.take(j as int),
                                    ).contains_key(u));
                                    assert(a.contains_key(u));
                                }
                            }
                        }
                    );
                }
                j = j + 1;
            }
            proof {
                assert(popped@.take(popped@.len() as int) =~= popped@);
            }
            self.logs.push(encl);
            proof {
                let t = self.logs@.len() - 1;
                assert(self.logs@[t]@ == encl@);
                assert(pre.saved@[t + 1] == restore(pre.live(), b));
                assert(pre.saved@[t] == restore(pre.saved@[t + 1], a));
                assert_maps_equal!(
                    self.saved@[t],
                    restore(self.level_above(t), lmap(self.logs@[t]@)),
                    k => {
                        if a.contains_key(k) {
                        } else if b.contains_key(k) {
                        }
                    }
                );
                assert(self.scope_ok(t));
                assert forall|i: int| 0 <= i < self.logs@.len() implies #[trigger] self.scope_ok(
                    i,
                ) by {
                    if i < t {
                        assert(pre.scope_ok(i));
                        assert(self.logs@[i] == pre.logs@[i]);
                        assert(self.level_above(i) == pre.level_above(i));
                    }
                }
            }
        }
    }

    /// Closes the open scope and undoes its changes: replays the recorded
    /// prior values so that the live map is exactly the one saved when the
    /// scope began.  A scope that made no writes rolls back as a no-op.
    pub fn rollback(&mut self)
        requires
            old(self).wf(),
            old(self).depth() > 0,
        ensures
            final(self).wf(),
            final(self).depth() == old(self).depth() - 1,
            final(self).saved() == old(self).saved().drop_last(),
            final(self).live() == old(self).saved().last(),
    {
        let ghost pre = *self;
        let mut log = self.logs.pop().unwrap();
        let ghost target = pre.saved@.last();
        proof {
            self.saved@ = self.saved@.drop_last();
            assert(pre.scope_ok(pre.logs@.len() - 1));
            assert(log_unique(log@));
            assert(restore(self.store.live(), lmap(log@)) == target);
        }
        while log.len() > 0
            invariant
                log_unique(log@),
                restore(self.store.live(), lmap(log@)) == target,
                self.logs@ == pre.logs@.drop_last(),
                self.saved@ == pre.saved@.drop_last(),
            decreases log@.len(),
        {
            let ghost logp = log@;
            let ghost lv = self.store.live();
            let e = log.pop().unwrap();
            let ghost rest = log@;
            let ghost k = e.key@;
            let ghost pv = opt_bytes_view(e.prior);
            proof {
                assert(lmap(logp) == lmap(rest).insert(k, pv));
                assert forall|i: int| 0 <= i < rest.len() implies (#[trigger] rest[i]).key@
                    != k by {
                    assert(rest[i] == logp[i]);
                    assert(logp[i].key@ != logp[logp.len() - 1].key@);
                }
                lemma_lmap_contains(rest);
                assert(!lmap(rest).contains_key(k));
            }
            let LogEntry { key, prior } = e;
            match prior {
                Some(v) => self.store.set(key, v),
                None => self.store.remove(key),
            }
            proof {
                assert_maps_equal!(
                    restore(self.store.live(), lmap(rest)),
                    target,
                    kk => {
                        assert(restore(lv, lmap(logp)) == target);
                    }
                );
            }
        }
        proof {
            assert(lmap(log@) =~= Map::<Seq<u8>, Option<Seq<u8>>>::empty());
            assert_maps_equal!(self.store.live(), target);
            let t = self.logs@.len() - 1;
            assert forall|i: int| 0 <= i < self.logs@.len() implies #[trigger] self.scope_ok(i) by {
                assert(pre.scope_ok(i));
                assert(self.logs@[i] == pre.logs@[i]);
                if i == t {
                    assert(self.level_above(i) == target);
                    assert(pre.level_above(i) == pre.saved@[i + 1]);
                } else {
                    assert(self.level_above(i) == pre.level_above(i));
                }
            }
        }
    }

    /// Closes every open scope, keeping all changes.  The live map and the
    /// underlying store are untouched.
    pub fn commit_all(&mut self)
        requires
            old(self).wf(),
        ensures
            final(self).wf(),
            final(self).depth() == 0,
            final(self).live() == old(self).live(),
            final(self).backing() == old(self).backing(),
    {
        let ghost orig = *self;
        while self.depth_count() > 0
            invariant
                self.wf(),
                self.live() == orig.live(),
                self.backing() == orig.backing(),
            decreases self.depth(),
        {
            self.commit();
        }
    }

    /// Closes every open scope, undoing all their changes: the live map
    /// returns to what it was before the outermost open scope began.
    pub fn rollback_all(&mut self)
        requires
            old(self).wf(),
        ensures
            final(self).wf(),
            final(self).depth() == 0,
            final(self).live() == old(self).base(),
    {
        let ghost orig = *self;
        while self.depth_count() > 0
            invariant
                self.wf(),
                self.base() == orig.base(),
            decreases self.depth(),
        {
            self.rollback();
        }
    }

    /// With no scope open, the baseline is the live map itself.
    pub proof fn lemma_base_closed(self)
        requires
            self.wf(),
            self.depth() == 0,
        ensures
            self.base() == self.live(),
            self.saved().len() == 0,
    {
    }

    /// How many scopes are open, as a run-time count.
    pub fn depth_count(&self) -> (r: usize)
        ensures
            r == self.depth(),
    {
        self.logs.len()
    }
}

/// The records of an inner scope folded into those of its enclosing scope:
/// the enclosing scope's records win, and keys only the inner scope touched
/// keep the inner record.
pub open spec fn merge_map(
    a: Map<Seq<u8>, Option<Seq<u8>>>,
    b: Map<Seq<u8>, Option<Seq<u8>>>,
) -> Map<Seq<u8>, Option<Seq<u8>>> {
    Map::new(
        |k: Seq<u8>| a.contains_key(k) || b.contains_key(k),
        |k: Seq<u8>|
            if a.contains_key(k) {
                a[k]
            } else {
                b[k]
            },
    )
}

/// Copies an optional byte vector.
pub fn clone_opt_bytes(o: &Option<Vec<u8>>) -> (r: Option<Vec<u8>>)
    ensures
        opt_bytes_view(r) == opt_bytes_view(*o),
{
    match o {
        Some(v) => Some(clone_bytes(v)),
        None => None,
    }
}

/// The binding of a key in a map, as an option.
pub open spec fn lookup(m: Map<Seq<u8>, Seq<u8>>, k: Seq<u8>) -> Option<Seq<u8>> {
    if m.contains_key(k) {
        Some(m[k])
    } else {
        None
    }
}

/// True exactly when the log records the key.
pub fn log_contains(log: &Vec<LogEntry>, key: &Vec<u8>) -> (r: bool)
    ensures
        r == lmap(log@).contains_key(key@),
{
    proof {
        lemma_lmap_contains(log@);
    }
    let mut i: usize = 0;
    while i < log.len()
        invariant
            i <= log.len(),
            forall|j: int| 0 <= j < i ==> (#[trigger] log@[j]).key@ != key@,
        decreases log.len() - i,
    {
        if bytes_eq(&log[i].key, key) {
            proof {
                lemma_lmap_contains(log@);
            }
            return true;
        }
        i = i + 1;
    }
    false
}

} // verus!
