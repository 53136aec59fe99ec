//! Plain key-value storage over byte keys and byte values.
//!
//! A [`Storage`] is owned by one contract instance.  Its meaning is the
//! finite map from key bytes to value bytes returned by [`Storage::live`].
//! The store is kept as a journal of writes (newest entry wins), so that
//! setting or removing a key never disturbs older entries.

use vstd::prelude::*;

verus! {

/// One recorded write: a value for the key, or `None` when the key was removed.
pub struct StorageEntry {
    pub key: Vec<u8>,
    pub value: Option<Vec<u8>>,
}

/// The map written by a journal of entries: later entries shadow earlier ones,
/// and an entry with no value deletes the key.
pub open spec fn map_of(s: Seq<StorageEntry>) -> Map<Seq<u8>, Seq<u8>>
    decreases s.len(),
{
    if s.len() == 0 {
        Map::empty()
    } else {
        match s.last().value {
            Some(v) => map_of(s.drop_last()).insert(s.last().key@, v@),
            None => map_of(s.drop_last()).remove(s.last().key@),
        }
    }
}

/// A key-value store: byte keys, byte values.
pub struct Storage {
    entries: Vec<StorageEntry>,
}

/// Copies a byte vector.
pub fn clone_bytes(v: &Vec<u8>) -> (r: Vec<u8>)
    ensures
        r@ == v@,
{
    let mut r: Vec<u8> = Vec::new();
    let mut i: usize = 0;
    while i < v.len()
        invariant
            i <= v.len(),
            r@ == v@.take(i as int),
        decreases v.len() - i,
    {
        r.push(v[i]);
        proof {
            assert(v@.take(i + 1 as int) == v@.take(i as int).push(v@[i as int]));
        }
        i = i + 1;
    }
    proof {
        assert(v@.take(v@.len() as int) == v@);
    }
    r
}

impl Storage {
    /// The map this store currently holds.
    pub closed spec fn live(self) -> Map<Seq<u8>, Seq<u8>> {
        map_of(self.entries@)
    }

    /// An empty store.
    pub fn new() -> (r: Storage)
        ensures
            r.live() == Map::<Seq<u8>, Seq<u8>>::empty(),
    {
        Storage { entries: Vec::new() }
    }

    /// Looks the key up in the live map; `None` when the key is absent.
    pub fn get(&self, key: &Vec<u8>) -> (r: Option<Vec<u8>>)
        ensures
            match r {
                Some(v) => self.live().contains_key(key@) && v@ == self.live()[key@],
                None => !self.live().contains_key(key@),
            },
    {
        let mut i: usize = self.entries.len();
        proof {
            assert(self.entries@.take(i as int) =~= self.entries@);
        }
        while i > 0
            invariant
                i <= self.entries.len(),
                map_of(self.entries@).contains_key(key@) == map_of(
                    self.entries@.take(i as int),
                ).contains_key(key@),
                map_of(self.entries@).contains_key(key@) ==> map_of(self.entries@)[key@] == map_of(
                    self.entries@.take(i as int),
                )[key@],
            decreases i,
        {
            proof {
                assert(self.entries@.take(i as int).drop_last() == self.entries@.take(i - 1));
                assert(self.entries@.take(i as int).last() == self.entries@[i - 1]);
            }
            let e = &self.entries[i - 1];
            if bytes_eq(&e.key, key) {
                match &e.value {
                    Some(v) => {
                        return Some(clone_bytes(v));
                    },
                    None => {
                        return None;
                    },
                }
            }
            i = i - 1;
        }
        proof {
            assert(self.entries@.take(0) =~= Seq::<StorageEntry>::empty());
        }
        None
    }

    /// Binds the key to the value in the live map.
    pub fn set(&mut self, key: Vec<u8>, value: Vec<u8>)
        ensures
            final(self).live() == old(self).live().insert(key@, value@),
    {
        let ghost pre = self.entries@;
        self.entries.push(StorageEntry { key, value: Some(value) });
        proof {
            assert(self.entries@.drop_last() == pre);
        }
    }

    /// Deletes the key from the live map.
    pub fn remove(&mut self, key: Vec<u8>)
        ensures
            final(self).live() == old(self).live().remove(key@),
    {
        let ghost pre = self.entries@;
        self.entries.push(StorageEntry { key, value: None });
        proof {
            assert(self.entries@.drop_last() == pre);
        }
    }
}

/// Compares two byte vectors for equality of their contents.
pub fn bytes_eq(a: &Vec<u8>, b: &Vec<u8>) -> (r: bool)
    ensures
        r == (a@ == b@),
{
    if a.len() != b.len() {
        return false;
    }
    let mut i: usize = 0;
    while i < a.len()
        invariant
            i <= a.len(),
            a@.len() == b@.len(),
            forall|j: int| 0 <= j < i ==> a@[j] == b@[j],
        decreases a.len() - i,
    {
        if a[i] != b[i] {
            return false;
        }
        i = i + 1;
    }
    proof {
        assert(a@ =~= b@);
    }
    true
}

} // verus!
