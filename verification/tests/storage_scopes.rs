//! Tests of the storage layers: the plain map and the scoped snapshots.

use ensemble::revertable::RevertableStorage;
use ensemble::storage::Storage;

#[test]
fn plain_storage_set_get_remove() {
    let mut st = Storage::new();
    assert_eq!(st.get(&b"a".to_vec()), None);
    st.set(b"a".to_vec(), b"1".to_vec());
    st.set(b"b".to_vec(), b"2".to_vec());
    assert_eq!(st.get(&b"a".to_vec()), Some(b"1".to_vec()));
    assert_eq!(st.get(&b"b".to_vec()), Some(b"2".to_vec()));
    st.set(b"a".to_vec(), b"3".to_vec());
    assert_eq!(st.get(&b"a".to_vec()), Some(b"3".to_vec()));
    st.remove(b"a".to_vec());
    assert_eq!(st.get(&b"a".to_vec()), None);
    assert_eq!(st.get(&b"b".to_vec()), Some(b"2".to_vec()));
}

#[test]
fn rollback_restores_state_at_begin() {
    let mut st = RevertableStorage::new();
    st.begin();
    st.set(b"k".to_vec(), b"old".to_vec());
    st.commit();

    st.begin();
    st.set(b"k".to_vec(), b"new".to_vec());
    st.set(b"k".to_vec(), b"newer".to_vec());
    st.remove(b"k".to_vec());
    st.set(b"fresh".to_vec(), b"x".to_vec());
    st.rollback();

    assert_eq!(st.get(&b"k".to_vec()), Some(b"old".to_vec()));
    assert_eq!(st.get(&b"fresh".to_vec()), None);
}

#[test]
fn commit_with_no_writes_is_identity() {
    let mut st = RevertableStorage::new();
    st.begin();
    st.set(b"k".to_vec(), b"v".to_vec());
    st.commit();

    st.begin();
    st.commit();
    assert_eq!(st.get(&b"k".to_vec()), Some(b"v".to_vec()));

    // A rollback of a scope with no writes is a no-op too.
    st.begin();
    st.rollback();
    assert_eq!(st.get(&b"k".to_vec()), Some(b"v".to_vec()));
}

#[test]
fn reentrant_scopes_on_one_storage() {
    let mut st = RevertableStorage::new();
    // Outer frame writes, inner frame on the same storage fails: the inner
    // rollback restores the outer frame's value.
    st.begin();
    st.set(b"k".to_vec(), b"outer".to_vec());
    st.begin();
    st.set(b"k".to_vec(), b"inner".to_vec());
    assert_eq!(st.get(&b"k".to_vec()), Some(b"inner".to_vec()));
    st.rollback();
    assert_eq!(st.get(&b"k".to_vec()), Some(b"outer".to_vec()));

    // A succeeding inner frame's write stays visible to the outer frame.
    st.begin();
    st.set(b"k".to_vec(), b"inner2".to_vec());
    st.commit();
    assert_eq!(st.get(&b"k".to_vec()), Some(b"inner2".to_vec()));

    // Unwinding the outer frame still restores the very first state.
    st.rollback();
    assert_eq!(st.get(&b"k".to_vec()), None);
}

#[test]
fn rollback_all_unwinds_every_scope() {
    let mut st = RevertableStorage::new();
    st.begin();
    st.set(b"a".to_vec(), b"1".to_vec());
    st.begin();
    st.set(b"b".to_vec(), b"2".to_vec());
    st.begin();
    st.remove(b"a".to_vec());
    st.rollback_all();
    assert_eq!(st.get(&b"a".to_vec()), None);
    assert_eq!(st.get(&b"b".to_vec()), None);
    assert_eq!(st.depth_count(), 0);
}

#[test]
fn commit_all_keeps_every_write() {
    let mut st = RevertableStorage::new();
    st.begin();
    st.set(b"a".to_vec(), b"1".to_vec());
    st.begin();
    st.set(b"b".to_vec(), b"2".to_vec());
    st.commit_all();
    assert_eq!(st.get(&b"a".to_vec()), Some(b"1".to_vec()));
    assert_eq!(st.get(&b"b".to_vec()), Some(b"2".to_vec()));
    assert_eq!(st.depth_count(), 0);
}
