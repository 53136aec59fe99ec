//! Scenario tests driving whole call trees through the engine.

use ensemble::bank::Coin;
use ensemble::ensemble::{Ensemble, SubMsg};
use ensemble::error::EnsembleError;
use ensemble::scripted::{Action, Script, ScriptedContract};

fn quiet_contract() -> ScriptedContract {
    ScriptedContract {
        on_init: Script::quiet(),
        on_handle: Script::quiet(),
        query_fail_code: None,
    }
}

/// Contract A: its handle writes "k" -> "v1" and instantiates a contract of
/// tag 2, sending it 30 "u".
fn contract_a() -> ScriptedContract {
    ScriptedContract {
        on_init: Script::quiet(),
        on_handle: Script {
            actions: vec![
                Action::SetKey { key: b"k".to_vec(), value: b"v1".to_vec() },
                Action::Emit {
                    message: SubMsg::Instantiate {
                        code_tag: 2,
                        msg: vec![],
                        funds: vec![Coin { denom: b"u".to_vec(), amount: 30 }],
                    },
                },
            ],
            fail_code: None,
        },
        query_fail_code: None,
    }
}

#[test]
fn scenario_transfer_and_write_commits() {
    let mut ens: Ensemble<ScriptedContract> = Ensemble::new(b"test-chain".to_vec());
    ens.register(1, contract_a()).unwrap();
    ens.register(2, quiet_contract()).unwrap();
    ens.set_balance(99, b"u".to_vec(), 100);

    // Instantiate A with 100 "u".
    let a = ens
        .instantiate(1, vec![], 99, vec![Coin { denom: b"u".to_vec(), amount: 100 }])
        .unwrap();
    assert_eq!(a, 0);
    assert_eq!(ens.balance(a, &b"u".to_vec()), 100);

    // A's handle transfers 30 "u" to newly instantiated B and writes "k".
    ens.execute(a, vec![], 99, vec![]).unwrap();
    let b = 1usize;
    assert_eq!(ens.balance(a, &b"u".to_vec()), 70);
    assert_eq!(ens.balance(b, &b"u".to_vec()), 30);
    let stored = ens.storage_read(a, &b"k".to_vec()).unwrap();
    assert_eq!(stored, Some(b"v1".to_vec()));
}

#[test]
fn scenario_failed_init_rolls_back_everything() {
    let mut ens: Ensemble<ScriptedContract> = Ensemble::new(b"test-chain".to_vec());
    ens.register(1, contract_a()).unwrap();
    // B's init fails this time.
    ens.register(
        2,
        ScriptedContract {
            on_init: Script { actions: vec![], fail_code: Some(7) },
            on_handle: Script::quiet(),
            query_fail_code: None,
        },
    )
    .unwrap();
    ens.set_balance(99, b"u".to_vec(), 100);
    let a = ens
        .instantiate(1, vec![], 99, vec![Coin { denom: b"u".to_vec(), amount: 100 }])
        .unwrap();

    let r = ens.execute(a, vec![], 99, vec![]);
    assert!(matches!(r, Err(EnsembleError::InitFailed { address: 1, .. })));

    // A keeps its 100, B is not reachable by address, and A's write of "k"
    // was rolled back.
    assert_eq!(ens.balance(a, &b"u".to_vec()), 100);
    assert!(matches!(
        ens.query(1, &vec![]),
        Err(EnsembleError::UnknownContract { address: 1 })
    ));
    assert_eq!(ens.storage_read(a, &b"k".to_vec()).unwrap(), None);
}

#[test]
fn scenario_query_unknown_address() {
    let mut ens: Ensemble<ScriptedContract> = Ensemble::new(b"test-chain".to_vec());
    ens.register(1, quiet_contract()).unwrap();
    ens.set_balance(5, b"u".to_vec(), 40);

    let r = ens.query(3, &b"anything".to_vec());
    assert!(matches!(r, Err(EnsembleError::UnknownContract { address: 3 })));
    // No state change.
    assert_eq!(ens.balance(5, &b"u".to_vec()), 40);
    assert_eq!(ens.contract_count(), 0);
}

#[test]
fn duplicate_registration_is_rejected() {
    let mut ens: Ensemble<ScriptedContract> = Ensemble::new(b"chain".to_vec());
    ens.register(1, quiet_contract()).unwrap();
    let r = ens.register(1, quiet_contract());
    assert!(matches!(r, Err(EnsembleError::DuplicateRegistration)));
    // A different tag is still fine.
    ens.register(2, quiet_contract()).unwrap();
}

#[test]
fn insufficient_funds_aborts_and_reverts() {
    let mut ens: Ensemble<ScriptedContract> = Ensemble::new(b"chain".to_vec());
    // The handler writes a key, then tries to send more than it holds.
    ens.register(
        1,
        ScriptedContract {
            on_init: Script::quiet(),
            on_handle: Script {
                actions: vec![
                    Action::SetKey { key: b"w".to_vec(), value: b"x".to_vec() },
                    Action::Emit {
                        message: SubMsg::Transfer {
                            to: 9,
                            denom: b"u".to_vec(),
                            amount: 1_000,
                        },
                    },
                ],
                fail_code: None,
            },
            query_fail_code: None,
        },
    )
    .unwrap();
    let a = ens.instantiate(1, vec![], 99, vec![]).unwrap();
    ens.set_balance(a, b"u".to_vec(), 10);

    let r = ens.execute(a, vec![], 99, vec![]);
    assert!(matches!(r, Err(EnsembleError::InsufficientFunds { .. })));
    assert_eq!(ens.balance(a, &b"u".to_vec()), 10);
    assert_eq!(ens.balance(9, &b"u".to_vec()), 0);
    assert_eq!(ens.storage_read(a, &b"w".to_vec()).unwrap(), None);
}

#[test]
fn handle_failure_surfaces_its_error() {
    let mut ens: Ensemble<ScriptedContract> = Ensemble::new(b"chain".to_vec());
    ens.register(
        1,
        ScriptedContract {
            on_init: Script::quiet(),
            on_handle: Script {
                actions: vec![Action::SetKey { key: b"k".to_vec(), value: b"v".to_vec() }],
                fail_code: Some(42),
            },
            query_fail_code: None,
        },
    )
    .unwrap();
    let a = ens.instantiate(1, vec![], 99, vec![]).unwrap();
    let r = ens.execute(a, vec![], 99, vec![]);
    match r {
        Err(EnsembleError::HandleFailed { address, error }) => {
            assert_eq!(address, a);
            assert_eq!(error.code, 42);
        }
        _ => panic!("expected HandleFailed"),
    }
    // The write before the failure was rolled back.
    assert_eq!(ens.storage_read(a, &b"k".to_vec()).unwrap(), None);
}

#[test]
fn unbounded_self_call_hits_depth_limit_and_reverts() {
    let mut ens: Ensemble<ScriptedContract> = Ensemble::new(b"chain".to_vec());
    // The contract at address 0 executes itself forever.
    ens.register(
        1,
        ScriptedContract {
            on_init: Script::quiet(),
            on_handle: Script {
                actions: vec![
                    Action::SetKey { key: b"n".to_vec(), value: b"seen".to_vec() },
                    Action::Emit {
                        message: SubMsg::Execute { address: 0, msg: vec![], funds: vec![] },
                    },
                ],
                fail_code: None,
            },
            query_fail_code: None,
        },
    )
    .unwrap();
    let a = ens.instantiate(1, vec![], 99, vec![]).unwrap();
    let r = ens.execute(a, vec![], 99, vec![]);
    assert!(matches!(r, Err(EnsembleError::CallDepthExceeded)));
    assert_eq!(ens.storage_read(a, &b"n".to_vec()).unwrap(), None);
}

#[test]
fn query_failure_is_wrapped() {
    let mut ens: Ensemble<ScriptedContract> = Ensemble::new(b"chain".to_vec());
    ens.register(
        1,
        ScriptedContract {
            on_init: Script::quiet(),
            on_handle: Script::quiet(),
            query_fail_code: Some(13),
        },
    )
    .unwrap();
    let a = ens.instantiate(1, vec![], 99, vec![]).unwrap();
    match ens.query(a, &vec![]) {
        Err(EnsembleError::QueryFailed { address, error }) => {
            assert_eq!(address, a);
            assert_eq!(error.code, 13);
        }
        _ => panic!("expected QueryFailed"),
    }
}

#[test]
fn queries_read_committed_storage() {
    let mut ens: Ensemble<ScriptedContract> = Ensemble::new(b"chain".to_vec());
    ens.register(
        1,
        ScriptedContract {
            on_init: Script {
                actions: vec![Action::SetKey { key: b"greeting".to_vec(), value: b"hi".to_vec() }],
                fail_code: None,
            },
            on_handle: Script::quiet(),
            query_fail_code: None,
        },
    )
    .unwrap();
    let a = ens.instantiate(1, vec![], 99, vec![]).unwrap();
    // The scripted query returns the stored value of the key in the message.
    assert_eq!(ens.query(a, &b"greeting".to_vec()).unwrap(), b"hi".to_vec());
    // An unset key reads as empty.
    assert_eq!(ens.query(a, &b"other".to_vec()).unwrap(), Vec::<u8>::new());
}

#[test]
fn conservation_across_call_trees() {
    let mut ens: Ensemble<ScriptedContract> = Ensemble::new(b"chain".to_vec());
    ens.register(1, contract_a()).unwrap();
    ens.register(2, quiet_contract()).unwrap();
    ens.set_balance(99, b"u".to_vec(), 100);
    let a = ens
        .instantiate(1, vec![], 99, vec![Coin { denom: b"u".to_vec(), amount: 60 }])
        .unwrap();
    ens.execute(a, vec![], 99, vec![]).unwrap();
    // 100 "u" were seeded; every transfer since conserved the total.
    let total = ens.balance(99, &b"u".to_vec())
        + ens.balance(0, &b"u".to_vec())
        + ens.balance(1, &b"u".to_vec());
    assert_eq!(total, 100);
}

#[test]
fn instantiate_unknown_tag_fails_cleanly() {
    let mut ens: Ensemble<ScriptedContract> = Ensemble::new(b"chain".to_vec());
    ens.register(1, quiet_contract()).unwrap();
    ens.set_balance(99, b"u".to_vec(), 50);
    let r = ens.instantiate(2, vec![], 99, vec![Coin { denom: b"u".to_vec(), amount: 50 }]);
    assert!(matches!(r, Err(EnsembleError::UnknownContract { .. })));
    assert_eq!(ens.contract_count(), 0);
    assert_eq!(ens.balance(99, &b"u".to_vec()), 50);
}

#[test]
fn advance_block_moves_the_clock() {
    let mut ens: Ensemble<ScriptedContract> = Ensemble::new(b"chain".to_vec());
    ens.advance_block(5, 30);
    ens.register(1, quiet_contract()).unwrap();
    let a = ens.instantiate(1, vec![], 99, vec![]).unwrap();
    assert_eq!(a, 0);
}
