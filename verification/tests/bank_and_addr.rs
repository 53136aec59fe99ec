//! Tests of the ledger and of the address-conversion helpers.

use ensemble::addr::{
    Addr, Api, Binary, BoundedApi, CANONICAL_TOO_LONG, CanonicalAddr, Canonize, HUMAN_TOO_LONG,
    Humanize, MockApi, canonize_maybe_empty, humanize_maybe_empty,
};
use ensemble::bank::{Bank, TransferError};

#[test]
fn balances_default_to_zero() {
    let bank = Bank::new();
    assert_eq!(bank.balance(0, &b"u".to_vec()), 0);
    assert_eq!(bank.balance(7, &b"stake".to_vec()), 0);
}

#[test]
fn transfer_moves_and_conserves() {
    let mut bank = Bank::new();
    bank.set_balance(1, b"u".to_vec(), 100);
    bank.transfer(1, 2, &b"u".to_vec(), 30).unwrap();
    assert_eq!(bank.balance(1, &b"u".to_vec()), 70);
    assert_eq!(bank.balance(2, &b"u".to_vec()), 30);
    let total = bank.balance(1, &b"u".to_vec()) + bank.balance(2, &b"u".to_vec());
    assert_eq!(total, 100);
    // A second denomination is untouched.
    assert_eq!(bank.balance(1, &b"stake".to_vec()), 0);
}

#[test]
fn transfer_fails_when_short() {
    let mut bank = Bank::new();
    bank.set_balance(1, b"u".to_vec(), 10);
    let r = bank.transfer(1, 2, &b"u".to_vec(), 11);
    assert!(matches!(r, Err(TransferError::InsufficientFunds)));
    assert_eq!(bank.balance(1, &b"u".to_vec()), 10);
    assert_eq!(bank.balance(2, &b"u".to_vec()), 0);
}

#[test]
fn transfer_fails_on_overflow() {
    let mut bank = Bank::new();
    bank.set_balance(1, b"u".to_vec(), 50);
    bank.set_balance(2, b"u".to_vec(), u128::MAX - 10);
    let r = bank.transfer(1, 2, &b"u".to_vec(), 20);
    assert!(matches!(r, Err(TransferError::BalanceOverflow)));
    assert_eq!(bank.balance(1, &b"u".to_vec()), 50);
    assert_eq!(bank.balance(2, &b"u".to_vec()), u128::MAX - 10);
}

#[test]
fn self_transfer_checks_funds_but_changes_nothing() {
    let mut bank = Bank::new();
    bank.set_balance(3, b"u".to_vec(), 5);
    bank.transfer(3, 3, &b"u".to_vec(), 5).unwrap();
    assert_eq!(bank.balance(3, &b"u".to_vec()), 5);
    assert!(matches!(
        bank.transfer(3, 3, &b"u".to_vec(), 6),
        Err(TransferError::InsufficientFunds)
    ));
}

#[test]
fn bank_snapshots_roll_back_transfers() {
    let mut bank = Bank::new();
    bank.set_balance(1, b"u".to_vec(), 100);
    bank.begin();
    bank.transfer(1, 2, &b"u".to_vec(), 60).unwrap();
    assert_eq!(bank.balance(2, &b"u".to_vec()), 60);
    bank.rollback();
    assert_eq!(bank.balance(1, &b"u".to_vec()), 100);
    assert_eq!(bank.balance(2, &b"u".to_vec()), 0);
}

#[test]
fn canonize_skips_api_for_empty_addresses() {
    let api = MockApi;
    let empty = Addr(Vec::new());
    let c = canonize_maybe_empty(&api, &empty).unwrap();
    assert_eq!(c.0.0, Vec::<u8>::new());

    let canonical = CanonicalAddr(Binary(Vec::new()));
    let h = humanize_maybe_empty(&api, &canonical).unwrap();
    assert_eq!(h.0, Vec::<u8>::new());
}

#[test]
fn canonize_and_humanize_round_trip() {
    let api = MockApi;
    let addr = Addr(b"secret1abcd".to_vec());
    let c = addr.canonize(&api).unwrap();
    assert_eq!(c.0.0, b"secret1abcd".to_vec());
    let back = c.humanize(&api).unwrap();
    assert_eq!(back.0, b"secret1abcd".to_vec());
}

#[test]
fn conversion_lifts_over_vectors() {
    let api = MockApi;
    let addrs = vec![Addr(b"one".to_vec()), Addr(Vec::new()), Addr(b"two".to_vec())];
    let canon: Vec<CanonicalAddr> = addrs.canonize(&api).unwrap();
    assert_eq!(canon.len(), 3);
    assert_eq!(canon[0].0.0, b"one".to_vec());
    assert_eq!(canon[1].0.0, Vec::<u8>::new());
    assert_eq!(canon[2].0.0, b"two".to_vec());
    let humans: Vec<Addr> = canon.humanize(&api).unwrap();
    assert_eq!(humans.len(), 3);
    assert_eq!(humans[0].0, b"one".to_vec());
    assert_eq!(humans[1].0, Vec::<u8>::new());
    assert_eq!(humans[2].0, b"two".to_vec());
}

#[test]
fn rejecting_api_errors_pass_through_unchanged() {
    let api = BoundedApi { max: 4 };
    // Within the bound both directions succeed.
    let short = Addr(b"abcd".to_vec());
    assert_eq!(short.canonize(&api).unwrap().0.0, b"abcd".to_vec());
    // Beyond it the api's own error comes back unchanged.
    let long = Addr(b"abcde".to_vec());
    let e = canonize_maybe_empty(&api, &long).unwrap_err();
    assert_eq!(e.code, CANONICAL_TOO_LONG);
    let e2 = long.canonize(&api).unwrap_err();
    assert_eq!(e2.code, CANONICAL_TOO_LONG);
    let wide = CanonicalAddr(Binary(b"abcde".to_vec()));
    let e3 = humanize_maybe_empty(&api, &wide).unwrap_err();
    assert_eq!(e3.code, HUMAN_TOO_LONG);
    let e4 = wide.humanize(&api).unwrap_err();
    assert_eq!(e4.code, HUMAN_TOO_LONG);
    // The empty value still skips the api entirely.
    assert_eq!(canonize_maybe_empty(&api, &Addr(Vec::new())).unwrap().0.0, Vec::<u8>::new());
}

#[test]
fn vector_lift_stops_at_the_first_error() {
    let api = BoundedApi { max: 3 };
    let addrs = vec![Addr(b"ok".to_vec()), Addr(b"too-long".to_vec()), Addr(b"also-long".to_vec())];
    let r: Result<Vec<CanonicalAddr>, _> = addrs.canonize(&api);
    assert_eq!(r.unwrap_err().code, CANONICAL_TOO_LONG);
    let canon = vec![
        CanonicalAddr(Binary(b"aa".to_vec())),
        CanonicalAddr(Binary(b"wayoverlong".to_vec())),
    ];
    let r2: Result<Vec<Addr>, _> = canon.humanize(&api);
    assert_eq!(r2.unwrap_err().code, HUMAN_TOO_LONG);
    // An empty vector converts without consulting the api.
    let none: Vec<Addr> = vec![];
    let r3: Result<Vec<CanonicalAddr>, _> = none.canonize(&api);
    assert_eq!(r3.unwrap().len(), 0);
}

#[test]
fn api_methods_convert_directly() {
    let api = MockApi;
    let c = api.addr_canonicalize(&Addr(b"alice".to_vec())).unwrap();
    assert_eq!(c.0.0, b"alice".to_vec());
    let h = api.addr_humanize(&c).unwrap();
    assert_eq!(h.0, b"alice".to_vec());
}
