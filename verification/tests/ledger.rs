use oumuamua::errors::Error;
use oumuamua::lending::Lending;

/// Admin is account 1; asset ids start at 1.  Registers asset 1 with a
/// supply of 1_000_000 credited to the admin.
fn setup_ledger() -> Lending {
    let mut m = Lending::new(1, 1);
    let id = m.init(1, b"Dollar".to_vec(), b"USDT".to_vec(), 1_000_000).unwrap();
    assert_eq!(id, 1);
    m
}

#[test]
fn init_credits_admin_with_supply() {
    let m = setup_ledger();
    assert_eq!(m.balance_of(1, 1), 1_000_000);
    assert_eq!(m.free_balance_of(1, 1), 1_000_000);
    assert_eq!(m.reserve_balance_of(1, 1), 0);
    let t = m.token_details(1).unwrap();
    assert_eq!(t.name, b"Dollar".to_vec());
    assert_eq!(t.ticker, b"USDT".to_vec());
    assert_eq!(t.total_supply, 1_000_000);
}

#[test]
fn init_allocates_sequential_ids() {
    let mut m = setup_ledger();
    assert_eq!(m.token_id(), 2);
    let id = m.init(1, b"Ether".to_vec(), b"ETH".to_vec(), 1000).unwrap();
    assert_eq!(id, 2);
    assert_eq!(m.token_id(), 3);
}

#[test]
fn init_rejects_non_admin() {
    let mut m = setup_ledger();
    let r = m.init(2, b"X".to_vec(), b"X".to_vec(), 10);
    assert_eq!(r, Err(Error::NotAdmin));
    assert_eq!(m.token_id(), 2);
}

#[test]
fn init_rejects_long_name() {
    let mut m = setup_ledger();
    let r = m.init(1, vec![65u8; 65], b"X".to_vec(), 10);
    assert_eq!(r, Err(Error::NameTooLong));
}

#[test]
fn init_rejects_long_ticker() {
    let mut m = setup_ledger();
    let r = m.init(1, b"X".to_vec(), vec![66u8; 33], 10);
    assert_eq!(r, Err(Error::TickerTooLong));
}

#[test]
fn transfer_moves_value() {
    let mut m = setup_ledger();
    assert_eq!(m.transfer(1, 1, 5, 300), Ok(()));
    assert_eq!(m.balance_of(1, 1), 999_700);
    assert_eq!(m.free_balance_of(1, 1), 999_700);
    assert_eq!(m.balance_of(1, 5), 300);
    assert_eq!(m.free_balance_of(1, 5), 300);
    assert_eq!(m.reserve_balance_of(1, 5), 0);
}

#[test]
fn transfer_keeps_balance_split_invariant() {
    // balance == free + reserved for every touched account, after every
    // successful operation.
    let mut m = setup_ledger();
    assert_eq!(m.transfer(1, 1, 5, 1000), Ok(()));
    assert_eq!(m.reserve(1, 5, 400), Ok(()));
    for account in [1u64, 5u64] {
        let balance = m.balance_of(1, account);
        let free = m.free_balance_of(1, account);
        let reserved = m.reserve_balance_of(1, account);
        assert_eq!(balance, free + reserved);
    }
}

#[test]
fn transfer_conserves_total_supply() {
    let mut m = setup_ledger();
    assert_eq!(m.transfer(1, 1, 5, 123_456), Ok(()));
    assert_eq!(m.transfer(5, 1, 7, 456), Ok(()));
    let total = m.balance_of(1, 1) + m.balance_of(1, 5) + m.balance_of(1, 7);
    assert_eq!(total, 1_000_000);
}

#[test]
fn transfer_to_self_changes_nothing() {
    let mut m = setup_ledger();
    assert_eq!(m.transfer(1, 1, 1, 500), Ok(()));
    assert_eq!(m.balance_of(1, 1), 1_000_000);
    assert_eq!(m.free_balance_of(1, 1), 1_000_000);
}

#[test]
fn transfer_rejects_missing_account() {
    let mut m = setup_ledger();
    assert_eq!(m.transfer(1, 9, 5, 1), Err(Error::NoSuchAccount));
}

#[test]
fn transfer_rejects_insufficient_balance() {
    let mut m = setup_ledger();
    assert_eq!(m.transfer(1, 1, 5, 1_000_001), Err(Error::InsufficientBalance));
    assert_eq!(m.balance_of(1, 1), 1_000_000);
}

#[test]
fn transfer_rejects_insufficient_free() {
    let mut m = setup_ledger();
    assert_eq!(m.reserve(1, 1, 999_999), Ok(()));
    assert_eq!(m.transfer(1, 1, 5, 2), Err(Error::InsufficientFree));
    assert_eq!(m.free_balance_of(1, 1), 1);
}

#[test]
fn reserve_moves_free_to_reserved() {
    let mut m = setup_ledger();
    assert_eq!(m.reserve(1, 1, 400), Ok(()));
    assert_eq!(m.free_balance_of(1, 1), 999_600);
    assert_eq!(m.reserve_balance_of(1, 1), 400);
    assert_eq!(m.balance_of(1, 1), 1_000_000);
}

#[test]
fn reserve_then_unreserve_round_trips() {
    let mut m = setup_ledger();
    let free_before = m.free_balance_of(1, 1);
    let reserved_before = m.reserve_balance_of(1, 1);
    assert_eq!(m.reserve(1, 1, 777), Ok(()));
    assert_eq!(m.unreserve(1, 1, 777), Ok(()));
    assert_eq!(m.free_balance_of(1, 1), free_before);
    assert_eq!(m.reserve_balance_of(1, 1), reserved_before);
    assert_eq!(m.balance_of(1, 1), 1_000_000);
}

#[test]
fn reserve_rejects_insufficient_free() {
    let mut m = setup_ledger();
    assert_eq!(m.reserve(1, 1, 1_000_001), Err(Error::InsufficientFree));
}

#[test]
fn reserve_rejects_missing_account() {
    let mut m = setup_ledger();
    assert_eq!(m.reserve(1, 9, 1), Err(Error::NoSuchAccount));
}

#[test]
fn unreserve_rejects_insufficient_reserved() {
    let mut m = setup_ledger();
    assert_eq!(m.reserve(1, 1, 10), Ok(()));
    assert_eq!(m.unreserve(1, 1, 11), Err(Error::InsufficientReserved));
}

#[test]
fn approve_accumulates() {
    // approve(v1) then approve(v2) yields allowance v1 + v2, not v2.
    let mut m = setup_ledger();
    assert_eq!(m.approve(1, 1, 5, 40), Ok(()));
    assert_eq!(m.approve(1, 1, 5, 2), Ok(()));
    assert_eq!(m.allowance(1, 1, 5), 42);
}

#[test]
fn approve_rejects_missing_account() {
    let mut m = setup_ledger();
    assert_eq!(m.approve(1, 9, 5, 1), Err(Error::NoSuchAccount));
}

#[test]
fn approve_rejects_overflow() {
    let mut m = setup_ledger();
    assert_eq!(m.approve(1, 1, 5, u128::MAX), Ok(()));
    assert_eq!(m.approve(1, 1, 5, 1), Err(Error::Overflow));
    assert_eq!(m.allowance(1, 1, 5), u128::MAX);
}

#[test]
fn transfer_from_consumes_allowance() {
    let mut m = setup_ledger();
    assert_eq!(m.approve(1, 1, 5, 100), Ok(()));
    assert_eq!(m.transfer_from(9, 1, 1, 5, 60), Ok(()));
    assert_eq!(m.allowance(1, 1, 5), 40);
    assert_eq!(m.balance_of(1, 1), 999_940);
    assert_eq!(m.balance_of(1, 5), 60);
}

#[test]
fn transfer_from_conserves_total_supply() {
    let mut m = setup_ledger();
    assert_eq!(m.approve(1, 1, 5, 100), Ok(()));
    assert_eq!(m.transfer_from(9, 1, 1, 5, 100), Ok(()));
    assert_eq!(m.balance_of(1, 1) + m.balance_of(1, 5), 1_000_000);
}

#[test]
fn transfer_from_rejects_missing_allowance() {
    let mut m = setup_ledger();
    assert_eq!(m.transfer_from(9, 1, 1, 5, 1), Err(Error::NoAllowance));
}

#[test]
fn transfer_from_rejects_insufficient_allowance() {
    let mut m = setup_ledger();
    assert_eq!(m.approve(1, 1, 5, 10), Ok(()));
    assert_eq!(m.transfer_from(9, 1, 1, 5, 11), Err(Error::InsufficientAllowance));
    assert_eq!(m.allowance(1, 1, 5), 10);
}

#[test]
fn balances_of_absent_records_read_zero() {
    let m = setup_ledger();
    assert_eq!(m.balance_of(1, 123), 0);
    assert_eq!(m.free_balance_of(7, 1), 0);
    assert_eq!(m.reserve_balance_of(7, 123), 0);
    assert_eq!(m.allowance(1, 123, 456), 0);
}
