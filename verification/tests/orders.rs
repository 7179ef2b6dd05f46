use oumuamua::errors::Error;
use oumuamua::lending::Lending;

/// The market of the concrete scenarios: admin 1 registers asset 1 ("USDT",
/// supply 1_000_000) and asset 2 ("ETH", supply 1000), sets price(1) = 1 and
/// price(2) = 20 on the shared scale, and funds account 5 with 10 ETH and no
/// USDT.
fn setup_market() -> Lending {
    let mut m = Lending::new(1, 1);
    assert_eq!(m.init(1, b"Dollar".to_vec(), b"USDT".to_vec(), 1_000_000), Ok(1));
    assert_eq!(m.init(1, b"Ether".to_vec(), b"ETH".to_vec(), 1000), Ok(2));
    assert_eq!(m.set_price(1, 1, 1), Ok(()));
    assert_eq!(m.set_price(1, 2, 20), Ok(()));
    assert_eq!(m.transfer(1, 2, 5, 10), Ok(()));
    m
}

#[test]
fn set_price_rejects_non_admin() {
    let mut m = setup_market();
    assert_eq!(m.set_price(5, 1, 7), Err(Error::NotAdmin));
    assert_eq!(m.token_price(1), Some(1));
}

#[test]
fn set_price_rejects_unknown_token() {
    let mut m = setup_market();
    assert_eq!(m.set_price(1, 9, 7), Err(Error::UnknownToken));
    assert_eq!(m.token_price(9), None);
}

#[test]
fn set_price_overwrites() {
    let mut m = setup_market();
    assert_eq!(m.set_price(1, 2, 25), Ok(()));
    assert_eq!(m.token_price(2), Some(25));
    assert_eq!(m.token_price(1), Some(1));
}

#[test]
fn create_borrow_rejects_undercollateralized() {
    // Account 5 offers 1 ETH (value 20) against 100 USDT (value 100):
    // creation must fail and the free ETH balance stay unchanged.
    let mut m = setup_market();
    let r = m.create_borrow(5, 100, 1, 30, 1, 2, 500, 42);
    assert_eq!(r, Err(Error::InsufficientCollateral));
    assert_eq!(m.free_balance_of(2, 5), 10);
    assert_eq!(m.reserve_balance_of(2, 5), 0);
    assert_eq!(m.borrow_order_count(), 0);
}

#[test]
fn create_borrow_rejects_cheap_collateral_value() {
    // 100 units priced 200 (value 20000) borrowed against 50 units priced
    // 300 (value 15000) must fail.
    let mut m = Lending::new(1, 1);
    assert_eq!(m.init(1, b"A".to_vec(), b"A".to_vec(), 1_000_000), Ok(1));
    assert_eq!(m.init(1, b"B".to_vec(), b"B".to_vec(), 1_000_000), Ok(2));
    assert_eq!(m.set_price(1, 1, 200), Ok(()));
    assert_eq!(m.set_price(1, 2, 300), Ok(()));
    assert_eq!(m.transfer(1, 2, 5, 50), Ok(()));
    let r = m.create_borrow(5, 100, 1, 30, 50, 2, 500, 42);
    assert_eq!(r, Err(Error::InsufficientCollateral));
    assert_eq!(m.free_balance_of(2, 5), 50);
}

#[test]
fn create_borrow_reserves_and_indexes() {
    // With 10 ETH of collateral (value 200 >= 100) creation succeeds: free
    // ETH drops by 10, reserved ETH rises by 10, the order is retrievable
    // by its returned id and both counts step by exactly one.
    let mut m = setup_market();
    let id = m.create_borrow(5, 100, 1, 30, 10, 2, 500, 42).unwrap();
    assert_eq!(m.free_balance_of(2, 5), 0);
    assert_eq!(m.reserve_balance_of(2, 5), 10);
    assert_eq!(m.balance_of(2, 5), 10);
    let o = m.borrow_order_detail(id).unwrap();
    assert_eq!(o.id, id);
    assert_eq!(o.owner, 5);
    assert_eq!(o.btotal, 100);
    assert_eq!(o.btoken_id, 1);
    assert_eq!(o.already, 0);
    assert_eq!(o.duration, 30);
    assert_eq!(o.stotal, 10);
    assert_eq!(o.stoken_id, 2);
    assert_eq!(o.interest, 500);
    assert_eq!(m.borrow_order_count(), 1);
    assert_eq!(m.owned_borrow_count(5), 1);
    assert_eq!(m.borrow_by_index(0), Some(id));
    assert_eq!(m.borrow_of_owner_by_index(5, 0), Some(id));
    assert_eq!(m.owner_of_borrow(id), Some(5));
}

#[test]
fn create_borrow_rejects_missing_account() {
    let mut m = setup_market();
    let r = m.create_borrow(6, 100, 1, 30, 10, 2, 500, 42);
    assert_eq!(r, Err(Error::NoSuchAccount));
}

#[test]
fn create_borrow_rejects_unknown_borrow_token() {
    let mut m = setup_market();
    let r = m.create_borrow(5, 100, 9, 30, 10, 2, 500, 42);
    assert_eq!(r, Err(Error::UnknownToken));
}

#[test]
fn create_borrow_rejects_missing_prices() {
    let mut m = Lending::new(1, 1);
    assert_eq!(m.init(1, b"A".to_vec(), b"A".to_vec(), 1000), Ok(1));
    assert_eq!(m.init(1, b"B".to_vec(), b"B".to_vec(), 1000), Ok(2));
    assert_eq!(m.transfer(1, 2, 5, 10), Ok(()));
    let r = m.create_borrow(5, 100, 1, 30, 10, 2, 500, 42);
    assert_eq!(r, Err(Error::NoBtokenPrice));
    assert_eq!(m.set_price(1, 1, 1), Ok(()));
    let r2 = m.create_borrow(5, 100, 1, 30, 10, 2, 500, 42);
    assert_eq!(r2, Err(Error::NoStokenPrice));
}

#[test]
fn create_borrow_rejects_value_overflow() {
    let mut m = setup_market();
    assert_eq!(m.set_price(1, 1, 2), Ok(()));
    let r = m.create_borrow(5, u128::MAX, 1, 30, 10, 2, 500, 42);
    assert_eq!(r, Err(Error::Overflow));
}

#[test]
fn create_borrow_rejects_insufficient_free_collateral() {
    // Collateral worth enough on paper, but more than the free balance.
    let mut m = setup_market();
    let r = m.create_borrow(5, 100, 1, 30, 11, 2, 500, 42);
    assert_eq!(r, Err(Error::InsufficientFree));
    assert_eq!(m.free_balance_of(2, 5), 10);
    assert_eq!(m.borrow_order_count(), 0);
}

#[test]
fn cancel_borrow_releases_collateral_and_unindexes() {
    let mut m = setup_market();
    let id = m.create_borrow(5, 100, 1, 30, 10, 2, 500, 42).unwrap();
    assert_eq!(m.cancel_borrow(id), Ok(()));
    assert_eq!(m.free_balance_of(2, 5), 10);
    assert_eq!(m.reserve_balance_of(2, 5), 0);
    assert!(m.borrow_order_detail(id).is_none());
    assert_eq!(m.borrow_order_count(), 0);
    assert_eq!(m.owned_borrow_count(5), 0);
    assert_eq!(m.borrow_by_index(0), None);
    assert_eq!(m.borrow_of_owner_by_index(5, 0), None);
}

#[test]
fn cancel_borrow_keeps_other_orders_dense() {
    let mut m = setup_market();
    let a = m.create_borrow(5, 10, 1, 30, 2, 2, 500, 42).unwrap();
    let b = m.create_borrow(5, 10, 1, 30, 3, 2, 500, 43).unwrap();
    let c = m.create_borrow(5, 10, 1, 30, 4, 2, 500, 44).unwrap();
    assert_eq!(m.borrow_order_count(), 3);
    assert_eq!(m.cancel_borrow(a), Ok(()));
    assert_eq!(m.borrow_order_count(), 2);
    assert_eq!(m.owned_borrow_count(5), 2);
    // The dense global array still enumerates both remaining orders.
    let first = m.borrow_by_index(0).unwrap();
    let second = m.borrow_by_index(1).unwrap();
    assert!(first != second);
    assert!(first == b || first == c);
    assert!(second == b || second == c);
    assert!(m.borrow_by_index(2).is_none());
    assert_eq!(m.reserve_balance_of(2, 5), 7);
}

#[test]
fn cancel_borrow_rejects_missing_order() {
    let mut m = setup_market();
    assert_eq!(m.cancel_borrow(12345), Err(Error::OrderNotFound));
}

#[test]
fn create_supply_reserves_and_indexes() {
    let mut m = setup_market();
    let id = m.create_supply(5, 4, 2, vec![1], 15000, 30, 500, 42).unwrap();
    assert_eq!(m.free_balance_of(2, 5), 6);
    assert_eq!(m.reserve_balance_of(2, 5), 4);
    let o = m.supply_order_detail(id).unwrap();
    assert_eq!(o.id, id);
    assert_eq!(o.owner, 5);
    assert_eq!(o.total, 4);
    assert_eq!(o.stoken, 2);
    assert_eq!(o.tokens, vec![1]);
    assert_eq!(o.amortgage, 15000);
    assert_eq!(o.duration, 30);
    assert_eq!(o.interest, 500);
    assert_eq!(m.supply_order_count(), 1);
    assert_eq!(m.owned_supply_count(5), 1);
    assert_eq!(m.supply_by_index(0), Some(id));
    assert_eq!(m.supply_of_owner_by_index(5, 0), Some(id));
    assert_eq!(m.owner_of_supply(id), Some(5));
}

#[test]
fn create_supply_rejects_unknown_acceptable_token() {
    let mut m = setup_market();
    let r = m.create_supply(5, 4, 2, vec![1, 9], 15000, 30, 500, 42);
    assert_eq!(r, Err(Error::UnknownToken));
    assert_eq!(m.free_balance_of(2, 5), 10);
    assert_eq!(m.supply_order_count(), 0);
}

#[test]
fn create_supply_rejects_missing_account() {
    let mut m = setup_market();
    let r = m.create_supply(6, 4, 2, vec![1], 15000, 30, 500, 42);
    assert_eq!(r, Err(Error::NoSuchAccount));
}

#[test]
fn create_supply_rejects_insufficient_free() {
    let mut m = setup_market();
    let r = m.create_supply(5, 11, 2, vec![1], 15000, 30, 500, 42);
    assert_eq!(r, Err(Error::InsufficientFree));
}

#[test]
fn order_ids_differ_as_the_nonce_steps() {
    // Two orders created from the same seed by the same owner still get
    // distinct ids: the strictly increasing nonce enters the derivation.
    let mut m = setup_market();
    let a = m.create_supply(5, 2, 2, vec![1], 15000, 30, 500, 42).unwrap();
    let b = m.create_supply(5, 2, 2, vec![1], 15000, 30, 500, 42).unwrap();
    assert_ne!(a, b);
}

#[test]
fn cancel_supply_releases_funds_and_unindexes() {
    let mut m = setup_market();
    let id = m.create_supply(5, 4, 2, vec![1], 15000, 30, 500, 42).unwrap();
    assert_eq!(m.cancel_supply(id), Ok(()));
    assert_eq!(m.free_balance_of(2, 5), 10);
    assert_eq!(m.reserve_balance_of(2, 5), 0);
    assert!(m.supply_order_detail(id).is_none());
    assert_eq!(m.supply_order_count(), 0);
    assert_eq!(m.owned_supply_count(5), 0);
}

#[test]
fn cancel_supply_rejects_missing_order() {
    let mut m = setup_market();
    assert_eq!(m.cancel_supply(12345), Err(Error::OrderNotFound));
}

#[test]
fn owner_indices_are_independent() {
    let mut m = setup_market();
    assert_eq!(m.transfer(1, 2, 6, 10), Ok(()));
    let a = m.create_borrow(5, 10, 1, 30, 2, 2, 500, 42).unwrap();
    let b = m.create_borrow(6, 10, 1, 30, 3, 2, 500, 43).unwrap();
    assert_eq!(m.owned_borrow_count(5), 1);
    assert_eq!(m.owned_borrow_count(6), 1);
    assert_eq!(m.borrow_of_owner_by_index(5, 0), Some(a));
    assert_eq!(m.borrow_of_owner_by_index(6, 0), Some(b));
    assert_eq!(m.cancel_borrow(a), Ok(()));
    // Cancelling one owner's order leaves the other owner's index alone.
    assert_eq!(m.owned_borrow_count(5), 0);
    assert_eq!(m.owned_borrow_count(6), 1);
    assert_eq!(m.borrow_of_owner_by_index(6, 0), Some(b));
}

#[test]
fn borrow_and_supply_books_are_independent() {
    let mut m = setup_market();
    let b = m.create_borrow(5, 10, 1, 30, 2, 2, 500, 42).unwrap();
    let s = m.create_supply(5, 3, 2, vec![1], 15000, 30, 500, 43).unwrap();
    assert_eq!(m.cancel_borrow(b), Ok(()));
    assert_eq!(m.supply_order_count(), 1);
    assert_eq!(m.supply_order_detail(s).unwrap().id, s);
    assert_eq!(m.borrow_order_count(), 0);
    // Only the borrow order's collateral came back.
    assert_eq!(m.reserve_balance_of(2, 5), 3);
    assert_eq!(m.free_balance_of(2, 5), 7);
}

#[test]
fn empty_book_reads_empty() {
    let m = Lending::new(1, 1);
    assert_eq!(m.borrow_order_count(), 0);
    assert_eq!(m.supply_order_count(), 0);
    assert_eq!(m.owned_borrow_count(5), 0);
    assert_eq!(m.owned_supply_count(5), 0);
    assert!(m.borrow_by_index(0).is_none());
    assert!(m.supply_by_index(0).is_none());
    assert!(m.borrow_order_detail(1).is_none());
    assert!(m.supply_order_detail(1).is_none());
    assert!(m.owner_of_borrow(1).is_none());
    assert!(m.owner_of_supply(1).is_none());
    assert_eq!(m.admin(), 1);
}
