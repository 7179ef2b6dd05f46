use oumuamua::collateral::{Collateral, CollateralStatus, Collaterals, ContentHash};
use oumuamua::errors::Error;

#[test]
fn new_collateral_starts_created() {
    let c = Collateral::new(7, 50, 1, 99);
    assert_eq!(c.account, 7);
    assert_eq!(c.amount, 50);
    assert_eq!(c.asset, 1);
    assert_eq!(c.order_id, 99);
    assert_eq!(c.status, CollateralStatus::Created);
    assert_eq!(c.hash, ContentHash { account: 7, asset: 1, order_id: 99 });
    assert!(!c.is_finished());
}

#[test]
fn finished_means_terminal_status() {
    let mut c = Collateral::new(7, 50, 1, 99);
    c.status = CollateralStatus::Hot;
    assert!(!c.is_finished());
    c.status = CollateralStatus::Canceled;
    assert!(c.is_finished());
    c.status = CollateralStatus::Filled;
    assert!(c.is_finished());
}

#[test]
fn add_duplicate_triple_conflicts() {
    // A second deposit with the identical (account, asset, order_id) is
    // rejected; a different order id is accepted.
    let mut s = Collaterals::new();
    let h = s.do_add_collateral(7, 50, 1, 99).unwrap();
    assert_eq!(s.do_add_collateral(7, 60, 1, 99), Err(Error::CollateralConflict));
    assert!(s.do_add_collateral(7, 60, 1, 100).is_ok());
    let stored = s.collaterals(7, h).unwrap();
    assert_eq!(stored.amount, 50);
}

#[test]
fn remove_unfinished_fails_and_keeps_entry() {
    let mut s = Collaterals::new();
    let h = s.do_add_collateral(7, 50, 1, 99).unwrap();
    assert_eq!(s.do_remove_collateral(7, h), Err(Error::CollateralNotFinished));
    assert!(s.collaterals(7, h).is_some());
}

#[test]
fn cancel_leaves_no_record() {
    let mut s = Collaterals::new();
    let h = s.do_add_collateral(7, 50, 1, 99).unwrap();
    assert_eq!(s.do_cancel_collateral(7, h), Ok(()));
    assert!(s.collaterals(7, h).is_none());
    assert_eq!(s.do_remove_collateral(7, h), Err(Error::CollateralNotFound));
}

#[test]
fn fill_leaves_no_record() {
    let mut s = Collaterals::new();
    let h = s.do_add_collateral(7, 50, 1, 99).unwrap();
    assert_eq!(s.do_fill_collateral(7, h), Ok(()));
    assert!(s.collaterals(7, h).is_none());
}

#[test]
fn make_hot_transitions_created_only() {
    let mut s = Collaterals::new();
    let h = s.do_add_collateral(7, 50, 1, 99).unwrap();
    assert_eq!(s.do_make_collateral_hot(7, h), Ok(()));
    let stored = s.collaterals(7, h).unwrap();
    assert_eq!(stored.status, CollateralStatus::Hot);
    // A second activation fails: the status is no longer Created.
    assert_eq!(s.do_make_collateral_hot(7, h), Err(Error::CollateralNotCreated));
}

#[test]
fn hot_collateral_is_not_finished() {
    let mut s = Collaterals::new();
    let h = s.do_add_collateral(7, 50, 1, 99).unwrap();
    assert_eq!(s.do_make_collateral_hot(7, h), Ok(()));
    assert_eq!(s.do_remove_collateral(7, h), Err(Error::CollateralNotFinished));
    // Fill and cancel both guard on Created: a Hot deposit stays put.
    assert_eq!(s.do_fill_collateral(7, h), Err(Error::CollateralNotCreated));
    assert_eq!(s.do_cancel_collateral(7, h), Err(Error::CollateralNotCreated));
    assert!(s.collaterals(7, h).is_some());
}

#[test]
fn operations_on_missing_entries_fail() {
    let mut s = Collaterals::new();
    let h = ContentHash { account: 7, asset: 1, order_id: 99 };
    assert_eq!(s.do_make_collateral_hot(7, h), Err(Error::CollateralNotFound));
    assert_eq!(s.do_fill_collateral(7, h), Err(Error::CollateralNotFound));
    assert_eq!(s.do_cancel_collateral(7, h), Err(Error::CollateralNotFound));
    assert_eq!(s.do_remove_collateral(7, h), Err(Error::CollateralNotFound));
    assert!(s.collaterals(7, h).is_none());
}

#[test]
fn entries_are_keyed_by_account_and_hash() {
    let mut s = Collaterals::new();
    let h7 = s.do_add_collateral(7, 50, 1, 99).unwrap();
    let h8 = s.do_add_collateral(8, 60, 1, 99).unwrap();
    assert_ne!(h7, h8);
    assert!(s.collaterals(7, h7).is_some());
    assert!(s.collaterals(7, h8).is_none());
    assert_eq!(s.do_cancel_collateral(8, h8), Ok(()));
    assert!(s.collaterals(7, h7).is_some());
}
