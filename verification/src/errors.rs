use vstd::prelude::*;

verus! {

/// Typed failure reasons for every operation of the core.
///
/// Every failure path of the library produces one of these variants, so a
/// caller can always tell precondition violations, arithmetic faults and
/// authorization faults apart.  No operation mutates any state when it
/// returns an error.
#[derive(Clone, Copy, Debug, PartialEq, Eq, Structural)]
pub enum Error {
    /// An admin-only operation was invoked by a caller other than the admin.
    NotAdmin,
    /// A token name longer than 64 bytes was supplied to registration.
    NameTooLong,
    /// A token ticker longer than 32 bytes was supplied to registration.
    TickerTooLong,
    /// The named asset is not registered.
    UnknownToken,
    /// The account has no balance record for the asset.
    NoSuchAccount,
    /// The sender's balance is smaller than the transferred value.
    InsufficientBalance,
    /// The sender's free balance is smaller than the required value.
    InsufficientFree,
    /// The account's reserved balance is smaller than the unreserved value.
    InsufficientReserved,
    /// No allowance record exists for the (asset, owner, spender) triple.
    NoAllowance,
    /// The allowance is smaller than the transferred value.
    InsufficientAllowance,
    /// A checked arithmetic step would overflow.
    Overflow,
    /// The borrow asset of an order has no known price.
    NoBtokenPrice,
    /// The collateral asset of an order has no known price.
    NoStokenPrice,
    /// The offered collateral value is lower than the borrowed value.
    InsufficientCollateral,
    /// A freshly derived order id collides with an existing order.
    OrderIdCollision,
    /// No order with the given id exists.
    OrderNotFound,
    /// A collateral entry with the same content hash already exists.
    CollateralConflict,
    /// No collateral entry with the given key exists.
    CollateralNotFound,
    /// The collateral status does not permit the attempted transition.
    CollateralNotCreated,
    /// Only canceled or filled collateral may be removed.
    CollateralNotFinished,
}

} // verus!
