//! Accounting core of a collateralized lending protocol.
//!
//! The crate models a multi-asset balance ledger with reservation semantics,
//! delegated-transfer allowances, a collateral escrow state machine, and an
//! order book for borrow/supply requests gated by oracle-priced collateral
//! sufficiency checks.
//!
//! The hosting execution environment (caller authentication, persistent
//! key-value storage, cryptographic hashing, event delivery, and block-level
//! randomness) is an external collaborator: operations here take an
//! already-authenticated caller identity and, where an unpredictable order id
//! is derived, a caller-supplied entropy seed.  Every operation is
//! all-or-nothing: it either fully commits or returns a typed error and leaves
//! the state untouched.

pub mod collateral;
pub mod errors;
pub mod keyed;
pub mod ledger;
pub mod lending;
pub mod orders;
