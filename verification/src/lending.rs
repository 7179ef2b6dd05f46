use vstd::prelude::*;

use crate::errors::Error;
use crate::keyed::{
    find_keyed, lemma_find_first, lemma_find_none_of, lemma_find_push, lemma_find_update,
    lemma_push_unique_keys, lemma_update_unique_keys, swap_removed, unique_keys, Keyed,
};
use crate::ledger::{
    approve_err, approve_ok, approve_post, reserve_err, reserve_ok, reserve_post, transfer_err,
    transfer_from_err, transfer_from_ok, transfer_from_post, transfer_ok, transfer_post,
    unchanged, unreserve_err, unreserve_ok, unreserve_post, Ledger,
};
use crate::orders::{
    derive_order_id, find_owned_idx, order_id_of, BorrowOrder, OrderBook, SupplyOrder,
};
use vstd::arithmetic::div_mod::lemma_fundamental_div_mod;

verus! {

/// A registered asset: bounded human-readable name and ticker with the
/// initial total supply.
#[derive(Debug)]
pub struct Erc20Token {
    pub name: Vec<u8>,
    pub ticker: Vec<u8>,
    pub total_supply: u128,
}

/// The admin-set exchange rate of one asset: one unit of `asset` is worth
/// `price`/10000 units of the reference asset.  An absent record means the
/// price is unknown, and every valuation that needs it must fail.
#[derive(Clone, Copy, Debug, PartialEq, Eq, Structural)]
pub struct PriceEntry {
    pub asset: u64,
    pub price: u64,
}

impl Keyed for PriceEntry {
    type Key = u64;

    open spec fn key(&self) -> u64 {
        self.asset
    }
}

/// The value of `total` units under an oracle price: the raw product, on the
/// shared 1/10000 scale.  Zero when the price is unknown; callers must test
/// the price first.
pub open spec fn value_of(price: Option<u64>, total: u128) -> int {
    match price {
        Some(p) => total * p,
        None => 0,
    }
}

/// The whole protocol state: admin identity, asset registry, price oracle,
/// ledger and order book.  Entry points take an already-authenticated caller
/// identity; the hosting environment derives events from the arguments and
/// the returned outcome.
pub struct Lending {
    pub admin: u64,
    pub first_token_id: u64,
    pub tokens: Vec<Erc20Token>,
    pub prices: Vec<PriceEntry>,
    pub ledger: Ledger,
    pub orders: OrderBook,
}

impl Lending {
    /// The id the next registered asset will get; ids are sequential from
    /// `first_token_id` and never reused.
    pub open spec fn next_token_id(&self) -> int {
        self.first_token_id + self.tokens@.len()
    }

    /// Whether `t` is a registered asset.
    pub open spec fn token_exists(&self, t: u64) -> bool {
        self.first_token_id <= t < self.next_token_id()
    }

    /// The registered token with id `t`.
    pub open spec fn spec_token(&self, t: u64) -> Erc20Token
        recommends
            self.token_exists(t),
    {
        self.tokens@[t - self.first_token_id]
    }

    /// The oracle price of `t`, if one was set.
    pub open spec fn spec_price(&self, t: u64) -> Option<u64> {
        match find_keyed(self.prices@, t) {
            Some(e) => Some(e.price),
            None => None,
        }
    }

    /// Well-formedness of the whole state.
    pub open spec fn wf(&self) -> bool {
        &&& self.first_token_id + self.tokens@.len() <= u64::MAX
        &&& unique_keys(self.prices@)
        &&& self.ledger.wf()
        &&& self.orders.wf()
    }

    /// A fresh protocol state with no assets, prices, balances or orders.
    pub fn new(admin: u64, first_token_id: u64) -> (m: Lending)
        ensures
            m.wf(),
            m.admin == admin,
            m.first_token_id == first_token_id,
            m.tokens@.len() == 0,
            m.prices@.len() == 0,
            m.ledger.balances@.len() == 0,
            m.ledger.allowances@.len() == 0,
            m.orders.borrows@.len() == 0,
            m.orders.supplies@.len() == 0,
            m.orders.owned_borrows@.len() == 0,
            m.orders.owned_supplies@.len() == 0,
            m.orders.nonce == 0,
    {
        Lending {
            admin,
            first_token_id,
            tokens: Vec::new(),
            prices: Vec::new(),
            ledger: Ledger::new(),
            orders: OrderBook::new(),
        }
    }

    /// Whether `t` is a registered asset.
    pub fn has_token(&self, t: u64) -> (r: bool)
        ensures
            r == self.token_exists(t),
    {
        let len: usize = self.tokens.len();
        t >= self.first_token_id && (t - self.first_token_id) < len as u64
    }

    /// The position of the price record of `t`, if any.
    fn find_price_idx(&self, t: u64) -> (r: Option<usize>)
        ensures
            match r {
                Some(i) => {
                    &&& i < self.prices@.len()
                    &&& self.prices@[i as int].asset == t
                    &&& forall|j: int| 0 <= j < i ==> #[trigger] self.prices@[j].key() != t
                    &&& find_keyed(self.prices@, t) == Some(self.prices@[i as int])
                },
                None => find_keyed(self.prices@, t) is None,
            },
    {
        let n = self.prices.len();
        let mut i: usize = 0;
        while i < n
            invariant
                n == self.prices@.len(),
                i <= n,
                forall|j: int| 0 <= j < i ==> #[trigger] self.prices@[j].key() != t,
            decreases n - i,
        {
            if self.prices[i].asset == t {
                proof {
                    lemma_find_first(self.prices@, t, i as int);
                }
                return Some(i);
            }
            i = i + 1;
        }
        proof {
            lemma_find_none_of(self.prices@, t);
        }
        None
    }

    /// The oracle price of `t`, if one was set.
    pub fn token_price(&self, t: u64) -> (r: Option<u64>)
        ensures
            r == self.spec_price(t),
    {
        match self.find_price_idx(t) {
            Some(i) => Some(self.prices[i].price),
            None => None,
        }
    }
}

/// Nothing of the registry or the oracle changed.
pub open spec fn same_config(pre: Lending, post: Lending) -> bool {
    &&& post.admin == pre.admin
    &&& post.first_token_id == pre.first_token_id
    &&& post.tokens@ == pre.tokens@
    &&& post.prices@ == pre.prices@
}

/// Nothing of the order book changed.
pub open spec fn same_orders(pre: Lending, post: Lending) -> bool {
    &&& post.orders.borrows@ == pre.orders.borrows@
    &&& post.orders.owned_borrows@ == pre.orders.owned_borrows@
    &&& post.orders.supplies@ == pre.orders.supplies@
    &&& post.orders.owned_supplies@ == pre.orders.owned_supplies@
    &&& post.orders.nonce == pre.orders.nonce
}

/// Nothing at all changed.
pub open spec fn same_state(pre: Lending, post: Lending) -> bool {
    &&& same_config(pre, post)
    &&& same_orders(pre, post)
    &&& unchanged(pre.ledger, post.ledger)
}

/// The inputs on which asset registration succeeds: only the admin may
/// register, the name and ticker are bounded to 64 and 32 bytes, and the id
/// counter has headroom.
pub open spec fn init_ok(pre: Lending, sender: u64, name: Seq<u8>, ticker: Seq<u8>) -> bool {
    &&& sender == pre.admin
    &&& name.len() <= 64
    &&& ticker.len() <= 32
    &&& pre.next_token_id() < u64::MAX
}

/// The error reported for the first failing registration precondition.
pub open spec fn init_err(pre: Lending, sender: u64, name: Seq<u8>, ticker: Seq<u8>) -> Error {
    if sender != pre.admin {
        Error::NotAdmin
    } else if name.len() > 64 {
        Error::NameTooLong
    } else if ticker.len() > 32 {
        Error::TickerTooLong
    } else {
        Error::Overflow
    }
}

/// All assets listed in `toks` are registered in `pre`.
pub open spec fn all_tokens_exist(pre: Lending, toks: Seq<u64>) -> bool {
    forall|j: int| 0 <= j < toks.len() ==> pre.token_exists(#[trigger] toks[j])
}

/// The inputs on which borrow-order creation succeeds: the owner holds a
/// record for the collateral asset, the borrowed asset is registered, both
/// prices are known, both valuations fit, the collateral value covers the
/// borrowed value, the derived id is fresh, the nonce has headroom and the
/// owner's free collateral balance suffices.
pub open spec fn create_borrow_ok(
    pre: Lending,
    sender: u64,
    btotal: u128,
    btokenid: u64,
    stotal: u128,
    stokenid: u64,
    seed: u64,
) -> bool {
    &&& pre.ledger.has_account(stokenid, sender)
    &&& pre.token_exists(btokenid)
    &&& pre.spec_price(btokenid) is Some
    &&& pre.spec_price(stokenid) is Some
    &&& value_of(pre.spec_price(btokenid), btotal) <= u128::MAX
    &&& value_of(pre.spec_price(stokenid), stotal) <= u128::MAX
    &&& value_of(pre.spec_price(stokenid), stotal) >= value_of(pre.spec_price(btokenid), btotal)
    &&& pre.orders.borrow_find(order_id_of(seed, sender, pre.orders.nonce)) is None
    &&& pre.orders.nonce < u64::MAX
    &&& pre.ledger.spec_free(stokenid, sender) >= stotal
}

/// The error reported for the first failing borrow-creation precondition.
pub open spec fn create_borrow_err(
    pre: Lending,
    sender: u64,
    btotal: u128,
    btokenid: u64,
    stotal: u128,
    stokenid: u64,
    seed: u64,
) -> Error {
    if !pre.ledger.has_account(stokenid, sender) {
        Error::NoSuchAccount
    } else if !pre.token_exists(btokenid) {
        Error::UnknownToken
    } else if pre.spec_price(btokenid) is None {
        Error::NoBtokenPrice
    } else if pre.spec_price(stokenid) is None {
        Error::NoStokenPrice
    } else if value_of(pre.spec_price(btokenid), btotal) > u128::MAX || value_of(
        pre.spec_price(stokenid),
        stotal,
    ) > u128::MAX {
        Error::Overflow
    } else if value_of(pre.spec_price(stokenid), stotal) < value_of(
        pre.spec_price(btokenid),
        btotal,
    ) {
        Error::InsufficientCollateral
    } else if pre.orders.borrow_find(order_id_of(seed, sender, pre.orders.nonce)) is Some {
        Error::OrderIdCollision
    } else if pre.orders.nonce == u64::MAX {
        Error::Overflow
    } else {
        Error::InsufficientFree
    }
}

/// The inputs on which supply-order creation succeeds: the owner holds a
/// record for the supplied asset, every acceptable collateral asset is
/// registered, the derived id is fresh, the nonce has headroom and the
/// owner's free balance covers the supplied total.
pub open spec fn create_supply_ok(
    pre: Lending,
    sender: u64,
    stotal: u128,
    stokenid: u64,
    btokenids: Seq<u64>,
    seed: u64,
) -> bool {
    &&& pre.ledger.has_account(stokenid, sender)
    &&& all_tokens_exist(pre, btokenids)
    &&& pre.orders.supply_find(order_id_of(seed, sender, pre.orders.nonce)) is None
    &&& pre.orders.nonce < u64::MAX
    &&& pre.ledger.spec_free(stokenid, sender) >= stotal
}

/// The error reported for the first failing supply-creation precondition.
pub open spec fn create_supply_err(
    pre: Lending,
    sender: u64,
    stotal: u128,
    stokenid: u64,
    btokenids: Seq<u64>,
    seed: u64,
) -> Error {
    if !pre.ledger.has_account(stokenid, sender) {
        Error::NoSuchAccount
    } else if !all_tokens_exist(pre, btokenids) {
        Error::UnknownToken
    } else if pre.orders.supply_find(order_id_of(seed, sender, pre.orders.nonce)) is Some {
        Error::OrderIdCollision
    } else if pre.orders.nonce == u64::MAX {
        Error::Overflow
    } else {
        Error::InsufficientFree
    }
}

/// `total * price` when it fits in the balance type.
fn checked_value(total: u128, price: u64) -> (r: Option<u128>)
    ensures
        r == (if total * price <= u128::MAX {
            Some((total * price) as u128)
        } else {
            None::<u128>
        }),
{
    if total == 0 || price == 0 {
        return Some(0);
    }
    let p: u128 = price as u128;
    let q: u128 = u128::MAX / p;
    if total > q {
        proof {
            lemma_fundamental_div_mod(u128::MAX as int, p as int);
            assert((q as int) * (p as int) + (p as int) > u128::MAX as int);
            assert((total as int) * (p as int) >= ((q as int) + 1) * (p as int))
                by (nonlinear_arith)
                requires
                    (total as int) >= (q as int) + 1,
                    (p as int) > 0,
            ;
            assert(((q as int) + 1) * (p as int) == (q as int) * (p as int) + (p as int))
                by (nonlinear_arith);
        }
        None
    } else {
        proof {
            lemma_fundamental_div_mod(u128::MAX as int, p as int);
            assert((q as int) * (p as int) <= u128::MAX as int);
            assert((total as int) * (p as int) <= (q as int) * (p as int))
                by (nonlinear_arith)
                requires
                    0 <= (total as int) <= (q as int),
                    (p as int) > 0,
            ;
        }
        Some(total * p)
    }
}

impl Lending {
    /// Register a new asset with a bounded name and ticker, crediting the
    /// whole initial supply — all of it free — to the admin.  Admin-only.
    /// Returns the sequentially allocated asset id.
    pub fn init(&mut self, sender: u64, name: Vec<u8>, ticker: Vec<u8>, total_supply: u128) -> (r:
        Result<u64, Error>)
        requires
            old(self).wf(),
        ensures
            final(self).wf(),
            r == (if init_ok(*old(self), sender, name@, ticker@) {
                Ok::<u64, Error>((old(self).first_token_id + old(self).tokens@.len()) as u64)
            } else {
                Err::<u64, Error>(init_err(*old(self), sender, name@, ticker@))
            }),
            r is Err ==> same_state(*old(self), *final(self)),
            r is Ok ==> ({
                let id = (old(self).first_token_id + old(self).tokens@.len()) as u64;
                &&& final(self).admin == old(self).admin
                &&& final(self).first_token_id == old(self).first_token_id
                &&& final(self).prices@ == old(self).prices@
                &&& same_orders(*old(self), *final(self))
                &&& final(self).tokens@.len() == old(self).tokens@.len() + 1
                &&& forall|i: int|
                    0 <= i < old(self).tokens@.len() ==> #[trigger] final(self).tokens@[i] == old(
                        self,
                    ).tokens@[i]
                &&& final(self).tokens@.last().name@ == name@
                &&& final(self).tokens@.last().ticker@ == ticker@
                &&& final(self).tokens@.last().total_supply == total_supply
                &&& final(self).token_exists(id)
                &&& final(self).ledger.allowances@ == old(self).ledger.allowances@
                &&& final(self).ledger.has_account(id, sender)
                &&& final(self).ledger.spec_balance(id, sender) == total_supply
                &&& final(self).ledger.spec_free(id, sender) == total_supply
                &&& final(self).ledger.spec_reserved(id, sender) == 0
                &&& forall|a: u64, c: u64|
                    #![trigger final(self).ledger.bal_find(a, c)]
                    !(a == id && c == sender) ==> final(self).ledger.bal_find(a, c) == old(
                        self,
                    ).ledger.bal_find(a, c)
            }),
    {
        if sender != self.admin {
            return Err(Error::NotAdmin);
        }
        if name.len() > 64 {
            return Err(Error::NameTooLong);
        }
        if ticker.len() > 32 {
            return Err(Error::TickerTooLong);
        }
        let len: usize = self.tokens.len();
        let next: u64 = self.first_token_id + len as u64;
        if next == u64::MAX {
            return Err(Error::Overflow);
        }
        let token = Erc20Token { name, ticker, total_supply };
        self.tokens.push(token);
        self.ledger.set_initial_balance(next, sender, total_supply);
        Ok(next)
    }

    /// Set the oracle price of a registered asset.  Admin-only.
    pub fn set_price(&mut self, sender: u64, token_id: u64, price: u64) -> (r: Result<(), Error>)
        requires
            old(self).wf(),
        ensures
            final(self).wf(),
            r == (if sender == old(self).admin && old(self).token_exists(token_id) {
                Ok::<(), Error>(())
            } else if sender != old(self).admin {
                Err::<(), Error>(Error::NotAdmin)
            } else {
                Err::<(), Error>(Error::UnknownToken)
            }),
            r is Err ==> same_state(*old(self), *final(self)),
            r is Ok ==> ({
                &&& final(self).admin == old(self).admin
                &&& final(self).first_token_id == old(self).first_token_id
                &&& final(self).tokens@ == old(self).tokens@
                &&& same_orders(*old(self), *final(self))
                &&& unchanged(old(self).ledger, final(self).ledger)
                &&& final(self).spec_price(token_id) == Some(price)
                &&& forall|t: u64|
                    t != token_id ==> #[trigger] final(self).spec_price(t) == old(self).spec_price(
                        t,
                    )
            }),
    {
        if sender != self.admin {
            return Err(Error::NotAdmin);
        }
        if !self.has_token(token_id) {
            return Err(Error::UnknownToken);
        }
        let ghost pre = *self;
        let entry = PriceEntry { asset: token_id, price };
        match self.find_price_idx(token_id) {
            Some(i) => {
                self.prices.set(i, entry);
                proof {
                    lemma_update_unique_keys(pre.prices@, i as int, entry);
                    assert forall|t: u64| #[trigger]
                        find_keyed(self.prices@, t) == (if t == token_id {
                            Some(entry)
                        } else {
                            find_keyed(pre.prices@, t)
                        }) by {
                        lemma_find_update(pre.prices@, i as int, entry, t);
                    }
                }
            },
            None => {
                self.prices.push(entry);
                proof {
                    lemma_push_unique_keys(pre.prices@, entry);
                    assert forall|t: u64| #[trigger]
                        find_keyed(self.prices@, t) == (if t == token_id {
                            Some(entry)
                        } else {
                            find_keyed(pre.prices@, t)
                        }) by {
                        lemma_find_push(pre.prices@, entry, t);
                    }
                }
            },
        }
        Ok(())
    }

    /// Move `value` of `asset` from `sender` to `to`; see
    /// [`Ledger::transfer`].
    pub fn transfer(&mut self, sender: u64, asset: u64, to: u64, value: u128) -> (r: Result<
        (),
        Error,
    >)
        requires
            old(self).wf(),
        ensures
            final(self).wf(),
            same_config(*old(self), *final(self)),
            same_orders(*old(self), *final(self)),
            r == (if transfer_ok(old(self).ledger, asset, sender, to, value) {
                Ok::<(), Error>(())
            } else {
                Err::<(), Error>(transfer_err(old(self).ledger, asset, sender, to, value))
            }),
            r is Ok ==> transfer_post(old(self).ledger, final(self).ledger, asset, sender, to, value),
            r is Err ==> unchanged(old(self).ledger, final(self).ledger),
            forall|a: u64| #[trigger]
                final(self).ledger.sum_balances(a) == old(self).ledger.sum_balances(a),
    {
        self.ledger.transfer(asset, sender, to, value)
    }

    /// Grant `spender` an additional allowance from `sender`; see
    /// [`Ledger::approve`].
    pub fn approve(&mut self, sender: u64, asset: u64, spender: u64, value: u128) -> (r: Result<
        (),
        Error,
    >)
        requires
            old(self).wf(),
        ensures
            final(self).wf(),
            same_config(*old(self), *final(self)),
            same_orders(*old(self), *final(self)),
            r == (if approve_ok(old(self).ledger, asset, sender, spender, value) {
                Ok::<(), Error>(())
            } else {
                Err::<(), Error>(approve_err(old(self).ledger, asset, sender, spender, value))
            }),
            r is Ok ==> approve_post(
                old(self).ledger,
                final(self).ledger,
                asset,
                sender,
                spender,
                value,
            ),
            r is Err ==> unchanged(old(self).ledger, final(self).ledger),
    {
        self.ledger.approve(asset, sender, spender, value)
    }

    /// Delegated transfer on the strength of an allowance; see
    /// [`Ledger::transfer_from`].
    pub fn transfer_from(
        &mut self,
        sender: u64,
        asset: u64,
        from: u64,
        to: u64,
        value: u128,
    ) -> (r: Result<(), Error>)
        requires
            old(self).wf(),
        ensures
            final(self).wf(),
            same_config(*old(self), *final(self)),
            same_orders(*old(self), *final(self)),
            r == (if transfer_from_ok(old(self).ledger, asset, from, to, value) {
                Ok::<(), Error>(())
            } else {
                Err::<(), Error>(transfer_from_err(old(self).ledger, asset, from, to, value))
            }),
            r is Ok ==> transfer_from_post(
                old(self).ledger,
                final(self).ledger,
                asset,
                from,
                to,
                value,
            ),
            r is Err ==> unchanged(old(self).ledger, final(self).ledger),
            forall|a: u64| #[trigger]
                final(self).ledger.sum_balances(a) == old(self).ledger.sum_balances(a),
    {
        self.ledger.transfer_from(asset, sender, from, to, value)
    }

    /// Escrow `value` of `asset` from `account`'s free balance; see
    /// [`Ledger::reserve`].
    pub fn reserve(&mut self, asset: u64, account: u64, value: u128) -> (r: Result<(), Error>)
        requires
            old(self).wf(),
        ensures
            final(self).wf(),
            same_config(*old(self), *final(self)),
            same_orders(*old(self), *final(self)),
            r == (if reserve_ok(old(self).ledger, asset, account, value) {
                Ok::<(), Error>(())
            } else {
                Err::<(), Error>(reserve_err(old(self).ledger, asset, account, value))
            }),
            r is Ok ==> reserve_post(old(self).ledger, final(self).ledger, asset, account, value),
            r is Err ==> unchanged(old(self).ledger, final(self).ledger),
    {
        self.ledger.reserve(asset, account, value)
    }

    /// Release `value` of `asset` from `account`'s reserved balance; see
    /// [`Ledger::unreserve`].
    pub fn unreserve(&mut self, asset: u64, account: u64, value: u128) -> (r: Result<(), Error>)
        requires
            old(self).wf(),
        ensures
            final(self).wf(),
            same_config(*old(self), *final(self)),
            same_orders(*old(self), *final(self)),
            r == (if unreserve_ok(old(self).ledger, asset, account, value) {
                Ok::<(), Error>(())
            } else {
                Err::<(), Error>(unreserve_err(old(self).ledger, asset, account, value))
            }),
            r is Ok ==> unreserve_post(old(self).ledger, final(self).ledger, asset, account, value),
            r is Err ==> unchanged(old(self).ledger, final(self).ledger),
    {
        self.ledger.unreserve(asset, account, value)
    }

    /// Create a borrow order: validate ownership, registration, prices and
    /// collateral sufficiency, derive a fresh id from the entropy seed, the
    /// caller and the nonce, reserve the offered collateral, insert the
    /// order into the global and per-owner indices and step the nonce.
    /// Returns the new order id.
    pub fn create_borrow(
        &mut self,
        sender: u64,
        btotal: u128,
        btokenid: u64,
        duration: u64,
        stotal: u128,
        stokenid: u64,
        interest: u32,
        seed: u64,
    ) -> (r: Result<u64, Error>)
        requires
            old(self).wf(),
        ensures
            final(self).wf(),
            r == (if create_borrow_ok(*old(self), sender, btotal, btokenid, stotal, stokenid, seed) {
                Ok::<u64, Error>(order_id_of(seed, sender, old(self).orders.nonce))
            } else {
                Err::<u64, Error>(
                    create_borrow_err(*old(self), sender, btotal, btokenid, stotal, stokenid, seed),
                )
            }),
            r is Err ==> same_state(*old(self), *final(self)),
            r is Ok ==> ({
                let id = order_id_of(seed, sender, old(self).orders.nonce);
                let o = BorrowOrder {
                    id,
                    owner: sender,
                    btotal,
                    btoken_id: btokenid,
                    already: 0,
                    duration,
                    stotal,
                    stoken_id: stokenid,
                    interest,
                };
                &&& same_config(*old(self), *final(self))
                &&& reserve_post(old(self).ledger, final(self).ledger, stokenid, sender, stotal)
                &&& final(self).orders.borrows@ == old(self).orders.borrows@.push(o)
                &&& final(self).orders.borrow_find(id) == Some(o)
                &&& forall|oid: u64|
                    oid != id ==> #[trigger] final(self).orders.borrow_find(oid) == old(
                        self,
                    ).orders.borrow_find(oid)
                &&& final(self).orders.owned_borrow_ids(sender) == old(
                    self,
                ).orders.owned_borrow_ids(sender).push(id)
                &&& forall|w: u64|
                    w != sender ==> #[trigger] final(self).orders.owned_borrow_ids(w) == old(
                        self,
                    ).orders.owned_borrow_ids(w)
                &&& final(self).orders.supplies@ == old(self).orders.supplies@
                &&& final(self).orders.owned_supplies@ == old(self).orders.owned_supplies@
                &&& final(self).orders.nonce == old(self).orders.nonce + 1
            }),
    {
        if !self.ledger.account_exists(stokenid, sender) {
            return Err(Error::NoSuchAccount);
        }
        if !self.has_token(btokenid) {
            return Err(Error::UnknownToken);
        }
        let bprice = match self.token_price(btokenid) {
            Some(p) => p,
            None => {
                return Err(Error::NoBtokenPrice);
            },
        };
        let sprice = match self.token_price(stokenid) {
            Some(p) => p,
            None => {
                return Err(Error::NoStokenPrice);
            },
        };
        let bval = match checked_value(btotal, bprice) {
            Some(v) => v,
            None => {
                return Err(Error::Overflow);
            },
        };
        let sval = match checked_value(stotal, sprice) {
            Some(v) => v,
            None => {
                return Err(Error::Overflow);
            },
        };
        if sval < bval {
            return Err(Error::InsufficientCollateral);
        }
        let nonce = self.orders.nonce;
        let id = derive_order_id(seed, sender, nonce);
        if self.orders.find_borrow_idx(id).is_some() {
            return Err(Error::OrderIdCollision);
        }
        if nonce == u64::MAX {
            return Err(Error::Overflow);
        }
        match self.ledger.reserve(stokenid, sender, stotal) {
            Err(e) => {
                return Err(e);
            },
            Ok(()) => {},
        }
        let o = BorrowOrder {
            id,
            owner: sender,
            btotal,
            btoken_id: btokenid,
            already: 0,
            duration,
            stotal,
            stoken_id: stokenid,
            interest,
        };
        self.orders.insert_borrow(o);
        let ghost mid = *self;
        self.orders.nonce = nonce + 1;
        proof {
            assert forall|oid: u64| oid != id implies #[trigger] self.orders.borrow_find(oid)
                == old(self).orders.borrow_find(oid) by {
                assert(self.orders.borrow_find(oid) == mid.orders.borrow_find(oid));
                assert(mid.orders.borrow_find(oid) == old(self).orders.borrow_find(oid));
            }
            assert forall|w: u64| w != sender implies #[trigger] self.orders.owned_borrow_ids(w)
                == old(self).orders.owned_borrow_ids(w) by {
                assert(self.orders.owned_borrow_ids(w) == mid.orders.owned_borrow_ids(w));
                assert(mid.orders.owned_borrow_ids(w) == old(self).orders.owned_borrow_ids(w));
            }
            assert(self.orders.owned_borrow_ids(sender) == mid.orders.owned_borrow_ids(sender));
            assert(self.orders.borrow_find(id) == mid.orders.borrow_find(id));
        }
        Ok(id)
    }

    /// Create a supply order: validate ownership and that every acceptable
    /// collateral asset is registered, derive a fresh id, reserve the
    /// supplied total, insert the order into both indices and step the
    /// nonce.  Returns the new order id.
    pub fn create_supply(
        &mut self,
        sender: u64,
        stotal: u128,
        stokenid: u64,
        btokenids: Vec<u64>,
        amortgage: u32,
        duration: u64,
        interest: u32,
        seed: u64,
    ) -> (r: Result<u64, Error>)
        requires
            old(self).wf(),
        ensures
            final(self).wf(),
            r == (if create_supply_ok(*old(self), sender, stotal, stokenid, btokenids@, seed) {
                Ok::<u64, Error>(order_id_of(seed, sender, old(self).orders.nonce))
            } else {
                Err::<u64, Error>(
                    create_supply_err(*old(self), sender, stotal, stokenid, btokenids@, seed),
                )
            }),
            r is Err ==> same_state(*old(self), *final(self)),
            r is Ok ==> ({
                let id = order_id_of(seed, sender, old(self).orders.nonce);
                &&& same_config(*old(self), *final(self))
                &&& reserve_post(old(self).ledger, final(self).ledger, stokenid, sender, stotal)
                &&& final(self).orders.supplies@.len() == old(self).orders.supplies@.len() + 1
                &&& forall|i: int|
                    0 <= i < old(self).orders.supplies@.len()
                        ==> #[trigger] final(self).orders.supplies@[i]
                        == old(self).orders.supplies@[i]
                &&& ({
                    let o = final(self).orders.supplies@.last();
                    &&& o.id == id
                    &&& o.owner == sender
                    &&& o.total == stotal
                    &&& o.stoken == stokenid
                    &&& o.tokens@ == btokenids@
                    &&& o.amortgage == amortgage
                    &&& o.duration == duration
                    &&& o.interest == interest
                    &&& final(self).orders.supply_find(id) == Some(o)
                })
                &&& forall|oid: u64|
                    oid != id ==> #[trigger] final(self).orders.supply_find(oid) == old(
                        self,
                    ).orders.supply_find(oid)
                &&& final(self).orders.owned_supply_ids(sender) == old(
                    self,
                ).orders.owned_supply_ids(sender).push(id)
                &&& forall|w: u64|
                    w != sender ==> #[trigger] final(self).orders.owned_supply_ids(w) == old(
                        self,
                    ).orders.owned_supply_ids(w)
                &&& final(self).orders.borrows@ == old(self).orders.borrows@
                &&& final(self).orders.owned_borrows@ == old(self).orders.owned_borrows@
                &&& final(self).orders.nonce == old(self).orders.nonce + 1
            }),
    {
        if !self.ledger.account_exists(stokenid, sender) {
            return Err(Error::NoSuchAccount);
        }
        let ghost entry_state = *self;
        let n = btokenids.len();
        let mut j: usize = 0;
        while j < n
            invariant
                *self == entry_state,
                entry_state == *old(self),
                entry_state.wf(),
                entry_state.ledger.has_account(stokenid, sender),
                n == btokenids@.len(),
                j <= n,
                forall|l: int| 0 <= l < j ==> entry_state.token_exists(#[trigger] btokenids@[l]),
            decreases n - j,
        {
            if !self.has_token(btokenids[j]) {
                proof {
                    assert(!entry_state.token_exists(btokenids@[j as int]));
                    assert(!all_tokens_exist(*old(self), btokenids@));
                }
                return Err(Error::UnknownToken);
            }
            j = j + 1;
        }
        proof {
            assert(all_tokens_exist(*old(self), btokenids@));
        }
        let nonce = self.orders.nonce;
        let id = derive_order_id(seed, sender, nonce);
        if self.orders.find_supply_idx(id).is_some() {
            return Err(Error::OrderIdCollision);
        }
        if nonce == u64::MAX {
            return Err(Error::Overflow);
        }
        match self.ledger.reserve(stokenid, sender, stotal) {
            Err(e) => {
                return Err(e);
            },
            Ok(()) => {},
        }
        let o = SupplyOrder {
            id,
            owner: sender,
            total: stotal,
            stoken: stokenid,
            tokens: btokenids,
            amortgage,
            duration,
            interest,
        };
        self.orders.insert_supply(o);
        let ghost mid = *self;
        self.orders.nonce = nonce + 1;
        proof {
            assert forall|oid: u64| oid != id implies #[trigger] self.orders.supply_find(oid)
                == old(self).orders.supply_find(oid) by {
                assert(self.orders.supply_find(oid) == mid.orders.supply_find(oid));
                assert(mid.orders.supply_find(oid) == old(self).orders.supply_find(oid));
            }
            assert forall|w: u64| w != sender implies #[trigger] self.orders.owned_supply_ids(w)
                == old(self).orders.owned_supply_ids(w) by {
                assert(self.orders.owned_supply_ids(w) == mid.orders.owned_supply_ids(w));
                assert(mid.orders.owned_supply_ids(w) == old(self).orders.owned_supply_ids(w));
            }
            assert(self.orders.owned_supply_ids(sender) == mid.orders.owned_supply_ids(sender));
            assert(self.orders.supply_find(id) == mid.orders.supply_find(id));
        }
        Ok(id)
    }

    /// Cancel a borrow order: release the escrowed collateral back to the
    /// owner's free balance and swap-remove the order from the global array
    /// and from its owner's index, keeping both dense.
    pub fn cancel_borrow(&mut self, order_id: u64) -> (r: Result<(), Error>)
        requires
            old(self).wf(),
        ensures
            final(self).wf(),
            match old(self).orders.borrow_find(order_id) {
                None => {
                    &&& r == Err::<(), Error>(Error::OrderNotFound)
                    &&& same_state(*old(self), *final(self))
                },
                Some(o) => {
                    if unreserve_ok(old(self).ledger, o.stoken_id, o.owner, o.stotal) {
                        let pre_ids = old(self).orders.owned_borrow_ids(o.owner);
                        &&& r == Ok::<(), Error>(())
                        &&& same_config(*old(self), *final(self))
                        &&& unreserve_post(
                            old(self).ledger,
                            final(self).ledger,
                            o.stoken_id,
                            o.owner,
                            o.stotal,
                        )
                        &&& final(self).orders.borrow_find(order_id) is None
                        &&& forall|oid: u64|
                            oid != order_id ==> #[trigger] final(self).orders.borrow_find(oid)
                                == old(self).orders.borrow_find(oid)
                        &&& final(self).orders.borrows@.len() == old(self).orders.borrows@.len()
                            - 1
                        &&& exists|i: int|
                            0 <= i < old(self).orders.borrows@.len() && old(
                                self,
                            ).orders.borrows@[i] == o && final(self).orders.borrows@
                                == swap_removed(old(self).orders.borrows@, i)
                        &&& exists|k: int|
                            0 <= k < pre_ids.len() && pre_ids[k] == order_id
                                && final(self).orders.owned_borrow_ids(o.owner)
                                == swap_removed(pre_ids, k)
                        &&& forall|w: u64|
                            w != o.owner ==> #[trigger] final(self).orders.owned_borrow_ids(w)
                                == old(self).orders.owned_borrow_ids(w)
                        &&& final(self).orders.supplies@ == old(self).orders.supplies@
                        &&& final(self).orders.owned_supplies@ == old(self).orders.owned_supplies@
                        &&& final(self).orders.nonce == old(self).orders.nonce
                    } else {
                        &&& r == Err::<(), Error>(
                            unreserve_err(old(self).ledger, o.stoken_id, o.owner, o.stotal),
                        )
                        &&& same_state(*old(self), *final(self))
                    }
                },
            },
    {
        let i = match self.orders.find_borrow_idx(order_id) {
            Some(i) => i,
            None => {
                return Err(Error::OrderNotFound);
            },
        };
        let o = self.orders.borrows[i];
        match self.ledger.unreserve(o.stoken_id, o.owner, o.stotal) {
            Err(e) => {
                return Err(e);
            },
            Ok(()) => {},
        }
        self.orders.remove_borrow_at(i);
        Ok(())
    }

    /// Cancel a supply order: release the escrowed supply back to the
    /// owner's free balance and swap-remove the order from the global array
    /// and from its owner's index, keeping both dense.
    pub fn cancel_supply(&mut self, order_id: u64) -> (r: Result<(), Error>)
        requires
            old(self).wf(),
        ensures
            final(self).wf(),
            match old(self).orders.supply_find(order_id) {
                None => {
                    &&& r == Err::<(), Error>(Error::OrderNotFound)
                    &&& same_state(*old(self), *final(self))
                },
                Some(o) => {
                    if unreserve_ok(old(self).ledger, o.stoken, o.owner, o.total) {
                        let pre_ids = old(self).orders.owned_supply_ids(o.owner);
                        &&& r == Ok::<(), Error>(())
                        &&& same_config(*old(self), *final(self))
                        &&& unreserve_post(
                            old(self).ledger,
                            final(self).ledger,
                            o.stoken,
                            o.owner,
                            o.total,
                        )
                        &&& final(self).orders.supply_find(order_id) is None
                        &&& forall|oid: u64|
                            oid != order_id ==> #[trigger] final(self).orders.supply_find(oid)
                                == old(self).orders.supply_find(oid)
                        &&& final(self).orders.supplies@.len() == old(self).orders.supplies@.len()
                            - 1
                        &&& exists|i: int|
                            0 <= i < old(self).orders.supplies@.len() && old(
                                self,
                            ).orders.supplies@[i] == o && final(self).orders.supplies@
                                == swap_removed(old(self).orders.supplies@, i)
                        &&& exists|k: int|
                            0 <= k < pre_ids.len() && pre_ids[k] == order_id
                                && final(self).orders.owned_supply_ids(o.owner)
                                == swap_removed(pre_ids, k)
                        &&& forall|w: u64|
                            w != o.owner ==> #[trigger] final(self).orders.owned_supply_ids(w)
                                == old(self).orders.owned_supply_ids(w)
                        &&& final(self).orders.borrows@ == old(self).orders.borrows@
                        &&& final(self).orders.owned_borrows@ == old(self).orders.owned_borrows@
                        &&& final(self).orders.nonce == old(self).orders.nonce
                    } else {
                        &&& r == Err::<(), Error>(
                            unreserve_err(old(self).ledger, o.stoken, o.owner, o.total),
                        )
                        &&& same_state(*old(self), *final(self))
                    }
                },
            },
    {
        let i = match self.orders.find_supply_idx(order_id) {
            Some(i) => i,
            None => {
                return Err(Error::OrderNotFound);
            },
        };
        let stoken = self.orders.supplies[i].stoken;
        let owner = self.orders.supplies[i].owner;
        let total = self.orders.supplies[i].total;
        match self.ledger.unreserve(stoken, owner, total) {
            Err(e) => {
                return Err(e);
            },
            Ok(()) => {},
        }
        self.orders.remove_supply_at(i);
        Ok(())
    }

    /// The admin account id.
    pub fn admin(&self) -> (r: u64)
        ensures
            r == self.admin,
    {
        self.admin
    }

    /// The id the next registered asset will get.
    pub fn token_id(&self) -> (r: u64)
        requires
            self.wf(),
        ensures
            r as int == self.next_token_id(),
    {
        let len: usize = self.tokens.len();
        self.first_token_id + len as u64
    }

    /// The registered token with id `token_id`, if any.
    pub fn token_details(&self, token_id: u64) -> (r: Option<&Erc20Token>)
        ensures
            match r {
                Some(t) => self.token_exists(token_id) && *t == self.spec_token(token_id),
                None => !self.token_exists(token_id),
            },
    {
        if token_id >= self.first_token_id {
            let off = token_id - self.first_token_id;
            let len: usize = self.tokens.len();
            if off < len as u64 {
                return Some(&self.tokens[off as usize]);
            }
        }
        None
    }

    /// The whole holding of `account` for `asset`; zero when no record
    /// exists.
    pub fn balance_of(&self, asset: u64, account: u64) -> (r: u128)
        ensures
            r as int == self.ledger.spec_balance(asset, account),
    {
        self.ledger.balance_of(asset, account)
    }

    /// The free holding of `account` for `asset`; zero when no record
    /// exists.
    pub fn free_balance_of(&self, asset: u64, account: u64) -> (r: u128)
        ensures
            r as int == self.ledger.spec_free(asset, account),
    {
        self.ledger.free_balance_of(asset, account)
    }

    /// The reserved holding of `account` for `asset`; zero when no record
    /// exists.
    pub fn reserve_balance_of(&self, asset: u64, account: u64) -> (r: u128)
        ensures
            r as int == self.ledger.spec_reserved(asset, account),
    {
        self.ledger.reserve_balance_of(asset, account)
    }

    /// The allowance granted by `owner` to `spender` for `asset`; zero when
    /// no record exists.
    pub fn allowance(&self, asset: u64, owner: u64, spender: u64) -> (r: u128)
        ensures
            r as int == self.ledger.spec_allowance(asset, owner, spender),
    {
        self.ledger.allowance(asset, owner, spender)
    }

    /// The borrow order with the given id, if any.
    pub fn borrow_order_detail(&self, id: u64) -> (r: Option<BorrowOrder>)
        ensures
            r == self.orders.borrow_find(id),
    {
        match self.orders.find_borrow_idx(id) {
            Some(i) => Some(self.orders.borrows[i]),
            None => None,
        }
    }

    /// The owner of the borrow order with the given id, if any.
    pub fn owner_of_borrow(&self, id: u64) -> (r: Option<u64>)
        ensures
            match self.orders.borrow_find(id) {
                Some(o) => r == Some(o.owner),
                None => r is None,
            },
    {
        match self.orders.find_borrow_idx(id) {
            Some(i) => Some(self.orders.borrows[i].owner),
            None => None,
        }
    }

    /// The number of live borrow orders.
    pub fn borrow_order_count(&self) -> (r: u64)
        ensures
            r as int == self.orders.borrows@.len(),
    {
        self.orders.borrows.len() as u64
    }

    /// The id of the borrow order at the given global index, if any.
    pub fn borrow_by_index(&self, index: u64) -> (r: Option<u64>)
        ensures
            r == (if index < self.orders.borrows@.len() {
                Some(self.orders.borrows@[index as int].id)
            } else {
                None::<u64>
            }),
    {
        let len: usize = self.orders.borrows.len();
        if index < len as u64 {
            Some(self.orders.borrows[index as usize].id)
        } else {
            None
        }
    }

    /// The number of live borrow orders of `owner`.
    pub fn owned_borrow_count(&self, owner: u64) -> (r: u64)
        ensures
            r as int == self.orders.owned_borrow_ids(owner).len(),
    {
        match find_owned_idx(&self.orders.owned_borrows, owner) {
            Some(p) => self.orders.owned_borrows[p].ids.len() as u64,
            None => 0,
        }
    }

    /// The id of `owner`'s borrow order at the given per-owner index, if
    /// any.
    pub fn borrow_of_owner_by_index(&self, owner: u64, index: u64) -> (r: Option<u64>)
        ensures
            r == (if index < self.orders.owned_borrow_ids(owner).len() {
                Some(self.orders.owned_borrow_ids(owner)[index as int])
            } else {
                None::<u64>
            }),
    {
        match find_owned_idx(&self.orders.owned_borrows, owner) {
            Some(p) => {
                let len: usize = self.orders.owned_borrows[p].ids.len();
                if index < len as u64 {
                    Some(self.orders.owned_borrows[p].ids[index as usize])
                } else {
                    None
                }
            },
            None => None,
        }
    }

    /// The supply order with the given id, if any.
    pub fn supply_order_detail(&self, id: u64) -> (r: Option<&SupplyOrder>)
        ensures
            match r {
                Some(o) => self.orders.supply_find(id) == Some(*o),
                None => self.orders.supply_find(id) is None,
            },
    {
        match self.orders.find_supply_idx(id) {
            Some(i) => Some(&self.orders.supplies[i]),
            None => None,
        }
    }

    /// The owner of the supply order with the given id, if any.
    pub fn owner_of_supply(&self, id: u64) -> (r: Option<u64>)
        ensures
            match self.orders.supply_find(id) {
                Some(o) => r == Some(o.owner),
                None => r is None,
            },
    {
        match self.orders.find_supply_idx(id) {
            Some(i) => Some(self.orders.supplies[i].owner),
            None => None,
        }
    }

    /// The number of live supply orders.
    pub fn supply_order_count(&self) -> (r: u64)
        ensures
            r as int == self.orders.supplies@.len(),
    {
        self.orders.supplies.len() as u64
    }

    /// The id of the supply order at the given global index, if any.
    pub fn supply_by_index(&self, index: u64) -> (r: Option<u64>)
        ensures
            r == (if index < self.orders.supplies@.len() {
                Some(self.orders.supplies@[index as int].id)
            } else {
                None::<u64>
            }),
    {
        let len: usize = self.orders.supplies.len();
        if index < len as u64 {
            Some(self.orders.supplies[index as usize].id)
        } else {
            None
        }
    }

    /// The number of live supply orders of `owner`.
    pub fn owned_supply_count(&self, owner: u64) -> (r: u64)
        ensures
            r as int == self.orders.owned_supply_ids(owner).len(),
    {
        match find_owned_idx(&self.orders.owned_supplies, owner) {
            Some(p) => self.orders.owned_supplies[p].ids.len() as u64,
            None => 0,
        }
    }

    /// The id of `owner`'s supply order at the given per-owner index, if
    /// any.
    pub fn supply_of_owner_by_index(&self, owner: u64, index: u64) -> (r: Option<u64>)
        ensures
            r == (if index < self.orders.owned_supply_ids(owner).len() {
                Some(self.orders.owned_supply_ids(owner)[index as int])
            } else {
                None::<u64>
            }),
    {
        match find_owned_idx(&self.orders.owned_supplies, owner) {
            Some(p) => {
                let len: usize = self.orders.owned_supplies[p].ids.len();
                if index < len as u64 {
                    Some(self.orders.owned_supplies[p].ids[index as usize])
                } else {
                    None
                }
            },
            None => None,
        }
    }
}

} // verus!
