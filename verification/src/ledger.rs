use vstd::prelude::*;

use crate::errors::Error;
use crate::keyed::{
    find_keyed, lemma_find_first, lemma_find_none_of, lemma_find_props, lemma_find_push,
    lemma_find_update, lemma_push_unique_keys, lemma_update_unique_keys, unique_keys, Keyed,
};

verus! {

/// The balance record of one account for one asset.
///
/// `balance` is the whole holding, `free` the transferable part and
/// `reserved` the part escrowed against pending orders.  A key with no record
/// reads as all-zero.
#[derive(Clone, Copy, Debug, PartialEq, Eq, Structural)]
pub struct BalanceEntry {
    pub asset: u64,
    pub account: u64,
    pub balance: u128,
    pub free: u128,
    pub reserved: u128,
}

impl Keyed for BalanceEntry {
    type Key = (u64, u64);

    open spec fn key(&self) -> (u64, u64) {
        (self.asset, self.account)
    }
}

/// The allowance granted by `owner` to `spender` for one asset.
#[derive(Clone, Copy, Debug, PartialEq, Eq, Structural)]
pub struct AllowanceEntry {
    pub asset: u64,
    pub owner: u64,
    pub spender: u64,
    pub amount: u128,
}

impl Keyed for AllowanceEntry {
    type Key = (u64, u64, u64);

    open spec fn key(&self) -> (u64, u64, u64) {
        (self.asset, self.owner, self.spender)
    }
}

/// The per-asset, per-account ledger: balances with reservation semantics and
/// delegated-transfer allowances.
pub struct Ledger {
    pub balances: Vec<BalanceEntry>,
    pub allowances: Vec<AllowanceEntry>,
}

impl Ledger {
    /// The balance record of `account` for `asset`, if one exists.
    pub open spec fn bal_find(&self, asset: u64, account: u64) -> Option<BalanceEntry> {
        find_keyed(self.balances@, (asset, account))
    }

    /// Whether `account` has a balance record for `asset`.
    pub open spec fn has_account(&self, asset: u64, account: u64) -> bool {
        self.bal_find(asset, account) is Some
    }

    /// The whole holding of `account` for `asset`; zero when no record exists.
    pub open spec fn spec_balance(&self, asset: u64, account: u64) -> int {
        match self.bal_find(asset, account) {
            Some(e) => e.balance as int,
            None => 0,
        }
    }

    /// The transferable holding of `account` for `asset`; zero when no record
    /// exists.
    pub open spec fn spec_free(&self, asset: u64, account: u64) -> int {
        match self.bal_find(asset, account) {
            Some(e) => e.free as int,
            None => 0,
        }
    }

    /// The escrowed holding of `account` for `asset`; zero when no record
    /// exists.
    pub open spec fn spec_reserved(&self, asset: u64, account: u64) -> int {
        match self.bal_find(asset, account) {
            Some(e) => e.reserved as int,
            None => 0,
        }
    }

    /// The allowance record for `(asset, owner, spender)`, if one exists.
    pub open spec fn allow_find(&self, asset: u64, owner: u64, spender: u64) -> Option<
        AllowanceEntry,
    > {
        find_keyed(self.allowances@, (asset, owner, spender))
    }

    /// Whether an allowance record exists for `(asset, owner, spender)`.
    pub open spec fn has_allowance(&self, asset: u64, owner: u64, spender: u64) -> bool {
        self.allow_find(asset, owner, spender) is Some
    }

    /// The allowance granted by `owner` to `spender` for `asset`; zero when no
    /// record exists.
    pub open spec fn spec_allowance(&self, asset: u64, owner: u64, spender: u64) -> int {
        match self.allow_find(asset, owner, spender) {
            Some(e) => e.amount as int,
            None => 0,
        }
    }

    /// Every balance record splits its whole holding into free and reserved
    /// parts: `balance == free + reserved`.
    pub open spec fn balanced(&self) -> bool {
        forall|i: int|
            #![trigger self.balances@[i]]
            0 <= i < self.balances@.len() ==> self.balances@[i].balance == self.balances@[i].free
                + self.balances@[i].reserved
    }

    /// Well-formedness: records carry pairwise distinct keys and every record
    /// is balanced.  Constructors establish it and every operation preserves
    /// it.
    pub open spec fn wf(&self) -> bool {
        &&& unique_keys(self.balances@)
        &&& unique_keys(self.allowances@)
        &&& self.balanced()
    }

    /// The sum of `balance` over all accounts for `asset`.
    pub open spec fn sum_balances(&self, asset: u64) -> int {
        sum_balances_seq(self.balances@, asset)
    }
}

/// The contribution of one record to the total supply of `asset`.
pub open spec fn balance_contrib(e: BalanceEntry, asset: u64) -> int {
    if e.asset == asset {
        e.balance as int
    } else {
        0
    }
}

/// The sum of `balance` over the records of `s` that belong to `asset`.
pub open spec fn sum_balances_seq(s: Seq<BalanceEntry>, asset: u64) -> int
    decreases s.len(),
{
    if s.len() == 0 {
        0
    } else {
        sum_balances_seq(s.drop_last(), asset) + balance_contrib(s.last(), asset)
    }
}

proof fn lemma_sum_update(s: Seq<BalanceEntry>, i: int, e: BalanceEntry, asset: u64)
    requires
        0 <= i < s.len(),
    ensures
        sum_balances_seq(s.update(i, e), asset) == sum_balances_seq(s, asset) - balance_contrib(
            s[i],
            asset,
        ) + balance_contrib(e, asset),
    decreases s.len(),
{
    if i == s.len() - 1 {
        assert(s.update(i, e).drop_last() =~= s.drop_last());
        assert(s.update(i, e).last() == e);
    } else {
        assert(s.update(i, e).drop_last() =~= s.drop_last().update(i, e));
        assert(s.update(i, e).last() == s.last());
        lemma_sum_update(s.drop_last(), i, e, asset);
    }
}

proof fn lemma_sum_push(s: Seq<BalanceEntry>, e: BalanceEntry, asset: u64)
    ensures
        sum_balances_seq(s.push(e), asset) == sum_balances_seq(s, asset) + balance_contrib(
            e,
            asset,
        ),
{
    assert(s.push(e).drop_last() =~= s);
    assert(s.push(e).last() == e);
}

/// Neither store of the ledger changed.
pub open spec fn unchanged(pre: Ledger, post: Ledger) -> bool {
    &&& post.balances@ == pre.balances@
    &&& post.allowances@ == pre.allowances@
}

/// The inputs on which a transfer succeeds: the sender has a record with
/// sufficient whole and free balance, and crediting the receiver overflows
/// neither of its fields.  A transfer to oneself moves nothing and needs no
/// headroom.
pub open spec fn transfer_ok(pre: Ledger, asset: u64, from: u64, to: u64, value: u128) -> bool {
    &&& pre.has_account(asset, from)
    &&& pre.spec_balance(asset, from) >= value
    &&& pre.spec_free(asset, from) >= value
    &&& (from != to ==> pre.spec_balance(asset, to) + value <= u128::MAX)
    &&& (from != to ==> pre.spec_free(asset, to) + value <= u128::MAX)
}

/// The error reported for the first failing transfer precondition.
pub open spec fn transfer_err(pre: Ledger, asset: u64, from: u64, to: u64, value: u128) -> Error {
    if !pre.has_account(asset, from) {
        Error::NoSuchAccount
    } else if pre.spec_balance(asset, from) < value {
        Error::InsufficientBalance
    } else if pre.spec_free(asset, from) < value {
        Error::InsufficientFree
    } else {
        Error::Overflow
    }
}

/// How a successful transfer changes the balance store: `value` moves from
/// the sender's `balance`/`free` to the receiver's, reserved parts and all
/// other records stay.
pub open spec fn balances_transfer_post(
    pre: Ledger,
    post: Ledger,
    asset: u64,
    from: u64,
    to: u64,
    value: u128,
) -> bool {
    if from == to {
        post.balances@ == pre.balances@
    } else {
        &&& post.has_account(asset, from)
        &&& post.has_account(asset, to)
        &&& post.spec_balance(asset, from) == pre.spec_balance(asset, from) - value
        &&& post.spec_free(asset, from) == pre.spec_free(asset, from) - value
        &&& post.spec_reserved(asset, from) == pre.spec_reserved(asset, from)
        &&& post.spec_balance(asset, to) == pre.spec_balance(asset, to) + value
        &&& post.spec_free(asset, to) == pre.spec_free(asset, to) + value
        &&& post.spec_reserved(asset, to) == pre.spec_reserved(asset, to)
        &&& forall|a: u64, c: u64|
            #![trigger post.bal_find(a, c)]
            !(a == asset && (c == from || c == to)) ==> post.bal_find(a, c) == pre.bal_find(a, c)
    }
}

/// How a successful transfer changes the whole ledger.
pub open spec fn transfer_post(
    pre: Ledger,
    post: Ledger,
    asset: u64,
    from: u64,
    to: u64,
    value: u128,
) -> bool {
    &&& balances_transfer_post(pre, post, asset, from, to, value)
    &&& post.allowances@ == pre.allowances@
}

/// The inputs on which a reservation succeeds.
pub open spec fn reserve_ok(pre: Ledger, asset: u64, account: u64, value: u128) -> bool {
    pre.has_account(asset, account) && pre.spec_free(asset, account) >= value
}

/// The error reported for the first failing reservation precondition.
pub open spec fn reserve_err(pre: Ledger, asset: u64, account: u64, value: u128) -> Error {
    if !pre.has_account(asset, account) {
        Error::NoSuchAccount
    } else {
        Error::InsufficientFree
    }
}

/// How a successful reservation changes the ledger: `value` moves from free
/// to reserved, the whole balance and every other record stay.
pub open spec fn reserve_post(
    pre: Ledger,
    post: Ledger,
    asset: u64,
    account: u64,
    value: u128,
) -> bool {
    &&& post.allowances@ == pre.allowances@
    &&& post.has_account(asset, account)
    &&& post.spec_balance(asset, account) == pre.spec_balance(asset, account)
    &&& post.spec_free(asset, account) == pre.spec_free(asset, account) - value
    &&& post.spec_reserved(asset, account) == pre.spec_reserved(asset, account) + value
    &&& forall|a: u64, c: u64|
        #![trigger post.bal_find(a, c)]
        !(a == asset && c == account) ==> post.bal_find(a, c) == pre.bal_find(a, c)
}

/// The inputs on which an unreservation succeeds.
pub open spec fn unreserve_ok(pre: Ledger, asset: u64, account: u64, value: u128) -> bool {
    pre.has_account(asset, account) && pre.spec_reserved(asset, account) >= value
}

/// The error reported for the first failing unreservation precondition.
pub open spec fn unreserve_err(pre: Ledger, asset: u64, account: u64, value: u128) -> Error {
    if !pre.has_account(asset, account) {
        Error::NoSuchAccount
    } else {
        Error::InsufficientReserved
    }
}

/// How a successful unreservation changes the ledger: `value` moves from
/// reserved back to free.
pub open spec fn unreserve_post(
    pre: Ledger,
    post: Ledger,
    asset: u64,
    account: u64,
    value: u128,
) -> bool {
    &&& post.allowances@ == pre.allowances@
    &&& post.has_account(asset, account)
    &&& post.spec_balance(asset, account) == pre.spec_balance(asset, account)
    &&& post.spec_free(asset, account) == pre.spec_free(asset, account) + value
    &&& post.spec_reserved(asset, account) == pre.spec_reserved(asset, account) - value
    &&& forall|a: u64, c: u64|
        #![trigger post.bal_find(a, c)]
        !(a == asset && c == account) ==> post.bal_find(a, c) == pre.bal_find(a, c)
}

/// The inputs on which an approval succeeds: the owner holds a record for the
/// asset and the accumulated allowance fits.
pub open spec fn approve_ok(pre: Ledger, asset: u64, owner: u64, spender: u64, value: u128) -> bool {
    &&& pre.has_account(asset, owner)
    &&& pre.spec_allowance(asset, owner, spender) + value <= u128::MAX
}

/// The error reported for the first failing approval precondition.
pub open spec fn approve_err(pre: Ledger, asset: u64, owner: u64, spender: u64, value: u128) -> Error {
    if !pre.has_account(asset, owner) {
        Error::NoSuchAccount
    } else {
        Error::Overflow
    }
}

/// How a successful approval changes the ledger: the allowance grows by
/// `value` (approvals accumulate), balances and other allowances stay.
pub open spec fn approve_post(
    pre: Ledger,
    post: Ledger,
    asset: u64,
    owner: u64,
    spender: u64,
    value: u128,
) -> bool {
    &&& post.balances@ == pre.balances@
    &&& post.has_allowance(asset, owner, spender)
    &&& post.spec_allowance(asset, owner, spender) == pre.spec_allowance(asset, owner, spender)
        + value
    &&& forall|a: u64, o: u64, sp: u64|
        #![trigger post.allow_find(a, o, sp)]
        !(a == asset && o == owner && sp == spender) ==> post.allow_find(a, o, sp)
            == pre.allow_find(a, o, sp)
}

/// The inputs on which a delegated transfer succeeds: an allowance record
/// from `from` to `to` exists with sufficient amount, and the underlying
/// transfer succeeds.
pub open spec fn transfer_from_ok(
    pre: Ledger,
    asset: u64,
    from: u64,
    to: u64,
    value: u128,
) -> bool {
    &&& pre.has_allowance(asset, from, to)
    &&& pre.spec_allowance(asset, from, to) >= value
    &&& transfer_ok(pre, asset, from, to, value)
}

/// The error reported for the first failing delegated-transfer precondition.
pub open spec fn transfer_from_err(
    pre: Ledger,
    asset: u64,
    from: u64,
    to: u64,
    value: u128,
) -> Error {
    if !pre.has_allowance(asset, from, to) {
        Error::NoAllowance
    } else if pre.spec_allowance(asset, from, to) < value {
        Error::InsufficientAllowance
    } else {
        transfer_err(pre, asset, from, to, value)
    }
}

/// How a successful delegated transfer changes the ledger: the balances move
/// as in a plain transfer and the consumed allowance shrinks by `value`.
pub open spec fn transfer_from_post(
    pre: Ledger,
    post: Ledger,
    asset: u64,
    from: u64,
    to: u64,
    value: u128,
) -> bool {
    &&& balances_transfer_post(pre, post, asset, from, to, value)
    &&& post.has_allowance(asset, from, to)
    &&& post.spec_allowance(asset, from, to) == pre.spec_allowance(asset, from, to) - value
    &&& forall|a: u64, o: u64, sp: u64|
        #![trigger post.allow_find(a, o, sp)]
        !(a == asset && o == from && sp == to) ==> post.allow_find(a, o, sp) == pre.allow_find(
            a,
            o,
            sp,
        )
}

impl Ledger {
    /// An empty ledger: no balance records, no allowances.
    pub fn new() -> (l: Ledger)
        ensures
            l.wf(),
            l.balances@.len() == 0,
            l.allowances@.len() == 0,
    {
        Ledger { balances: Vec::new(), allowances: Vec::new() }
    }

    /// The position of the balance record of `(asset, account)`, if any.
    fn find_balance_idx(&self, asset: u64, account: u64) -> (r: Option<usize>)
        ensures
            match r {
                Some(i) => {
                    &&& i < self.balances@.len()
                    &&& self.balances@[i as int].asset == asset
                    &&& self.balances@[i as int].account == account
                    &&& forall|j: int|
                        0 <= j < i ==> #[trigger] self.balances@[j].key() != (asset, account)
                    &&& self.bal_find(asset, account) == Some(self.balances@[i as int])
                },
                None => self.bal_find(asset, account) is None,
            },
    {
        let n = self.balances.len();
        let mut i: usize = 0;
        while i < n
            invariant
                n == self.balances@.len(),
                i <= n,
                forall|j: int| 0 <= j < i ==> #[trigger] self.balances@[j].key() != (asset, account),
            decreases n - i,
        {
            let e = &self.balances[i];
            if e.asset == asset && e.account == account {
                proof {
                    lemma_find_first(self.balances@, (asset, account), i as int);
                }
                return Some(i);
            }
            assert(self.balances@[i as int].key() != (asset, account));
            i = i + 1;
        }
        proof {
            lemma_find_none_of(self.balances@, (asset, account));
        }
        None
    }

    /// The position of the allowance record of `(asset, owner, spender)`, if
    /// any.
    fn find_allowance_idx(&self, asset: u64, owner: u64, spender: u64) -> (r: Option<usize>)
        ensures
            match r {
                Some(i) => {
                    &&& i < self.allowances@.len()
                    &&& self.allowances@[i as int].asset == asset
                    &&& self.allowances@[i as int].owner == owner
                    &&& self.allowances@[i as int].spender == spender
                    &&& forall|j: int|
                        0 <= j < i ==> #[trigger] self.allowances@[j].key() != (
                            asset,
                            owner,
                            spender,
                        )
                    &&& self.allow_find(asset, owner, spender) == Some(
                        self.allowances@[i as int],
                    )
                },
                None => self.allow_find(asset, owner, spender) is None,
            },
    {
        let n = self.allowances.len();
        let mut i: usize = 0;
        while i < n
            invariant
                n == self.allowances@.len(),
                i <= n,
                forall|j: int|
                    0 <= j < i ==> #[trigger] self.allowances@[j].key() != (asset, owner, spender),
            decreases n - i,
        {
            let e = &self.allowances[i];
            if e.asset == asset && e.owner == owner && e.spender == spender {
                proof {
                    lemma_find_first(self.allowances@, (asset, owner, spender), i as int);
                }
                return Some(i);
            }
            assert(self.allowances@[i as int].key() != (asset, owner, spender));
            i = i + 1;
        }
        proof {
            lemma_find_none_of(self.allowances@, (asset, owner, spender));
        }
        None
    }

    /// Move `value` of `asset` from `from` to `to`.
    ///
    /// Requires an existing record with sufficient whole and free balance on
    /// the sender's side; both the sender's and the receiver's records change
    /// together or not at all.  The sum of `balance` over all accounts is
    /// invariant for every asset, whether the transfer succeeds or fails.
    pub fn transfer(&mut self, asset: u64, from: u64, to: u64, value: u128) -> (r: Result<
        (),
        Error,
    >)
        requires
            old(self).wf(),
        ensures
            final(self).wf(),
            r == (if transfer_ok(*old(self), asset, from, to, value) {
                Ok::<(), Error>(())
            } else {
                Err::<(), Error>(transfer_err(*old(self), asset, from, to, value))
            }),
            r is Ok ==> transfer_post(*old(self), *final(self), asset, from, to, value),
            r is Err ==> unchanged(*old(self), *final(self)),
            forall|a: u64| #[trigger] final(self).sum_balances(a) == old(self).sum_balances(a),
    {
        let ghost pre = *self;
        let from_opt = self.find_balance_idx(asset, from);
        let i = match from_opt {
            Some(i) => i,
            None => {
                return Err(Error::NoSuchAccount);
            },
        };
        let fe = self.balances[i];
        if fe.balance < value {
            return Err(Error::InsufficientBalance);
        }
        if fe.free < value {
            return Err(Error::InsufficientFree);
        }
        if from == to {
            return Ok(());
        }
        let to_opt = self.find_balance_idx(asset, to);
        let (rb, rf) = match to_opt {
            Some(j) => (self.balances[j].balance, self.balances[j].free),
            None => (0u128, 0u128),
        };
        if rb > u128::MAX - value {
            return Err(Error::Overflow);
        }
        if rf > u128::MAX - value {
            return Err(Error::Overflow);
        }
        let new_from = BalanceEntry { balance: fe.balance - value, free: fe.free - value, ..fe };
        self.balances.set(i, new_from);
        let ghost mid = *self;
        proof {
            lemma_update_unique_keys(pre.balances@, i as int, new_from);
            assert forall|kk: (u64, u64)| #[trigger]
                find_keyed(mid.balances@, kk) == (if kk == (asset, from) {
                    Some(new_from)
                } else {
                    find_keyed(pre.balances@, kk)
                }) by {
                lemma_find_update(pre.balances@, i as int, new_from, kk);
            }
        }
        match to_opt {
            Some(j) => {
                let te = self.balances[j];
                let new_to = BalanceEntry {
                    balance: te.balance + value,
                    free: te.free + value,
                    ..te
                };
                self.balances.set(j, new_to);
                proof {
                    assert(j != i);
                    assert(te == pre.balances@[j as int]);
                    assert(te.balance == rb && te.free == rf);
                    assert forall|l: int| 0 <= l < j implies #[trigger] mid.balances@[l].key()
                        != mid.balances@[j as int].key() by {
                        assert(mid.balances@[l].key() == pre.balances@[l].key());
                        assert(pre.balances@[l].key() != (asset, to));
                    }
                    lemma_update_unique_keys(mid.balances@, j as int, new_to);
                    assert forall|kk: (u64, u64)| #[trigger]
                        find_keyed(self.balances@, kk) == (if kk == (asset, to) {
                            Some(new_to)
                        } else {
                            find_keyed(mid.balances@, kk)
                        }) by {
                        lemma_find_update(mid.balances@, j as int, new_to, kk);
                    }
                    assert forall|a: u64| #[trigger]
                        self.sum_balances(a) == pre.sum_balances(a) by {
                        lemma_sum_update(pre.balances@, i as int, new_from, a);
                        lemma_sum_update(mid.balances@, j as int, new_to, a);
                    }
                    assert(self.balanced()) by {
                        assert(pre.balances@[i as int].balance == pre.balances@[i as int].free
                            + pre.balances@[i as int].reserved);
                        assert(pre.balances@[j as int].balance == pre.balances@[j as int].free
                            + pre.balances@[j as int].reserved);
                        assert forall|l: int|
                            0 <= l < self.balances@.len() implies #[trigger] self.balances@[l].balance
                            == self.balances@[l].free + self.balances@[l].reserved by {
                            if l != i && l != j {
                                assert(self.balances@[l] == pre.balances@[l]);
                            }
                        }
                    }
                }
                Ok(())
            },
            None => {
                let new_to = BalanceEntry {
                    asset,
                    account: to,
                    balance: value,
                    free: value,
                    reserved: 0,
                };
                self.balances.push(new_to);
                proof {
                    assert(find_keyed(mid.balances@, (asset, to)) is None);
                    lemma_push_unique_keys(mid.balances@, new_to);
                    assert forall|kk: (u64, u64)| #[trigger]
                        find_keyed(self.balances@, kk) == (if kk == (asset, to) {
                            Some(new_to)
                        } else {
                            find_keyed(mid.balances@, kk)
                        }) by {
                        lemma_find_push(mid.balances@, new_to, kk);
                    }
                    assert forall|a: u64| #[trigger]
                        self.sum_balances(a) == pre.sum_balances(a) by {
                        lemma_sum_update(pre.balances@, i as int, new_from, a);
                        lemma_sum_push(mid.balances@, new_to, a);
                    }
                    assert(self.balanced()) by {
                        assert(pre.balances@[i as int].balance == pre.balances@[i as int].free
                            + pre.balances@[i as int].reserved);
                        assert forall|l: int|
                            0 <= l < self.balances@.len() implies #[trigger] self.balances@[l].balance
                            == self.balances@[l].free + self.balances@[l].reserved by {
                            if l < pre.balances@.len() && l != i {
                                assert(self.balances@[l] == pre.balances@[l]);
                            }
                        }
                    }
                }
                Ok(())
            },
        }
    }

    /// Move `value` of `asset` from `account`'s free balance into its
    /// reserved balance.  The whole balance stays untouched.
    pub fn reserve(&mut self, asset: u64, account: u64, value: u128) -> (r: Result<(), Error>)
        requires
            old(self).wf(),
        ensures
            final(self).wf(),
            r == (if reserve_ok(*old(self), asset, account, value) {
                Ok::<(), Error>(())
            } else {
                Err::<(), Error>(reserve_err(*old(self), asset, account, value))
            }),
            r is Ok ==> reserve_post(*old(self), *final(self), asset, account, value),
            r is Err ==> unchanged(*old(self), *final(self)),
            forall|a: u64| #[trigger] final(self).sum_balances(a) == old(self).sum_balances(a),
    {
        let ghost pre = *self;
        let idx_opt = self.find_balance_idx(asset, account);
        let i = match idx_opt {
            Some(i) => i,
            None => {
                return Err(Error::NoSuchAccount);
            },
        };
        let fe = self.balances[i];
        if fe.free < value {
            return Err(Error::InsufficientFree);
        }
        proof {
            assert(fe.balance == fe.free + fe.reserved);
        }
        let new_entry = BalanceEntry { free: fe.free - value, reserved: fe.reserved + value, ..fe };
        self.balances.set(i, new_entry);
        proof {
            lemma_update_unique_keys(pre.balances@, i as int, new_entry);
            assert forall|kk: (u64, u64)| #[trigger]
                find_keyed(self.balances@, kk) == (if kk == (asset, account) {
                    Some(new_entry)
                } else {
                    find_keyed(pre.balances@, kk)
                }) by {
                lemma_find_update(pre.balances@, i as int, new_entry, kk);
            }
            assert forall|a: u64| #[trigger] self.sum_balances(a) == pre.sum_balances(a) by {
                lemma_sum_update(pre.balances@, i as int, new_entry, a);
            }
            assert forall|l: int|
                0 <= l < self.balances@.len() implies #[trigger] self.balances@[l].balance
                == self.balances@[l].free + self.balances@[l].reserved by {
                if l != i {
                    assert(self.balances@[l] == pre.balances@[l]);
                }
            }
        }
        Ok(())
    }

    /// Move `value` of `asset` from `account`'s reserved balance back into
    /// its free balance.  The whole balance stays untouched.
    pub fn unreserve(&mut self, asset: u64, account: u64, value: u128) -> (r: Result<(), Error>)
        requires
            old(self).wf(),
        ensures
            final(self).wf(),
            r == (if unreserve_ok(*old(self), asset, account, value) {
                Ok::<(), Error>(())
            } else {
                Err::<(), Error>(unreserve_err(*old(self), asset, account, value))
            }),
            r is Ok ==> unreserve_post(*old(self), *final(self), asset, account, value),
            r is Err ==> unchanged(*old(self), *final(self)),
            forall|a: u64| #[trigger] final(self).sum_balances(a) == old(self).sum_balances(a),
    {
        let ghost pre = *self;
        let idx_opt = self.find_balance_idx(asset, account);
        let i = match idx_opt {
            Some(i) => i,
            None => {
                return Err(Error::NoSuchAccount);
            },
        };
        let fe = self.balances[i];
        if fe.reserved < value {
            return Err(Error::InsufficientReserved);
        }
        proof {
            assert(fe.balance == fe.free + fe.reserved);
        }
        let new_entry = BalanceEntry { free: fe.free + value, reserved: fe.reserved - value, ..fe };
        self.balances.set(i, new_entry);
        proof {
            lemma_update_unique_keys(pre.balances@, i as int, new_entry);
            assert forall|kk: (u64, u64)| #[trigger]
                find_keyed(self.balances@, kk) == (if kk == (asset, account) {
                    Some(new_entry)
                } else {
                    find_keyed(pre.balances@, kk)
                }) by {
                lemma_find_update(pre.balances@, i as int, new_entry, kk);
            }
            assert forall|a: u64| #[trigger] self.sum_balances(a) == pre.sum_balances(a) by {
                lemma_sum_update(pre.balances@, i as int, new_entry, a);
            }
            assert forall|l: int|
                0 <= l < self.balances@.len() implies #[trigger] self.balances@[l].balance
                == self.balances@[l].free + self.balances@[l].reserved by {
                if l != i {
                    assert(self.balances@[l] == pre.balances@[l]);
                }
            }
        }
        Ok(())
    }

    /// Grant `spender` an additional allowance of `value` of `asset` from
    /// `owner`.  Approvals accumulate: the new allowance is the old one plus
    /// `value`, not `value` itself.
    pub fn approve(&mut self, asset: u64, owner: u64, spender: u64, value: u128) -> (r: Result<
        (),
        Error,
    >)
        requires
            old(self).wf(),
        ensures
            final(self).wf(),
            r == (if approve_ok(*old(self), asset, owner, spender, value) {
                Ok::<(), Error>(())
            } else {
                Err::<(), Error>(approve_err(*old(self), asset, owner, spender, value))
            }),
            r is Ok ==> approve_post(*old(self), *final(self), asset, owner, spender, value),
            r is Err ==> unchanged(*old(self), *final(self)),
    {
        let ghost pre = *self;
        let owner_opt = self.find_balance_idx(asset, owner);
        if owner_opt.is_none() {
            return Err(Error::NoSuchAccount);
        }
        let al_opt = self.find_allowance_idx(asset, owner, spender);
        match al_opt {
            Some(ai) => {
                let ae = self.allowances[ai];
                if ae.amount > u128::MAX - value {
                    return Err(Error::Overflow);
                }
                let new_ae = AllowanceEntry { amount: ae.amount + value, ..ae };
                self.allowances.set(ai, new_ae);
                proof {
                    lemma_update_unique_keys(pre.allowances@, ai as int, new_ae);
                    assert forall|kk: (u64, u64, u64)| #[trigger]
                        find_keyed(self.allowances@, kk) == (if kk == (asset, owner, spender) {
                            Some(new_ae)
                        } else {
                            find_keyed(pre.allowances@, kk)
                        }) by {
                        lemma_find_update(pre.allowances@, ai as int, new_ae, kk);
                    }
                }
                Ok(())
            },
            None => {
                let new_ae = AllowanceEntry { asset, owner, spender, amount: value };
                self.allowances.push(new_ae);
                proof {
                    lemma_push_unique_keys(pre.allowances@, new_ae);
                    assert forall|kk: (u64, u64, u64)| #[trigger]
                        find_keyed(self.allowances@, kk) == (if kk == (asset, owner, spender) {
                            Some(new_ae)
                        } else {
                            find_keyed(pre.allowances@, kk)
                        }) by {
                        lemma_find_push(pre.allowances@, new_ae, kk);
                    }
                }
                Ok(())
            },
        }
    }

    /// Transfer `value` of `asset` from `from` to `to` on the strength of the
    /// allowance `from` granted to `to`, decrementing that allowance.  The
    /// caller identity is accepted but unused: the authorization consulted is
    /// the allowance granted by `from` to the recipient `to`.
    pub fn transfer_from(
        &mut self,
        asset: u64,
        _spender: u64,
        from: u64,
        to: u64,
        value: u128,
    ) -> (r: Result<(), Error>)
        requires
            old(self).wf(),
        ensures
            final(self).wf(),
            r == (if transfer_from_ok(*old(self), asset, from, to, value) {
                Ok::<(), Error>(())
            } else {
                Err::<(), Error>(transfer_from_err(*old(self), asset, from, to, value))
            }),
            r is Ok ==> transfer_from_post(*old(self), *final(self), asset, from, to, value),
            r is Err ==> unchanged(*old(self), *final(self)),
            forall|a: u64| #[trigger] final(self).sum_balances(a) == old(self).sum_balances(a),
    {
        let ghost pre = *self;
        let al_opt = self.find_allowance_idx(asset, from, to);
        let ai = match al_opt {
            Some(ai) => ai,
            None => {
                return Err(Error::NoAllowance);
            },
        };
        let ae = self.allowances[ai];
        if ae.amount < value {
            return Err(Error::InsufficientAllowance);
        }
        let tr = self.transfer(asset, from, to, value);
        match tr {
            Err(e) => {
                return Err(e);
            },
            Ok(()) => {},
        }
        let ghost mid = *self;
        let new_ae = AllowanceEntry { amount: ae.amount - value, ..ae };
        self.allowances.set(ai, new_ae);
        proof {
            assert(mid.allowances@ == pre.allowances@);
            lemma_update_unique_keys(mid.allowances@, ai as int, new_ae);
            assert forall|kk: (u64, u64, u64)| #[trigger]
                find_keyed(self.allowances@, kk) == (if kk == (asset, from, to) {
                    Some(new_ae)
                } else {
                    find_keyed(mid.allowances@, kk)
                }) by {
                lemma_find_update(mid.allowances@, ai as int, new_ae, kk);
            }
            assert(self.balances@ == mid.balances@);
            assert forall|a: u64| #[trigger]
                self.sum_balances(a) == pre.sum_balances(a) by {
                assert(self.sum_balances(a) == mid.sum_balances(a));
                assert(mid.sum_balances(a) == pre.sum_balances(a));
            }
            if from != to {
                assert(self.bal_find(asset, from) == mid.bal_find(asset, from));
                assert(self.bal_find(asset, to) == mid.bal_find(asset, to));
                assert forall|a: u64, c: u64|
                    !(a == asset && (c == from || c == to)) implies #[trigger] self.bal_find(a, c)
                    == pre.bal_find(a, c) by {
                    assert(self.bal_find(a, c) == mid.bal_find(a, c));
                    assert(mid.bal_find(a, c) == pre.bal_find(a, c));
                }
            }
            assert(balances_transfer_post(pre, *self, asset, from, to, value));
        }
        Ok(())
    }

    /// Set the record of `(asset, account)` to a fully free holding of
    /// `amount`, creating it when absent.  Used by asset registration to
    /// credit the initial supply.
    pub(crate) fn set_initial_balance(&mut self, asset: u64, account: u64, amount: u128)
        requires
            old(self).wf(),
        ensures
            final(self).wf(),
            final(self).allowances@ == old(self).allowances@,
            final(self).has_account(asset, account),
            final(self).spec_balance(asset, account) == amount,
            final(self).spec_free(asset, account) == amount,
            final(self).spec_reserved(asset, account) == 0,
            forall|a: u64, c: u64|
                #![trigger final(self).bal_find(a, c)]
                !(a == asset && c == account) ==> final(self).bal_find(a, c) == old(self).bal_find(
                    a,
                    c,
                ),
    {
        let ghost pre = *self;
        let new_entry = BalanceEntry { asset, account, balance: amount, free: amount, reserved: 0 };
        let idx_opt = self.find_balance_idx(asset, account);
        match idx_opt {
            Some(i) => {
                self.balances.set(i, new_entry);
                proof {
                    lemma_update_unique_keys(pre.balances@, i as int, new_entry);
                    assert forall|kk: (u64, u64)| #[trigger]
                        find_keyed(self.balances@, kk) == (if kk == (asset, account) {
                            Some(new_entry)
                        } else {
                            find_keyed(pre.balances@, kk)
                        }) by {
                        lemma_find_update(pre.balances@, i as int, new_entry, kk);
                    }
                    assert forall|l: int|
                        0 <= l < self.balances@.len() implies #[trigger] self.balances@[l].balance
                        == self.balances@[l].free + self.balances@[l].reserved by {
                        if l != i {
                            assert(self.balances@[l] == pre.balances@[l]);
                        }
                    }
                }
            },
            None => {
                self.balances.push(new_entry);
                proof {
                    lemma_push_unique_keys(pre.balances@, new_entry);
                    assert forall|kk: (u64, u64)| #[trigger]
                        find_keyed(self.balances@, kk) == (if kk == (asset, account) {
                            Some(new_entry)
                        } else {
                            find_keyed(pre.balances@, kk)
                        }) by {
                        lemma_find_push(pre.balances@, new_entry, kk);
                    }
                    assert forall|l: int|
                        0 <= l < self.balances@.len() implies #[trigger] self.balances@[l].balance
                        == self.balances@[l].free + self.balances@[l].reserved by {
                        if l < pre.balances@.len() {
                            assert(self.balances@[l] == pre.balances@[l]);
                        }
                    }
                }
            },
        }
    }

    /// The whole holding of `account` for `asset`; zero when no record
    /// exists.
    pub fn balance_of(&self, asset: u64, account: u64) -> (r: u128)
        ensures
            r as int == self.spec_balance(asset, account),
    {
        match self.find_balance_idx(asset, account) {
            Some(i) => self.balances[i].balance,
            None => 0,
        }
    }

    /// The free holding of `account` for `asset`; zero when no record exists.
    pub fn free_balance_of(&self, asset: u64, account: u64) -> (r: u128)
        ensures
            r as int == self.spec_free(asset, account),
    {
        match self.find_balance_idx(asset, account) {
            Some(i) => self.balances[i].free,
            None => 0,
        }
    }

    /// The reserved holding of `account` for `asset`; zero when no record
    /// exists.
    pub fn reserve_balance_of(&self, asset: u64, account: u64) -> (r: u128)
        ensures
            r as int == self.spec_reserved(asset, account),
    {
        match self.find_balance_idx(asset, account) {
            Some(i) => self.balances[i].reserved,
            None => 0,
        }
    }

    /// Whether `account` has a balance record for `asset`.
    pub fn account_exists(&self, asset: u64, account: u64) -> (r: bool)
        ensures
            r == self.has_account(asset, account),
    {
        self.find_balance_idx(asset, account).is_some()
    }

    /// The allowance granted by `owner` to `spender` for `asset`; zero when
    /// no record exists.
    pub fn allowance(&self, asset: u64, owner: u64, spender: u64) -> (r: u128)
        ensures
            r as int == self.spec_allowance(asset, owner, spender),
    {
        match self.find_allowance_idx(asset, owner, spender) {
            Some(i) => self.allowances[i].amount,
            None => 0,
        }
    }
}

/// Law: in a well-formed ledger the whole balance of every account for every
/// asset equals its free part plus its reserved part.
pub proof fn lemma_account_balanced(l: Ledger, asset: u64, account: u64)
    requires
        l.wf(),
    ensures
        l.spec_balance(asset, account) == l.spec_free(asset, account) + l.spec_reserved(
            asset,
            account,
        ),
{
    match l.bal_find(asset, account) {
        Some(e) => {
            lemma_find_props(l.balances@, (asset, account));
            let i = choose|i: int| 0 <= i < l.balances@.len() && #[trigger] l.balances@[i] == e;
            assert(l.balances@[i].balance == l.balances@[i].free + l.balances@[i].reserved);
        },
        None => {},
    }
}

/// Law: reserving `value` and then unreserving the same `value` restores
/// every account's balance, free and reserved holdings to their prior
/// values, and leaves every allowance untouched.
pub proof fn lemma_reserve_unreserve_round_trip(
    l0: Ledger,
    l1: Ledger,
    l2: Ledger,
    asset: u64,
    account: u64,
    value: u128,
)
    requires
        reserve_post(l0, l1, asset, account, value),
        unreserve_post(l1, l2, asset, account, value),
    ensures
        forall|a: u64, c: u64| #[trigger] l2.bal_find(a, c) == l0.bal_find(a, c) || (a == asset
            && c == account),
        l2.spec_balance(asset, account) == l0.spec_balance(asset, account),
        l2.spec_free(asset, account) == l0.spec_free(asset, account),
        l2.spec_reserved(asset, account) == l0.spec_reserved(asset, account),
        l2.allowances@ == l0.allowances@,
{
}

/// Law: after a successful reservation, unreserving the same amount is owed
/// to succeed.
pub proof fn lemma_unreserve_after_reserve(
    l0: Ledger,
    l1: Ledger,
    asset: u64,
    account: u64,
    value: u128,
)
    requires
        reserve_post(l0, l1, asset, account, value),
    ensures
        unreserve_ok(l1, asset, account, value),
{
}

/// Law: approving `v1` and then `v2` for the same `(asset, owner, spender)`
/// accumulates to the prior allowance plus `v1 + v2`, not to `v2`.
pub proof fn lemma_approve_accumulates(
    l0: Ledger,
    l1: Ledger,
    l2: Ledger,
    asset: u64,
    owner: u64,
    spender: u64,
    v1: u128,
    v2: u128,
)
    requires
        approve_post(l0, l1, asset, owner, spender, v1),
        approve_post(l1, l2, asset, owner, spender, v2),
    ensures
        l2.spec_allowance(asset, owner, spender) == l0.spec_allowance(asset, owner, spender) + v1
            + v2,
        l2.balances@ == l0.balances@,
{
}

} // verus!
