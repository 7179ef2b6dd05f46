use vstd::prelude::*;

use crate::errors::Error;
use crate::keyed::{
    find_keyed, lemma_find_first, lemma_find_none_of, lemma_find_push, lemma_find_swap_removed,
    lemma_find_update, lemma_push_unique_keys, lemma_swap_removed_index,
    lemma_swap_removed_unique_keys, lemma_update_unique_keys, swap_removed, unique_keys, Keyed,
};

verus! {

/// The status state machine of a collateral deposit.
///
/// `Created` is the initial state.  `Hot` marks an escrow activated against
/// an order; `Canceled` and `Filled` are terminal ("finished") states, the
/// only ones from which a deposit may be removed.
#[derive(Clone, Copy, Debug, PartialEq, Eq, Structural)]
pub enum CollateralStatus {
    Created,
    Hot,
    Canceled,
    Filled,
}

/// The deterministic content digest identifying a collateral deposit.
///
/// The hosting environment derives the digest by hashing the encoded
/// `(account, asset, order_id)` triple; the core needs nothing of the digest
/// but determinism and freedom from collisions, so it is modeled by the
/// fields it commits to: two deposits collide exactly when their identifying
/// triples coincide.
#[derive(Clone, Copy, Debug, PartialEq, Eq, Hash, Structural)]
pub struct ContentHash {
    pub account: u64,
    pub asset: u64,
    pub order_id: u64,
}

/// A collateral deposit tied to an external order reference.
#[derive(Clone, Copy, Debug, PartialEq, Eq, Structural)]
pub struct Collateral {
    pub account: u64,
    pub amount: u128,
    pub asset: u64,
    pub status: CollateralStatus,
    pub order_id: u64,
    pub hash: ContentHash,
}

impl Keyed for Collateral {
    type Key = (u64, ContentHash);

    open spec fn key(&self) -> (u64, ContentHash) {
        (self.account, self.hash)
    }
}

impl Collateral {
    /// A fresh deposit in the `Created` state, content-addressed by its
    /// identifying triple.
    pub fn new(account: u64, amount: u128, asset: u64, order_id: u64) -> (c: Collateral)
        ensures
            c == (Collateral {
                account,
                amount,
                asset,
                status: CollateralStatus::Created,
                order_id,
                hash: ContentHash { account, asset, order_id },
            }),
    {
        let hash = ContentHash { account, asset, order_id };
        Collateral { account, amount, asset, status: CollateralStatus::Created, order_id, hash }
    }

    /// A deposit is finished when its status is terminal.
    pub open spec fn spec_finished(&self) -> bool {
        self.status == CollateralStatus::Filled || self.status == CollateralStatus::Canceled
    }

    /// Whether the deposit has reached a terminal status.
    pub fn is_finished(&self) -> (r: bool)
        ensures
            r == self.spec_finished(),
    {
        self.status == CollateralStatus::Filled || self.status == CollateralStatus::Canceled
    }
}

/// The collateral store, keyed by `(account, content hash)`.
pub struct Collaterals {
    pub items: Vec<Collateral>,
}

impl Collaterals {
    /// The deposit stored under `(account, hash)`, if any.
    pub open spec fn col_find(&self, account: u64, hash: ContentHash) -> Option<Collateral> {
        find_keyed(self.items@, (account, hash))
    }

    /// Well-formedness: keys are pairwise distinct and every stored deposit
    /// is addressed by the digest of its own identifying triple.
    pub open spec fn wf(&self) -> bool {
        &&& unique_keys(self.items@)
        &&& forall|i: int|
            #![trigger self.items@[i]]
            0 <= i < self.items@.len() ==> self.items@[i].hash == (ContentHash {
                account: self.items@[i].account,
                asset: self.items@[i].asset,
                order_id: self.items@[i].order_id,
            })
    }

    /// An empty store.
    pub fn new() -> (s: Collaterals)
        ensures
            s.wf(),
            s.items@.len() == 0,
    {
        Collaterals { items: Vec::new() }
    }

    /// The position of the deposit stored under `(account, hash)`, if any.
    fn find_idx(&self, account: u64, hash: ContentHash) -> (r: Option<usize>)
        ensures
            match r {
                Some(i) => {
                    &&& i < self.items@.len()
                    &&& self.items@[i as int].account == account
                    &&& self.items@[i as int].hash == hash
                    &&& forall|j: int|
                        0 <= j < i ==> #[trigger] self.items@[j].key() != (account, hash)
                    &&& self.col_find(account, hash) == Some(self.items@[i as int])
                },
                None => self.col_find(account, hash) is None,
            },
    {
        let n = self.items.len();
        let mut i: usize = 0;
        while i < n
            invariant
                n == self.items@.len(),
                i <= n,
                forall|j: int| 0 <= j < i ==> #[trigger] self.items@[j].key() != (account, hash),
            decreases n - i,
        {
            let e = &self.items[i];
            if e.account == account && e.hash == hash {
                proof {
                    lemma_find_first(self.items@, (account, hash), i as int);
                }
                return Some(i);
            }
            assert(self.items@[i as int].key() != (account, hash));
            i = i + 1;
        }
        proof {
            lemma_find_none_of(self.items@, (account, hash));
        }
        None
    }

    /// The deposit stored under `(account, hash)`, if any.
    pub fn collaterals(&self, account: u64, hash: ContentHash) -> (r: Option<Collateral>)
        ensures
            r == self.col_find(account, hash),
    {
        match self.find_idx(account, hash) {
            Some(i) => Some(self.items[i]),
            None => None,
        }
    }

    /// Deposit new collateral for `account`, addressed by the digest of
    /// `(account, asset, order_id)`.
    ///
    /// Fails with a conflict, leaving the store untouched, exactly when a
    /// deposit with the same identifying triple already exists.  On success
    /// the returned digest addresses the fresh `Created` deposit.
    pub fn do_add_collateral(
        &mut self,
        account: u64,
        amount: u128,
        asset: u64,
        order_id: u64,
    ) -> (r: Result<ContentHash, Error>)
        requires
            old(self).wf(),
        ensures
            final(self).wf(),
            ({
                let h = ContentHash { account, asset, order_id };
                let c = Collateral {
                    account,
                    amount,
                    asset,
                    status: CollateralStatus::Created,
                    order_id,
                    hash: h,
                };
                if old(self).col_find(account, h) is Some {
                    &&& r == Err::<ContentHash, Error>(Error::CollateralConflict)
                    &&& final(self).items@ == old(self).items@
                } else {
                    &&& r == Ok::<ContentHash, Error>(h)
                    &&& final(self).items@ == old(self).items@.push(c)
                    &&& final(self).col_find(account, h) == Some(c)
                    &&& forall|a: u64, hh: ContentHash|
                        #![trigger final(self).col_find(a, hh)]
                        !(a == account && hh == h) ==> final(self).col_find(a, hh) == old(
                            self,
                        ).col_find(a, hh)
                }
            }),
    {
        let ghost pre = *self;
        let c = Collateral::new(account, amount, asset, order_id);
        let hash = c.hash;
        if self.find_idx(account, hash).is_some() {
            return Err(Error::CollateralConflict);
        }
        self.items.push(c);
        proof {
            lemma_push_unique_keys(pre.items@, c);
            assert forall|kk: (u64, ContentHash)| #[trigger]
                find_keyed(self.items@, kk) == (if kk == (account, hash) {
                    Some(c)
                } else {
                    find_keyed(pre.items@, kk)
                }) by {
                lemma_find_push(pre.items@, c, kk);
            }
            assert forall|i: int| 0 <= i < self.items@.len() implies #[trigger] self.items@[i].hash
                == (ContentHash {
                account: self.items@[i].account,
                asset: self.items@[i].asset,
                order_id: self.items@[i].order_id,
            }) by {
                if i < pre.items@.len() {
                    assert(self.items@[i] == pre.items@[i]);
                }
            }
        }
        Ok(hash)
    }

    /// Activate a `Created` deposit: `Created -> Hot`.
    ///
    /// Fails, leaving the store untouched, when the deposit is absent or its
    /// status is not `Created`.
    pub fn do_make_collateral_hot(&mut self, account: u64, hash: ContentHash) -> (r: Result<
        (),
        Error,
    >)
        requires
            old(self).wf(),
        ensures
            final(self).wf(),
            match old(self).col_find(account, hash) {
                None => {
                    &&& r == Err::<(), Error>(Error::CollateralNotFound)
                    &&& final(self).items@ == old(self).items@
                },
                Some(c) => {
                    if c.status == CollateralStatus::Created {
                        &&& r == Ok::<(), Error>(())
                        &&& final(self).col_find(account, hash) == Some(
                            Collateral { status: CollateralStatus::Hot, ..c },
                        )
                        &&& forall|a: u64, hh: ContentHash|
                            #![trigger final(self).col_find(a, hh)]
                            !(a == account && hh == hash) ==> final(self).col_find(a, hh) == old(
                                self,
                            ).col_find(a, hh)
                    } else {
                        &&& r == Err::<(), Error>(Error::CollateralNotCreated)
                        &&& final(self).items@ == old(self).items@
                    }
                },
            },
    {
        let ghost pre = *self;
        let i = match self.find_idx(account, hash) {
            Some(i) => i,
            None => {
                return Err(Error::CollateralNotFound);
            },
        };
        let c = self.items[i];
        if !(c.status == CollateralStatus::Created) {
            return Err(Error::CollateralNotCreated);
        }
        let updated = Collateral { status: CollateralStatus::Hot, ..c };
        self.items.set(i, updated);
        proof {
            lemma_update_unique_keys(pre.items@, i as int, updated);
            assert forall|kk: (u64, ContentHash)| #[trigger]
                find_keyed(self.items@, kk) == (if kk == (account, hash) {
                    Some(updated)
                } else {
                    find_keyed(pre.items@, kk)
                }) by {
                lemma_find_update(pre.items@, i as int, updated, kk);
            }
            assert forall|l: int| 0 <= l < self.items@.len() implies #[trigger] self.items@[l].hash
                == (ContentHash {
                account: self.items@[l].account,
                asset: self.items@[l].asset,
                order_id: self.items@[l].order_id,
            }) by {
                if l != i {
                    assert(self.items@[l] == pre.items@[l]);
                }
            }
        }
        Ok(())
    }

    /// Remove a finished deposit.
    ///
    /// Fails when the deposit is absent, or with a not-finished error, the
    /// entry left intact, when its status is neither `Canceled` nor
    /// `Filled`.
    pub fn do_remove_collateral(&mut self, account: u64, hash: ContentHash) -> (r: Result<
        (),
        Error,
    >)
        requires
            old(self).wf(),
        ensures
            final(self).wf(),
            match old(self).col_find(account, hash) {
                None => {
                    &&& r == Err::<(), Error>(Error::CollateralNotFound)
                    &&& final(self).items@ == old(self).items@
                },
                Some(c) => {
                    if c.spec_finished() {
                        &&& r == Ok::<(), Error>(())
                        &&& final(self).col_find(account, hash) is None
                        &&& forall|a: u64, hh: ContentHash|
                            #![trigger final(self).col_find(a, hh)]
                            !(a == account && hh == hash) ==> final(self).col_find(a, hh) == old(
                                self,
                            ).col_find(a, hh)
                    } else {
                        &&& r == Err::<(), Error>(Error::CollateralNotFinished)
                        &&& final(self).items@ == old(self).items@
                    }
                },
            },
    {
        let ghost pre = *self;
        let i = match self.find_idx(account, hash) {
            Some(i) => i,
            None => {
                return Err(Error::CollateralNotFound);
            },
        };
        let c = self.items[i];
        if !c.is_finished() {
            return Err(Error::CollateralNotFinished);
        }
        self.items.swap_remove(i);
        proof {
            Self::lemma_removed_at(pre, *self, account, hash, i as int);
        }
        Ok(())
    }

    /// Cancel a `Created` deposit and remove it: `Created -> Canceled`,
    /// followed by immediate removal of the then-finished entry.
    ///
    /// Fails, leaving the store untouched, when the deposit is absent or its
    /// status is not `Created`.
    pub fn do_cancel_collateral(&mut self, account: u64, hash: ContentHash) -> (r: Result<
        (),
        Error,
    >)
        requires
            old(self).wf(),
        ensures
            final(self).wf(),
            match old(self).col_find(account, hash) {
                None => {
                    &&& r == Err::<(), Error>(Error::CollateralNotFound)
                    &&& final(self).items@ == old(self).items@
                },
                Some(c) => {
                    if c.status == CollateralStatus::Created {
                        &&& r == Ok::<(), Error>(())
                        &&& final(self).col_find(account, hash) is None
                        &&& forall|a: u64, hh: ContentHash|
                            #![trigger final(self).col_find(a, hh)]
                            !(a == account && hh == hash) ==> final(self).col_find(a, hh) == old(
                                self,
                            ).col_find(a, hh)
                    } else {
                        &&& r == Err::<(), Error>(Error::CollateralNotCreated)
                        &&& final(self).items@ == old(self).items@
                    }
                },
            },
    {
        self.finish_and_remove(account, hash, CollateralStatus::Canceled)
    }

    /// Fill a `Created` deposit and remove it: `Created -> Filled`, followed
    /// by immediate removal of the then-finished entry.
    ///
    /// By design the guard requires the `Created` status — not `Hot` —
    /// before the transition to `Filled`; an activated (`Hot`) deposit stays
    /// in escrow.  Fails, leaving the store untouched, when the deposit is
    /// absent or its status is not `Created`.
    pub fn do_fill_collateral(&mut self, account: u64, hash: ContentHash) -> (r: Result<
        (),
        Error,
    >)
        requires
            old(self).wf(),
        ensures
            final(self).wf(),
            match old(self).col_find(account, hash) {
                None => {
                    &&& r == Err::<(), Error>(Error::CollateralNotFound)
                    &&& final(self).items@ == old(self).items@
                },
                Some(c) => {
                    if c.status == CollateralStatus::Created {
                        &&& r == Ok::<(), Error>(())
                        &&& final(self).col_find(account, hash) is None
                        &&& forall|a: u64, hh: ContentHash|
                            #![trigger final(self).col_find(a, hh)]
                            !(a == account && hh == hash) ==> final(self).col_find(a, hh) == old(
                                self,
                            ).col_find(a, hh)
                    } else {
                        &&& r == Err::<(), Error>(Error::CollateralNotCreated)
                        &&& final(self).items@ == old(self).items@
                    }
                },
            },
    {
        self.finish_and_remove(account, hash, CollateralStatus::Filled)
    }

    /// Shared body of cancellation and filling: guard on `Created`, write the
    /// terminal status, then remove the entry.
    fn finish_and_remove(
        &mut self,
        account: u64,
        hash: ContentHash,
        terminal: CollateralStatus,
    ) -> (r: Result<(), Error>)
        requires
            old(self).wf(),
            terminal == CollateralStatus::Canceled || terminal == CollateralStatus::Filled,
        ensures
            final(self).wf(),
            match old(self).col_find(account, hash) {
                None => {
                    &&& r == Err::<(), Error>(Error::CollateralNotFound)
                    &&& final(self).items@ == old(self).items@
                },
                Some(c) => {
                    if c.status == CollateralStatus::Created {
                        &&& r == Ok::<(), Error>(())
                        &&& final(self).col_find(account, hash) is None
                        &&& forall|a: u64, hh: ContentHash|
                            #![trigger final(self).col_find(a, hh)]
                            !(a == account && hh == hash) ==> final(self).col_find(a, hh) == old(
                                self,
                            ).col_find(a, hh)
                    } else {
                        &&& r == Err::<(), Error>(Error::CollateralNotCreated)
                        &&& final(self).items@ == old(self).items@
                    }
                },
            },
    {
        let ghost pre = *self;
        let i = match self.find_idx(account, hash) {
            Some(i) => i,
            None => {
                return Err(Error::CollateralNotFound);
            },
        };
        let c = self.items[i];
        if !(c.status == CollateralStatus::Created) {
            return Err(Error::CollateralNotCreated);
        }
        let updated = Collateral { status: terminal, ..c };
        self.items.set(i, updated);
        let ghost mid = *self;
        proof {
            lemma_update_unique_keys(pre.items@, i as int, updated);
            assert forall|kk: (u64, ContentHash)| #[trigger]
                find_keyed(mid.items@, kk) == (if kk == (account, hash) {
                    Some(updated)
                } else {
                    find_keyed(pre.items@, kk)
                }) by {
                lemma_find_update(pre.items@, i as int, updated, kk);
            }
            assert forall|l: int| 0 <= l < mid.items@.len() implies #[trigger] mid.items@[l].hash
                == (ContentHash {
                account: mid.items@[l].account,
                asset: mid.items@[l].asset,
                order_id: mid.items@[l].order_id,
            }) by {
                if l != i {
                    assert(mid.items@[l] == pre.items@[l]);
                }
            }
        }
        self.items.swap_remove(i);
        proof {
            Self::lemma_removed_at(mid, *self, account, hash, i as int);
            assert forall|a: u64, hh: ContentHash|
                !(a == account && hh == hash) implies #[trigger] self.col_find(a, hh)
                == pre.col_find(a, hh) by {
                assert(self.col_find(a, hh) == mid.col_find(a, hh));
            }
        }
        Ok(())
    }

    /// After swap-removing the entry at `i`, which holds the key
    /// `(account, hash)`, that key is gone, every other key reads as before,
    /// and the store stays well-formed.
    proof fn lemma_removed_at(
        pre: Collaterals,
        post: Collaterals,
        account: u64,
        hash: ContentHash,
        i: int,
    )
        requires
            pre.wf(),
            0 <= i < pre.items@.len(),
            pre.items@[i].key() == (account, hash),
            post.items@ == swap_removed(pre.items@, i),
        ensures
            post.wf(),
            post.col_find(account, hash) is None,
            forall|a: u64, hh: ContentHash|
                #![trigger post.col_find(a, hh)]
                !(a == account && hh == hash) ==> post.col_find(a, hh) == pre.col_find(a, hh),
    {
        lemma_swap_removed_unique_keys(pre.items@, i);
        lemma_swap_removed_index(pre.items@, i);
        assert forall|kk: (u64, ContentHash)| #[trigger]
            find_keyed(post.items@, kk) == (if kk == (account, hash) {
                None::<Collateral>
            } else {
                find_keyed(pre.items@, kk)
            }) by {
            lemma_find_swap_removed(pre.items@, i, kk);
        }
        assert forall|l: int| 0 <= l < post.items@.len() implies #[trigger] post.items@[l].hash
            == (ContentHash {
            account: post.items@[l].account,
            asset: post.items@[l].asset,
            order_id: post.items@[l].order_id,
        }) by {
            if l == i && i < pre.items@.len() - 1 {
                assert(post.items@[l] == pre.items@[pre.items@.len() - 1]);
            } else {
                assert(post.items@[l] == pre.items@[l]);
            }
        }
    }
}

} // verus!
