use vstd::prelude::*;

use crate::keyed::{
    find_keyed, lemma_find_at, lemma_find_first, lemma_find_none, lemma_find_none_of,
    lemma_find_push, lemma_find_swap_removed, lemma_find_update, lemma_push_unique_keys,
    lemma_swap_removed_index, lemma_swap_removed_no_dup, lemma_swap_removed_unique_keys,
    lemma_update_unique_keys, swap_removed, unique_keys, Keyed,
};

verus! {

/// A request to borrow `btotal` of `btoken_id` against an escrowed
/// collateral of `stotal` of `stoken_id`, at a yearly interest rate of
/// `interest` basis points (parts per 10000).
#[derive(Clone, Copy, Debug, PartialEq, Eq, Structural)]
pub struct BorrowOrder {
    pub id: u64,
    pub owner: u64,
    pub btotal: u128,
    pub btoken_id: u64,
    pub already: u128,
    pub duration: u64,
    pub stotal: u128,
    pub stoken_id: u64,
    pub interest: u32,
}

impl Keyed for BorrowOrder {
    type Key = u64;

    open spec fn key(&self) -> u64 {
        self.id
    }
}

/// An offer to supply `total` of `stoken` against collateral in any of the
/// assets listed in `tokens`, at a collateralization ratio of `amortgage`
/// basis points and a minimum yearly interest of `interest` basis points.
#[derive(Debug)]
pub struct SupplyOrder {
    pub id: u64,
    pub owner: u64,
    pub total: u128,
    pub stoken: u64,
    pub tokens: Vec<u64>,
    pub amortgage: u32,
    pub duration: u64,
    pub interest: u32,
}

impl Keyed for SupplyOrder {
    type Key = u64;

    open spec fn key(&self) -> u64 {
        self.id
    }
}

/// The per-owner index: the ids of one owner's orders, in index order.
#[derive(Debug)]
pub struct OwnedOrders {
    pub owner: u64,
    pub ids: Vec<u64>,
}

impl Keyed for OwnedOrders {
    type Key = u64;

    open spec fn key(&self) -> u64 {
        self.owner
    }
}

/// An order record of either book side: keyed by its id, owned by an
/// account.
pub trait Order: Keyed<Key = u64> {
    /// The owner of this order.
    spec fn owner_of(&self) -> u64;
}

impl Order for BorrowOrder {
    open spec fn owner_of(&self) -> u64 {
        self.owner
    }
}

impl Order for SupplyOrder {
    open spec fn owner_of(&self) -> u64 {
        self.owner
    }
}

/// The ids indexed for `owner`; empty when no index entry exists.
pub open spec fn owned_ids_of(owned: Seq<OwnedOrders>, owner: u64) -> Seq<u64> {
    match find_keyed(owned, owner) {
        Some(l) => l.ids@,
        None => Seq::empty(),
    }
}

/// Well-formedness of one book side: order ids and index owners are pairwise
/// distinct, no owner's list repeats an id, every stored order is indexed
/// under its owner, and every indexed id belongs to a stored order of that
/// owner.
pub open spec fn side_wf<T: Order>(orders: Seq<T>, owned: Seq<OwnedOrders>) -> bool {
    &&& unique_keys(orders)
    &&& unique_keys(owned)
    &&& forall|p: int| #![trigger owned[p]] 0 <= p < owned.len() ==> owned[p].ids@.no_duplicates()
    &&& forall|i: int|
        #![trigger orders[i]]
        0 <= i < orders.len() ==> owned_ids_of(owned, orders[i].owner_of()).contains(
            orders[i].key(),
        )
    &&& forall|p: int, k: int|
        #![trigger owned[p].ids@[k]]
        0 <= p < owned.len() && 0 <= k < owned[p].ids@.len() ==> (match find_keyed(
            orders,
            owned[p].ids@[k],
        ) {
            Some(o) => o.owner_of() == owned[p].owner,
            None => false,
        })
}

/// Inserting a fresh order whose owner already has an index entry at `p`
/// keeps the side well-formed; every lookup changes as stated.
proof fn lemma_side_insert_update<T: Order>(
    orders: Seq<T>,
    owned: Seq<OwnedOrders>,
    o: T,
    p: int,
    e2: OwnedOrders,
)
    requires
        side_wf(orders, owned),
        find_keyed(orders, o.key()) is None,
        0 <= p < owned.len(),
        owned[p].owner == o.owner_of(),
        forall|j: int| 0 <= j < p ==> #[trigger] owned[j].key() != o.owner_of(),
        e2.owner == o.owner_of(),
        e2.ids@ == owned[p].ids@.push(o.key()),
    ensures
        side_wf(orders.push(o), owned.update(p, e2)),
        owned_ids_of(owned, o.owner_of()) == owned[p].ids@,
        owned_ids_of(owned.update(p, e2), o.owner_of()) == owned[p].ids@.push(o.key()),
        forall|w: u64|
            w != o.owner_of() ==> #[trigger] owned_ids_of(owned.update(p, e2), w) == owned_ids_of(
                owned,
                w,
            ),
        forall|id: u64| #[trigger]
            find_keyed(orders.push(o), id) == (if id == o.key() {
                Some(o)
            } else {
                find_keyed(orders, id)
            }),
{
    let orders2 = orders.push(o);
    let owned2 = owned.update(p, e2);
    lemma_find_first(owned, o.owner_of(), p);
    assert forall|id: u64| #[trigger]
        find_keyed(orders2, id) == (if id == o.key() {
            Some(o)
        } else {
            find_keyed(orders, id)
        }) by {
        lemma_find_push(orders, o, id);
    }
    assert forall|w: u64| #[trigger]
        find_keyed(owned2, w) == (if w == o.owner_of() {
            Some(e2)
        } else {
            find_keyed(owned, w)
        }) by {
        lemma_find_update(owned, p, e2, w);
    }
    lemma_push_unique_keys(orders, o);
    lemma_update_unique_keys(owned, p, e2);
    lemma_find_none(orders, o.key());
    // The fresh id is in no owner's list: every listed id resolves to a
    // stored order.
    assert forall|q: int, k: int|
        0 <= q < owned.len() && 0 <= k < owned[q].ids@.len() implies #[trigger] owned[q].ids@[k]
        != o.key() by {
        if owned[q].ids@[k] == o.key() {
            assert(find_keyed(orders, owned[q].ids@[k]) is Some);
        }
    }
    assert(e2.ids@.no_duplicates()) by {
        assert forall|a: int, b: int| 0 <= a < b < e2.ids@.len() implies e2.ids@[a] != e2.ids@[b] by {
            if b == e2.ids@.len() - 1 {
                assert(e2.ids@[a] == owned[p].ids@[a]);
                assert(e2.ids@[b] == o.key());
            } else {
                assert(e2.ids@[a] == owned[p].ids@[a] && e2.ids@[b] == owned[p].ids@[b]);
            }
        }
    }
    assert forall|q: int| 0 <= q < owned2.len() implies #[trigger] owned2[q].ids@.no_duplicates() by {
        if q != p {
            assert(owned2[q] == owned[q]);
        }
    }
    // Every stored order stays indexed under its owner.
    assert forall|i: int|
        0 <= i < orders2.len() implies owned_ids_of(owned2, (#[trigger] orders2[i]).owner_of()).contains(
        orders2[i].key()) by {
        if i < orders.len() {
            assert(orders2[i] == orders[i]);
            let w = orders[i].owner_of();
            if w == o.owner_of() {
                let ids = owned[p].ids@;
                assert(ids.contains(orders[i].key()));
                let k = choose|k: int| 0 <= k < ids.len() && ids[k] == orders[i].key();
                assert(e2.ids@[k] == orders[i].key());
                assert(owned_ids_of(owned2, w).contains(orders[i].key()));
            } else {
                assert(owned_ids_of(owned2, w) == owned_ids_of(owned, w));
            }
        } else {
            assert(orders2[i] == o);
            assert(e2.ids@[e2.ids@.len() - 1] == o.key());
            assert(owned_ids_of(owned2, o.owner_of()).contains(o.key()));
        }
    }
    // Every indexed id still resolves to a stored order of that owner.
    assert forall|q: int, k: int|
        0 <= q < owned2.len() && 0 <= k < owned2[q].ids@.len() implies (match find_keyed(
        orders2,
        #[trigger] owned2[q].ids@[k],
    ) {
        Some(ord) => ord.owner_of() == owned2[q].owner,
        None => false,
    }) by {
        if q != p {
            assert(owned2[q] == owned[q]);
            let x = owned[q].ids@[k];
            assert(x != o.key());
            assert(find_keyed(orders2, x) == find_keyed(orders, x));
        } else {
            if k < owned[p].ids@.len() {
                let x = owned[p].ids@[k];
                assert(e2.ids@[k] == x);
                assert(x != o.key());
                assert(find_keyed(orders2, x) == find_keyed(orders, x));
            } else {
                assert(owned2[q].ids@[k] == o.key());
                assert(find_keyed(orders2, o.key()) == Some(o));
            }
        }
    }
}

/// Inserting a fresh order whose owner has no index entry yet keeps the side
/// well-formed; every lookup changes as stated.
proof fn lemma_side_insert_push<T: Order>(
    orders: Seq<T>,
    owned: Seq<OwnedOrders>,
    o: T,
    e2: OwnedOrders,
)
    requires
        side_wf(orders, owned),
        find_keyed(orders, o.key()) is None,
        find_keyed(owned, o.owner_of()) is None,
        e2.owner == o.owner_of(),
        e2.ids@ == Seq::<u64>::empty().push(o.key()),
    ensures
        side_wf(orders.push(o), owned.push(e2)),
        owned_ids_of(owned, o.owner_of()) == Seq::<u64>::empty(),
        owned_ids_of(owned.push(e2), o.owner_of()) == Seq::<u64>::empty().push(o.key()),
        forall|w: u64|
            w != o.owner_of() ==> #[trigger] owned_ids_of(owned.push(e2), w) == owned_ids_of(
                owned,
                w,
            ),
        forall|id: u64| #[trigger]
            find_keyed(orders.push(o), id) == (if id == o.key() {
                Some(o)
            } else {
                find_keyed(orders, id)
            }),
{
    let orders2 = orders.push(o);
    let owned2 = owned.push(e2);
    assert forall|id: u64| #[trigger]
        find_keyed(orders2, id) == (if id == o.key() {
            Some(o)
        } else {
            find_keyed(orders, id)
        }) by {
        lemma_find_push(orders, o, id);
    }
    assert forall|w: u64| #[trigger]
        find_keyed(owned2, w) == (if w == o.owner_of() {
            Some(e2)
        } else {
            find_keyed(owned, w)
        }) by {
        lemma_find_push(owned, e2, w);
    }
    lemma_push_unique_keys(orders, o);
    lemma_push_unique_keys(owned, e2);
    assert(e2.ids@.len() == 1);
    assert forall|q: int| 0 <= q < owned2.len() implies #[trigger] owned2[q].ids@.no_duplicates() by {
        if q < owned.len() {
            assert(owned2[q] == owned[q]);
        } else {
            assert(owned2[q] == e2);
        }
    }
    assert forall|i: int|
        0 <= i < orders2.len() implies owned_ids_of(owned2, (#[trigger] orders2[i]).owner_of()).contains(
        orders2[i].key()) by {
        if i < orders.len() {
            assert(orders2[i] == orders[i]);
            let w = orders[i].owner_of();
            assert(w != o.owner_of()) by {
                if w == o.owner_of() {
                    // The old order would be indexed under an absent entry.
                    assert(owned_ids_of(owned, w).contains(orders[i].key()));
                }
            }
            assert(owned_ids_of(owned2, w) == owned_ids_of(owned, w));
        } else {
            assert(orders2[i] == o);
            assert(e2.ids@[0] == o.key());
            assert(owned_ids_of(owned2, o.owner_of()).contains(o.key()));
        }
    }
    assert forall|q: int, k: int|
        0 <= q < owned2.len() && 0 <= k < owned2[q].ids@.len() implies (match find_keyed(
        orders2,
        #[trigger] owned2[q].ids@[k],
    ) {
        Some(ord) => ord.owner_of() == owned2[q].owner,
        None => false,
    }) by {
        if q < owned.len() {
            assert(owned2[q] == owned[q]);
            let x = owned[q].ids@[k];
            assert(x != o.key()) by {
                lemma_find_none(orders, o.key());
                if x == o.key() {
                    assert(find_keyed(orders, x) is Some);
                }
            }
            assert(find_keyed(orders2, x) == find_keyed(orders, x));
        } else {
            assert(owned2[q] == e2);
            assert(owned2[q].ids@[k] == o.key());
            assert(find_keyed(orders2, o.key()) == Some(o));
        }
    }
}

/// Swap-removing the order at `i` together with its entry in its owner's
/// list keeps the side well-formed; every lookup changes as stated.
proof fn lemma_side_remove<T: Order>(
    orders: Seq<T>,
    owned: Seq<OwnedOrders>,
    i: int,
    p: int,
    k: int,
    e2: OwnedOrders,
)
    requires
        side_wf(orders, owned),
        0 <= i < orders.len(),
        0 <= p < owned.len(),
        owned[p].owner == orders[i].owner_of(),
        0 <= k < owned[p].ids@.len(),
        owned[p].ids@[k] == orders[i].key(),
        e2.owner == owned[p].owner,
        e2.ids@ == swap_removed(owned[p].ids@, k),
    ensures
        side_wf(swap_removed(orders, i), owned.update(p, e2)),
        owned_ids_of(owned, orders[i].owner_of()) == owned[p].ids@,
        owned_ids_of(owned.update(p, e2), orders[i].owner_of()) == swap_removed(
            owned[p].ids@,
            k,
        ),
        forall|w: u64|
            w != orders[i].owner_of() ==> #[trigger] owned_ids_of(owned.update(p, e2), w)
                == owned_ids_of(owned, w),
        forall|id: u64| #[trigger]
            find_keyed(swap_removed(orders, i), id) == (if id == orders[i].key() {
                None::<T>
            } else {
                find_keyed(orders, id)
            }),
{
    let orders2 = swap_removed(orders, i);
    let owned2 = owned.update(p, e2);
    let rid = orders[i].key();
    let w0 = orders[i].owner_of();
    let ids = owned[p].ids@;
    lemma_find_at(owned, w0, p);
    lemma_swap_removed_index(orders, i);
    lemma_swap_removed_unique_keys(orders, i);
    lemma_update_unique_keys(owned, p, e2);
    lemma_swap_removed_no_dup(ids, k);
    lemma_find_at(orders, rid, i);
    assert forall|id: u64| #[trigger]
        find_keyed(orders2, id) == (if id == rid {
            None::<T>
        } else {
            find_keyed(orders, id)
        }) by {
        lemma_find_swap_removed(orders, i, id);
    }
    assert forall|w: u64| #[trigger]
        find_keyed(owned2, w) == (if w == w0 {
            Some(e2)
        } else {
            find_keyed(owned, w)
        }) by {
        lemma_find_at(owned, w0, p);
        assert(forall|j: int| 0 <= j < p ==> #[trigger] owned[j].key() != owned[p].key());
        lemma_find_update(owned, p, e2, w);
    }
    assert forall|q: int| 0 <= q < owned2.len() implies #[trigger] owned2[q].ids@.no_duplicates() by {
        if q != p {
            assert(owned2[q] == owned[q]);
        }
    }
    // Every remaining order stays indexed under its owner.
    assert forall|j: int|
        0 <= j < orders2.len() implies owned_ids_of(owned2, (#[trigger] orders2[j]).owner_of()).contains(
        orders2[j].key()) by {
        let jj: int = if j == i && i < orders.len() - 1 {
            orders.len() - 1
        } else {
            j
        };
        assert(orders2[j] == orders[jj]);
        assert(jj != i);
        let w = orders[jj].owner_of();
        let x = orders[jj].key();
        assert(x != rid);
        assert(owned_ids_of(owned, w).contains(x));
        if w == w0 {
            assert(owned_ids_of(owned2, w) == e2.ids@);
            assert(ids.contains(x));
            assert(e2.ids@.contains(x));
        } else {
            assert(owned_ids_of(owned2, w) == owned_ids_of(owned, w));
        }
    }
    // Every indexed id still resolves to a stored order of that owner.
    assert forall|q: int, kk: int|
        0 <= q < owned2.len() && 0 <= kk < owned2[q].ids@.len() implies (match find_keyed(
        orders2,
        #[trigger] owned2[q].ids@[kk],
    ) {
        Some(ord) => ord.owner_of() == owned2[q].owner,
        None => false,
    }) by {
        if q != p {
            assert(owned2[q] == owned[q]);
            let x = owned[q].ids@[kk];
            assert(match find_keyed(orders, x) {
                Some(ord) => ord.owner_of() == owned[q].owner,
                None => false,
            });
            assert(x != rid) by {
                if x == rid {
                    assert(find_keyed(orders, rid) == Some(orders[i]));
                    assert(owned[q].owner == w0);
                    assert(owned[q].key() == owned[p].key());
                }
            }
            assert(find_keyed(orders2, x) == find_keyed(orders, x));
        } else {
            let x = e2.ids@[kk];
            assert(e2.ids@.contains(x));
            assert(ids.contains(x) && x != ids[k]);
            let kx = choose|kx: int| 0 <= kx < ids.len() && ids[kx] == x;
            assert(owned[p].ids@[kx] == x);
            assert(match find_keyed(orders, x) {
                Some(ord) => ord.owner_of() == owned[p].owner,
                None => false,
            });
            assert(find_keyed(orders2, x) == find_keyed(orders, x));
        }
    }
}

/// The order book: borrow and supply orders with their per-owner indices and
/// the shared order-id derivation nonce.
///
/// Each side is a dense array of orders (the global index is the position)
/// and a per-owner dense id array; removal swap-removes from both so the
/// arrays stay dense.
pub struct OrderBook {
    pub borrows: Vec<BorrowOrder>,
    pub owned_borrows: Vec<OwnedOrders>,
    pub supplies: Vec<SupplyOrder>,
    pub owned_supplies: Vec<OwnedOrders>,
    pub nonce: u64,
}

impl OrderBook {
    /// The borrow order with the given id, if any.
    pub open spec fn borrow_find(&self, id: u64) -> Option<BorrowOrder> {
        find_keyed(self.borrows@, id)
    }

    /// The supply order with the given id, if any.
    pub open spec fn supply_find(&self, id: u64) -> Option<SupplyOrder> {
        find_keyed(self.supplies@, id)
    }

    /// The ids of `owner`'s borrow orders, in index order.
    pub open spec fn owned_borrow_ids(&self, owner: u64) -> Seq<u64> {
        owned_ids_of(self.owned_borrows@, owner)
    }

    /// The ids of `owner`'s supply orders, in index order.
    pub open spec fn owned_supply_ids(&self, owner: u64) -> Seq<u64> {
        owned_ids_of(self.owned_supplies@, owner)
    }

    /// Well-formedness of both book sides.
    pub open spec fn wf(&self) -> bool {
        &&& side_wf(self.borrows@, self.owned_borrows@)
        &&& side_wf(self.supplies@, self.owned_supplies@)
    }

    /// An empty order book with the nonce at process genesis.
    pub fn new() -> (b: OrderBook)
        ensures
            b.wf(),
            b.borrows@.len() == 0,
            b.owned_borrows@.len() == 0,
            b.supplies@.len() == 0,
            b.owned_supplies@.len() == 0,
            b.nonce == 0,
    {
        OrderBook {
            borrows: Vec::new(),
            owned_borrows: Vec::new(),
            supplies: Vec::new(),
            owned_supplies: Vec::new(),
            nonce: 0,
        }
    }

    /// The position of the borrow order with the given id, if any.
    pub(crate) fn find_borrow_idx(&self, id: u64) -> (r: Option<usize>)
        ensures
            match r {
                Some(i) => {
                    &&& i < self.borrows@.len()
                    &&& self.borrows@[i as int].id == id
                    &&& forall|j: int| 0 <= j < i ==> #[trigger] self.borrows@[j].key() != id
                    &&& self.borrow_find(id) == Some(self.borrows@[i as int])
                },
                None => self.borrow_find(id) is None,
            },
    {
        let n = self.borrows.len();
        let mut i: usize = 0;
        while i < n
            invariant
                n == self.borrows@.len(),
                i <= n,
                forall|j: int| 0 <= j < i ==> #[trigger] self.borrows@[j].key() != id,
            decreases n - i,
        {
            if self.borrows[i].id == id {
                proof {
                    lemma_find_first(self.borrows@, id, i as int);
                }
                return Some(i);
            }
            i = i + 1;
        }
        proof {
            lemma_find_none_of(self.borrows@, id);
        }
        None
    }

    /// The position of the supply order with the given id, if any.
    pub(crate) fn find_supply_idx(&self, id: u64) -> (r: Option<usize>)
        ensures
            match r {
                Some(i) => {
                    &&& i < self.supplies@.len()
                    &&& self.supplies@[i as int].id == id
                    &&& forall|j: int| 0 <= j < i ==> #[trigger] self.supplies@[j].key() != id
                    &&& self.supply_find(id) == Some(self.supplies@[i as int])
                },
                None => self.supply_find(id) is None,
            },
    {
        let n = self.supplies.len();
        let mut i: usize = 0;
        while i < n
            invariant
                n == self.supplies@.len(),
                i <= n,
                forall|j: int| 0 <= j < i ==> #[trigger] self.supplies@[j].key() != id,
            decreases n - i,
        {
            if self.supplies[i].id == id {
                proof {
                    lemma_find_first(self.supplies@, id, i as int);
                }
                return Some(i);
            }
            i = i + 1;
        }
        proof {
            lemma_find_none_of(self.supplies@, id);
        }
        None
    }

    /// Append a fresh borrow order and index it under its owner.
    pub(crate) fn insert_borrow(&mut self, o: BorrowOrder)
        requires
            old(self).wf(),
            old(self).borrow_find(o.id) is None,
        ensures
            final(self).wf(),
            final(self).borrows@ == old(self).borrows@.push(o),
            final(self).borrow_find(o.id) == Some(o),
            forall|id: u64|
                id != o.id ==> #[trigger] final(self).borrow_find(id) == old(self).borrow_find(id),
            final(self).owned_borrow_ids(o.owner) == old(self).owned_borrow_ids(o.owner).push(
                o.id,
            ),
            forall|w: u64|
                w != o.owner ==> #[trigger] final(self).owned_borrow_ids(w) == old(
                    self,
                ).owned_borrow_ids(w),
            final(self).supplies@ == old(self).supplies@,
            final(self).owned_supplies@ == old(self).owned_supplies@,
            final(self).nonce == old(self).nonce,
    {
        let ghost pre = *self;
        let p_opt = find_owned_idx(&self.owned_borrows, o.owner);
        match p_opt {
            Some(p) => {
                let e = owned_entry_mut(&mut self.owned_borrows, p);
                e.ids.push(o.id);
                self.borrows.push(o);
                proof {
                    lemma_side_insert_update(
                        pre.borrows@,
                        pre.owned_borrows@,
                        o,
                        p as int,
                        self.owned_borrows@[p as int],
                    );
                }
            },
            None => {
                let mut ids: Vec<u64> = Vec::new();
                ids.push(o.id);
                self.owned_borrows.push(OwnedOrders { owner: o.owner, ids });
                self.borrows.push(o);
                proof {
                    lemma_side_insert_push(
                        pre.borrows@,
                        pre.owned_borrows@,
                        o,
                        self.owned_borrows@.last(),
                    );
                }
            },
        }
    }

    /// Append a fresh supply order and index it under its owner.
    pub(crate) fn insert_supply(&mut self, o: SupplyOrder)
        requires
            old(self).wf(),
            old(self).supply_find(o.id) is None,
        ensures
            final(self).wf(),
            final(self).supplies@ == old(self).supplies@.push(o),
            final(self).supply_find(o.id) == Some(o),
            forall|id: u64|
                id != o.id ==> #[trigger] final(self).supply_find(id) == old(self).supply_find(id),
            final(self).owned_supply_ids(o.owner) == old(self).owned_supply_ids(o.owner).push(
                o.id,
            ),
            forall|w: u64|
                w != o.owner ==> #[trigger] final(self).owned_supply_ids(w) == old(
                    self,
                ).owned_supply_ids(w),
            final(self).borrows@ == old(self).borrows@,
            final(self).owned_borrows@ == old(self).owned_borrows@,
            final(self).nonce == old(self).nonce,
    {
        let ghost pre = *self;
        let ghost go = o;
        let owner = o.owner;
        let id = o.id;
        let p_opt = find_owned_idx(&self.owned_supplies, owner);
        match p_opt {
            Some(p) => {
                let e = owned_entry_mut(&mut self.owned_supplies, p);
                e.ids.push(id);
                self.supplies.push(o);
                proof {
                    lemma_side_insert_update(
                        pre.supplies@,
                        pre.owned_supplies@,
                        go,
                        p as int,
                        self.owned_supplies@[p as int],
                    );
                }
            },
            None => {
                let mut ids: Vec<u64> = Vec::new();
                ids.push(id);
                self.owned_supplies.push(OwnedOrders { owner, ids });
                self.supplies.push(o);
                proof {
                    lemma_side_insert_push(
                        pre.supplies@,
                        pre.owned_supplies@,
                        go,
                        self.owned_supplies@.last(),
                    );
                }
            },
        }
    }

    /// Swap-remove the borrow order at `i` from the global array and its id
    /// from its owner's index.
    pub(crate) fn remove_borrow_at(&mut self, i: usize)
        requires
            old(self).wf(),
            i < old(self).borrows@.len(),
        ensures
            final(self).wf(),
            final(self).borrows@ == swap_removed(old(self).borrows@, i as int),
            ({
                let o = old(self).borrows@[i as int];
                let pre_ids = old(self).owned_borrow_ids(o.owner);
                &&& final(self).borrow_find(o.id) is None
                &&& forall|id: u64|
                    id != o.id ==> #[trigger] final(self).borrow_find(id) == old(
                        self,
                    ).borrow_find(id)
                &&& exists|k: int|
                    0 <= k < pre_ids.len() && pre_ids[k] == o.id && final(self).owned_borrow_ids(
                        o.owner,
                    ) == swap_removed(pre_ids, k)
                &&& forall|w: u64|
                    w != o.owner ==> #[trigger] final(self).owned_borrow_ids(w) == old(
                        self,
                    ).owned_borrow_ids(w)
            }),
            final(self).supplies@ == old(self).supplies@,
            final(self).owned_supplies@ == old(self).owned_supplies@,
            final(self).nonce == old(self).nonce,
    {
        let ghost pre = *self;
        let o = self.borrows[i];
        let p = match find_owned_idx(&self.owned_borrows, o.owner) {
            Some(p) => p,
            None => {
                proof {
                    assert(owned_ids_of(pre.owned_borrows@, o.owner).contains(o.id));
                }
                unreached()
            },
        };
        let k = match find_id_idx(&self.owned_borrows[p].ids, o.id) {
            Some(k) => k,
            None => {
                proof {
                    lemma_find_at(pre.owned_borrows@, o.owner, p as int);
                    assert(owned_ids_of(pre.owned_borrows@, o.owner).contains(o.id));
                }
                unreached()
            },
        };
        proof {
            lemma_find_at(pre.owned_borrows@, o.owner, p as int);
        }
        let e = owned_entry_mut(&mut self.owned_borrows, p);
        e.ids.swap_remove(k);
        self.borrows.swap_remove(i);
        proof {
            lemma_side_remove(
                pre.borrows@,
                pre.owned_borrows@,
                i as int,
                p as int,
                k as int,
                self.owned_borrows@[p as int],
            );
            assert(pre.owned_borrow_ids(o.owner) == pre.owned_borrows@[p as int].ids@);
            assert(final(self).owned_borrow_ids(o.owner) == swap_removed(
                pre.owned_borrow_ids(o.owner),
                k as int,
            ));
        }
    }

    /// Swap-remove the supply order at `i` from the global array and its id
    /// from its owner's index.
    pub(crate) fn remove_supply_at(&mut self, i: usize)
        requires
            old(self).wf(),
            i < old(self).supplies@.len(),
        ensures
            final(self).wf(),
            final(self).supplies@ == swap_removed(old(self).supplies@, i as int),
            ({
                let o = old(self).supplies@[i as int];
                let pre_ids = old(self).owned_supply_ids(o.owner);
                &&& final(self).supply_find(o.id) is None
                &&& forall|id: u64|
                    id != o.id ==> #[trigger] final(self).supply_find(id) == old(
                        self,
                    ).supply_find(id)
                &&& exists|k: int|
                    0 <= k < pre_ids.len() && pre_ids[k] == o.id && final(self).owned_supply_ids(
                        o.owner,
                    ) == swap_removed(pre_ids, k)
                &&& forall|w: u64|
                    w != o.owner ==> #[trigger] final(self).owned_supply_ids(w) == old(
                        self,
                    ).owned_supply_ids(w)
            }),
            final(self).borrows@ == old(self).borrows@,
            final(self).owned_borrows@ == old(self).owned_borrows@,
            final(self).nonce == old(self).nonce,
    {
        let ghost pre = *self;
        let owner = self.supplies[i].owner;
        let id = self.supplies[i].id;
        let p = match find_owned_idx(&self.owned_supplies, owner) {
            Some(p) => p,
            None => {
                proof {
                    assert(owned_ids_of(pre.owned_supplies@, owner).contains(id));
                }
                unreached()
            },
        };
        let k = match find_id_idx(&self.owned_supplies[p].ids, id) {
            Some(k) => k,
            None => {
                proof {
                    lemma_find_at(pre.owned_supplies@, owner, p as int);
                    assert(owned_ids_of(pre.owned_supplies@, owner).contains(id));
                }
                unreached()
            },
        };
        proof {
            lemma_find_at(pre.owned_supplies@, owner, p as int);
        }
        let e = owned_entry_mut(&mut self.owned_supplies, p);
        e.ids.swap_remove(k);
        self.supplies.swap_remove(i);
        proof {
            lemma_side_remove(
                pre.supplies@,
                pre.owned_supplies@,
                i as int,
                p as int,
                k as int,
                self.owned_supplies@[p as int],
            );
            assert(pre.owned_supply_ids(owner) == pre.owned_supplies@[p as int].ids@);
            assert(final(self).owned_supply_ids(owner) == swap_removed(
                pre.owned_supply_ids(owner),
                k as int,
            ));
        }
    }
}

/// The position of the index entry of `owner`, if any.
pub(crate) fn find_owned_idx(v: &Vec<OwnedOrders>, owner: u64) -> (r: Option<usize>)
    ensures
        match r {
            Some(p) => {
                &&& p < v@.len()
                &&& v@[p as int].owner == owner
                &&& forall|j: int| 0 <= j < p ==> #[trigger] v@[j].key() != owner
                &&& find_keyed(v@, owner) == Some(v@[p as int])
            },
            None => find_keyed(v@, owner) is None,
        },
{
    let n = v.len();
    let mut i: usize = 0;
    while i < n
        invariant
            n == v@.len(),
            i <= n,
            forall|j: int| 0 <= j < i ==> #[trigger] v@[j].key() != owner,
        decreases n - i,
    {
        if v[i].owner == owner {
            proof {
                lemma_find_first(v@, owner, i as int);
            }
            return Some(i);
        }
        i = i + 1;
    }
    proof {
        lemma_find_none_of(v@, owner);
    }
    None
}

/// The position of `id` in a plain id list, if present.
fn find_id_idx(v: &Vec<u64>, id: u64) -> (r: Option<usize>)
    ensures
        match r {
            Some(k) => k < v@.len() && v@[k as int] == id,
            None => !v@.contains(id),
        },
{
    let n = v.len();
    let mut i: usize = 0;
    while i < n
        invariant
            n == v@.len(),
            i <= n,
            forall|j: int| 0 <= j < i ==> v@[j] != id,
        decreases n - i,
    {
        if v[i] == id {
            return Some(i);
        }
        i = i + 1;
    }
    proof {
        if v@.contains(id) {
            let j = choose|j: int| 0 <= j < v@.len() && v@[j] == id;
            assert(v@[j] != id);
        }
    }
    None
}

/// A mutable borrow of the index entry at `i`.
fn owned_entry_mut(v: &mut Vec<OwnedOrders>, i: usize) -> (r: &mut OwnedOrders)
    requires
        i < old(v).len(),
    ensures
        *r == old(v)@[i as int],
        final(v)@ == old(v)@.update(i as int, *final(r)),
{
    &mut v[i]
}

/// The order id derived from the environment's entropy seed, the owner and
/// the per-process nonce, folded into 64 bits with a fixed odd multiplier.
///
/// The hosting chain derives order ids by hashing these same inputs; the
/// core relies on no property of the derivation beyond determinism, since
/// creation checks the derived id for collisions and fails on one.
pub open spec fn order_id_of(seed: u64, owner: u64, nonce: u64) -> u64 {
    mix64(mix64(seed as int, owner as int), nonce as int) as u64
}

/// One folding step: multiply by a fixed odd constant, add, reduce mod 2^64.
pub open spec fn mix64(a: int, b: int) -> int {
    (a * 0x9E3779B97F4A7C15 + b) % 0x10000000000000000
}

/// Derive the id of a fresh order from seed, owner and nonce.
pub fn derive_order_id(seed: u64, owner: u64, nonce: u64) -> (r: u64)
    ensures
        r == order_id_of(seed, owner, nonce),
{
    let m: u128 = 0x9E3779B97F4A7C15u128;
    let two64: u128 = 0x10000000000000000u128;
    let x1: u128 = ((seed as u128) * m + (owner as u128)) % two64;
    let x2: u128 = (x1 * m + (nonce as u128)) % two64;
    x2 as u64
}

} // verus!
