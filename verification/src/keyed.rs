use vstd::prelude::*;

verus! {

/// An element of a keyed store held as a sequence of records.
///
/// Each storage map of the core is modeled as a `Vec` of records with
/// pairwise distinct keys.  This trait names the key of a record so that the
/// lookup function and its lemmas can be shared by every store.
pub trait Keyed {
    type Key;

    /// The storage key of this record.
    spec fn key(&self) -> Self::Key;
}

/// The first record of `s` whose key is `k`, if any.
pub open spec fn find_keyed<T: Keyed>(s: Seq<T>, k: T::Key) -> Option<T>
    decreases s.len(),
{
    if s.len() == 0 {
        None
    } else if s[0].key() == k {
        Some(s[0])
    } else {
        find_keyed(s.drop_first(), k)
    }
}

/// All records of `s` carry pairwise distinct keys.
pub open spec fn unique_keys<T: Keyed>(s: Seq<T>) -> bool {
    forall|i: int, j: int|
        #![trigger s[i].key(), s[j].key()]
        0 <= i < j < s.len() ==> s[i].key() != s[j].key()
}

/// `s` with the record at `i` removed by moving the last record into its
/// place, exactly as `Vec::swap_remove` does.
pub open spec fn swap_removed<T>(s: Seq<T>, i: int) -> Seq<T> {
    s.update(i, s.last()).drop_last()
}

/// The lookup hits whenever some record carries the key.
pub proof fn lemma_find_match<T: Keyed>(s: Seq<T>, k: T::Key, i: int)
    requires
        0 <= i < s.len(),
        s[i].key() == k,
    ensures
        find_keyed(s, k) is Some,
    decreases s.len(),
{
    if !(s[0].key() == k) {
        assert(s.drop_first()[i - 1] == s[i]);
        lemma_find_match(s.drop_first(), k, i - 1);
    }
}

/// A missed lookup means no record carries the key.
pub proof fn lemma_find_none<T: Keyed>(s: Seq<T>, k: T::Key)
    requires
        find_keyed(s, k) is None,
    ensures
        forall|i: int| 0 <= i < s.len() ==> #[trigger] s[i].key() != k,
{
    assert forall|i: int| 0 <= i < s.len() implies #[trigger] s[i].key() != k by {
        if s[i].key() == k {
            lemma_find_match(s, k, i);
        }
    }
}

/// The lookup misses when no record carries the key.
pub proof fn lemma_find_none_of<T: Keyed>(s: Seq<T>, k: T::Key)
    requires
        forall|i: int| 0 <= i < s.len() ==> #[trigger] s[i].key() != k,
    ensures
        find_keyed(s, k) is None,
    decreases s.len(),
{
    if s.len() > 0 {
        assert(s[0].key() != k);
        assert forall|i: int|
            0 <= i < s.drop_first().len() implies #[trigger] s.drop_first()[i].key() != k by {
            assert(s.drop_first()[i] == s[i + 1]);
            assert(s[i + 1].key() != k);
        }
        lemma_find_none_of(s.drop_first(), k);
    }
}

/// A hit of the lookup is a record of `s` carrying the key.
pub proof fn lemma_find_props<T: Keyed>(s: Seq<T>, k: T::Key)
    ensures
        match find_keyed(s, k) {
            Some(c) => c.key() == k && exists|i: int| 0 <= i < s.len() && #[trigger] s[i] == c,
            None => true,
        },
    decreases s.len(),
{
    if s.len() > 0 && !(s[0].key() == k) {
        lemma_find_props(s.drop_first(), k);
        match find_keyed(s, k) {
            Some(c) => {
                let i = choose|i: int| 0 <= i < s.drop_first().len() && #[trigger] s.drop_first()[i] == c;
                assert(s[i + 1] == c);
            },
            None => {},
        }
    }
}

/// The lookup returns the first matching record.
pub proof fn lemma_find_first<T: Keyed>(s: Seq<T>, k: T::Key, i: int)
    requires
        0 <= i < s.len(),
        s[i].key() == k,
        forall|j: int| 0 <= j < i ==> #[trigger] s[j].key() != k,
    ensures
        find_keyed(s, k) == Some(s[i]),
    decreases s.len(),
{
    if i > 0 {
        assert(forall|j: int|
            0 <= j < i - 1 ==> #[trigger] s.drop_first()[j].key() == s[j + 1].key());
        lemma_find_first(s.drop_first(), k, i - 1);
        assert(s.drop_first()[i - 1] == s[i]);
    }
}

/// Under distinct keys, the lookup finds any record that carries the key.
pub proof fn lemma_find_at<T: Keyed>(s: Seq<T>, k: T::Key, i: int)
    requires
        unique_keys(s),
        0 <= i < s.len(),
        s[i].key() == k,
    ensures
        find_keyed(s, k) == Some(s[i]),
{
    assert(forall|j: int| 0 <= j < i ==> #[trigger] s[j].key() != k);
    lemma_find_first(s, k, i);
}

/// How appending a record changes each lookup.
pub proof fn lemma_find_push<T: Keyed>(s: Seq<T>, c: T, k: T::Key)
    ensures
        find_keyed(s.push(c), k) == (if find_keyed(s, k) is Some {
            find_keyed(s, k)
        } else if c.key() == k {
            Some(c)
        } else {
            None::<T>
        }),
    decreases s.len(),
{
    if s.len() == 0 {
        assert(s.push(c)[0] == c);
        if c.key() == k {
            assert(find_keyed(s.push(c), k) == Some(c));
        } else {
            assert(s.push(c).drop_first() =~= Seq::<T>::empty());
            assert(find_keyed(Seq::<T>::empty(), k) is None);
            assert(find_keyed(s.push(c), k) is None);
        }
    } else {
        assert(s.push(c)[0] == s[0]);
        assert(s.push(c).drop_first() =~= s.drop_first().push(c));
        lemma_find_push(s.drop_first(), c, k);
        if s[0].key() == k {
            assert(find_keyed(s.push(c), k) == Some(s[0]));
            assert(find_keyed(s, k) == Some(s[0]));
        } else {
            assert(find_keyed(s.push(c), k) == find_keyed(s.drop_first().push(c), k));
            assert(find_keyed(s, k) == find_keyed(s.drop_first(), k));
        }
    }
}

/// How replacing the first record of a key by another record of the same key
/// changes each lookup.
pub proof fn lemma_find_update<T: Keyed>(s: Seq<T>, i: int, c: T, k: T::Key)
    requires
        0 <= i < s.len(),
        c.key() == s[i].key(),
        forall|j: int| 0 <= j < i ==> #[trigger] s[j].key() != s[i].key(),
    ensures
        find_keyed(s.update(i, c), k) == (if c.key() == k {
            Some(c)
        } else {
            find_keyed(s, k)
        }),
    decreases s.len(),
{
    if i == 0 {
        assert(s.update(0, c)[0] == c);
        assert(s.update(0, c).drop_first() =~= s.drop_first());
    } else {
        assert(s.update(i, c)[0] == s[0]);
        assert(s.update(i, c).drop_first() =~= s.drop_first().update(i - 1, c));
        assert(forall|j: int|
            0 <= j < i - 1 ==> #[trigger] s.drop_first()[j].key() == s[j + 1].key());
        assert(s.drop_first()[i - 1] == s[i]);
        lemma_find_update(s.drop_first(), i - 1, c, k);
    }
}

/// Replacing a record by one of the same key keeps the keys distinct.
pub proof fn lemma_update_unique_keys<T: Keyed>(s: Seq<T>, i: int, c: T)
    requires
        unique_keys(s),
        0 <= i < s.len(),
        c.key() == s[i].key(),
    ensures
        unique_keys(s.update(i, c)),
{
    assert forall|a: int, b: int|
        0 <= a < b < s.update(i, c).len() implies #[trigger] s.update(i, c)[a].key()
        != #[trigger] s.update(i, c)[b].key() by {
        assert(s[a].key() != s[b].key());
    }
}

/// Appending a record of a fresh key keeps the keys distinct.
pub proof fn lemma_push_unique_keys<T: Keyed>(s: Seq<T>, c: T)
    requires
        unique_keys(s),
        find_keyed(s, c.key()) is None,
    ensures
        unique_keys(s.push(c)),
{
    lemma_find_none(s, c.key());
    assert forall|a: int, b: int|
        0 <= a < b < s.push(c).len() implies #[trigger] s.push(c)[a].key()
        != #[trigger] s.push(c)[b].key() by {
        if b < s.len() {
            assert(s[a].key() != s[b].key());
        } else {
            assert(s.push(c)[a] == s[a]);
            assert(s.push(c)[b] == c);
        }
    }
}

/// Where each record of the swap-removed sequence comes from.
pub proof fn lemma_swap_removed_index<T>(s: Seq<T>, i: int)
    requires
        0 <= i < s.len(),
    ensures
        swap_removed(s, i).len() == s.len() - 1,
        forall|j: int|
            0 <= j < s.len() - 1 ==> #[trigger] swap_removed(s, i)[j] == (if j == i {
                s.last()
            } else {
                s[j]
            }),
{
}

/// Membership in the swap-removed sequence, by original index.
pub proof fn lemma_swap_removed_contains<T>(s: Seq<T>, i: int, x: T)
    requires
        0 <= i < s.len(),
    ensures
        swap_removed(s, i).contains(x) <==> (exists|j: int|
            0 <= j < s.len() && j != i && #[trigger] s[j] == x),
{
    lemma_swap_removed_index(s, i);
    let t = swap_removed(s, i);
    if t.contains(x) {
        let j = choose|j: int| 0 <= j < t.len() && t[j] == x;
        if j == i && i < s.len() - 1 {
            assert(s[s.len() - 1] == x);
        } else {
            assert(s[j] == x);
        }
    }
    if exists|j: int| 0 <= j < s.len() && j != i && #[trigger] s[j] == x {
        let j = choose|j: int| 0 <= j < s.len() && j != i && #[trigger] s[j] == x;
        if j == s.len() - 1 {
            assert(t[i] == s.last());
            assert(t.contains(t[i]));
        } else {
            assert(t[j] == x);
            assert(t.contains(t[j]));
        }
    }
}

/// Swap-removal keeps a duplicate-free sequence duplicate-free and removes
/// exactly the record at the removed index.
pub proof fn lemma_swap_removed_no_dup<T>(s: Seq<T>, i: int)
    requires
        0 <= i < s.len(),
        s.no_duplicates(),
    ensures
        swap_removed(s, i).no_duplicates(),
        !swap_removed(s, i).contains(s[i]),
        forall|x: T| #[trigger] swap_removed(s, i).contains(x) <==> (s.contains(x) && x != s[i]),
{
    lemma_swap_removed_index(s, i);
    let t = swap_removed(s, i);
    assert forall|a: int, b: int| 0 <= a < b < t.len() implies t[a] != t[b] by {
        if a == i {
            assert(t[a] == s[s.len() - 1] && t[b] == s[b]);
        } else if b == i {
            assert(t[a] == s[a] && t[b] == s[s.len() - 1]);
        } else {
            assert(t[a] == s[a] && t[b] == s[b]);
        }
    }
    lemma_swap_removed_contains(s, i, s[i]);
    assert forall|x: T| #[trigger] t.contains(x) implies s.contains(x) && x != s[i] by {
        lemma_swap_removed_contains(s, i, x);
        let j = choose|j: int| 0 <= j < s.len() && j != i && #[trigger] s[j] == x;
        assert(s.contains(s[j]));
    }
    assert forall|x: T| s.contains(x) && x != s[i] implies #[trigger] t.contains(x) by {
        let j = choose|j: int| 0 <= j < s.len() && #[trigger] s[j] == x;
        lemma_swap_removed_contains(s, i, x);
    }
}

/// Swap-removal keeps keys distinct.
pub proof fn lemma_swap_removed_unique_keys<T: Keyed>(s: Seq<T>, i: int)
    requires
        0 <= i < s.len(),
        unique_keys(s),
    ensures
        unique_keys(swap_removed(s, i)),
{
    lemma_swap_removed_index(s, i);
    let t = swap_removed(s, i);
    assert forall|a: int, b: int|
        0 <= a < b < t.len() implies #[trigger] t[a].key() != #[trigger] t[b].key() by {
        if a == i {
            assert(t[a] == s[s.len() - 1] && t[b] == s[b]);
        } else if b == i {
            assert(t[a] == s[a] && t[b] == s[s.len() - 1]);
        } else {
            assert(t[a] == s[a] && t[b] == s[b]);
        }
    }
}

/// How swap-removing a record changes each lookup, under distinct keys.
pub proof fn lemma_find_swap_removed<T: Keyed>(s: Seq<T>, i: int, k: T::Key)
    requires
        0 <= i < s.len(),
        unique_keys(s),
    ensures
        find_keyed(swap_removed(s, i), k) == (if s[i].key() == k {
            None::<T>
        } else {
            find_keyed(s, k)
        }),
{
    lemma_swap_removed_index(s, i);
    lemma_swap_removed_unique_keys(s, i);
    let t = swap_removed(s, i);
    if s[i].key() == k {
        assert forall|j: int| 0 <= j < t.len() implies #[trigger] t[j].key() != k by {
            if j == i {
                assert(t[j] == s[s.len() - 1]);
            } else {
                assert(t[j] == s[j]);
            }
        }
        lemma_find_none_of(t, k);
    } else {
        lemma_find_props(s, k);
        match find_keyed(s, k) {
            Some(c) => {
                let j = choose|j: int| 0 <= j < s.len() && #[trigger] s[j] == c;
                if j == s.len() - 1 {
                    assert(t[i] == c);
                    lemma_find_at(t, k, i);
                } else {
                    assert(t[j] == c);
                    lemma_find_at(t, k, j);
                }
                lemma_find_at(s, k, j);
            },
            None => {
                lemma_find_none(s, k);
                assert forall|j: int| 0 <= j < t.len() implies #[trigger] t[j].key() != k by {
                    if j == i {
                        assert(t[j] == s[s.len() - 1]);
                    } else {
                        assert(t[j] == s[j]);
                    }
                }
                lemma_find_none_of(t, k);
            },
        }
    }
}

} // verus!
