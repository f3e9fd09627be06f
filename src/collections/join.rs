//! Joins of a listable map with a second map that shares its key type.

use crate::collections::map::{AssocMap, IterableMap, MapMut};
use vstd::prelude::*;

verus! {

/// The keys of `keys`, in order, whose presence in `rhs` is `held`.
pub open spec fn select_keys<M: AssocMap>(keys: Seq<M::Key>, rhs: M, held: bool) -> Seq<M::Key>
    decreases keys.len(),
{
    if keys.len() == 0 {
        Seq::empty()
    } else if (rhs.lookup(keys.last()) is Some) == held {
        select_keys(keys.drop_last(), rhs, held).push(keys.last())
    } else {
        select_keys(keys.drop_last(), rhs, held)
    }
}

/// The result of an inner join: for each key of the left map that the right map also holds,
/// in the left map's order, the key with the right and the left value.
pub struct MapJoinIter<'a, K, L, R> {
    items: Vec<(K, (&'a R, &'a L))>,
}

/// The result of a left join: every entry of the left map, in its order, with the right
/// map's value for the key if there is one.
pub struct MapJoinLeftIter<'a, K, L, R> {
    items: Vec<(K, (Option<&'a R>, &'a L))>,
}

/// The result of a left exclusive join: the entries of the left map, in its order, whose key
/// the right map does not hold.
pub struct MapJoinLeftExclIter<'a, K, L> {
    items: Vec<(K, &'a L)>,
}

impl<'a, K, L, R> MapJoinIter<'a, K, L, R> {
    /// The joined entries.
    pub closed spec fn view(&self) -> Seq<(K, (&'a R, &'a L))> {
        self.items@
    }

    /// Returns the joined entries.
    pub fn into_vec(self) -> (r: Vec<(K, (&'a R, &'a L))>)
        ensures
            r@ == self.view(),
    {
        self.items
    }

    /// Returns the number of joined entries.
    pub fn len(&self) -> (r: usize)
        ensures
            r == self.view().len(),
    {
        self.items.len()
    }
}

impl<'a, K, L, R> MapJoinLeftIter<'a, K, L, R> {
    /// The joined entries.
    pub closed spec fn view(&self) -> Seq<(K, (Option<&'a R>, &'a L))> {
        self.items@
    }

    /// Returns the joined entries.
    pub fn into_vec(self) -> (r: Vec<(K, (Option<&'a R>, &'a L))>)
        ensures
            r@ == self.view(),
    {
        self.items
    }

    /// Returns the number of joined entries.
    pub fn len(&self) -> (r: usize)
        ensures
            r == self.view().len(),
    {
        self.items.len()
    }
}

impl<'a, K, L> MapJoinLeftExclIter<'a, K, L> {
    /// The entries left after the exclusion.
    pub closed spec fn view(&self) -> Seq<(K, &'a L)> {
        self.items@
    }

    /// Returns the entries left after the exclusion.
    pub fn into_vec(self) -> (r: Vec<(K, &'a L)>)
        ensures
            r@ == self.view(),
    {
        self.items
    }

    /// Returns the number of entries.
    pub fn len(&self) -> (r: usize)
        ensures
            r == self.view().len(),
    {
        self.items.len()
    }
}

/// Joins of a listable map with another map keyed the same way.
pub trait MapJoin: IterableMap + Sized where Self::Key: Copy {
    /// Inner join: the keys held by both maps, with the right and the left value.
    fn map_join<'a, M: AssocMap<Key = Self::Key>>(&'a self, rhs: &'a M) -> (r: MapJoinIter<'a, Self::Key, Self::Value, M::Value>)
        requires
            self.map_wf(),
            rhs.map_wf(),
        ensures
            r.view().len() == select_keys(self.key_order(), *rhs, true).len(),
            forall|n: int| 0 <= n < r.view().len() ==> (#[trigger] r.view()[n]).0 == select_keys(self.key_order(), *rhs, true)[n],
            forall|n: int| 0 <= n < r.view().len() ==> self.lookup((#[trigger] r.view()[n]).0) == Some(*r.view()[n].1.1)
                && rhs.lookup(r.view()[n].0) == Some(*r.view()[n].1.0),
            forall|n: int, m: int| 0 <= n < m < r.view().len() ==> (#[trigger] r.view()[n]).0 != (#[trigger] r.view()[m]).0,
            forall|k: Self::Key| (#[trigger] self.lookup(k)) is Some && rhs.lookup(k) is Some ==> exists|n: int| 0 <= n < r.view().len()
                && (#[trigger] r.view()[n]).0 == k,
    {
        let entries = self.entries();
        let mut out: Vec<(Self::Key, (&'a M::Value, &'a Self::Value))> = Vec::new();
        let ghost mut idx: Seq<int> = Seq::empty();
        let mut n: usize = 0;
        while n < entries.len()
            invariant
                0 <= n <= entries@.len(),
                self.map_wf(),
                rhs.map_wf(),
                forall|j: int| 0 <= j < entries@.len() ==> self.lookup((#[trigger] entries@[j]).0) == Some(*entries@[j].1),
                forall|a: int, b: int| 0 <= a < b < entries@.len() ==> (#[trigger] entries@[a]).0 != (#[trigger] entries@[b]).0,
                idx.len() == out@.len(),
                entries@.len() == self.key_order().len(),
                forall|j: int| 0 <= j < entries@.len() ==> (#[trigger] entries@[j]).0 == self.key_order()[j],
                out@.len() == select_keys(self.key_order().subrange(0, n as int), *rhs, true).len(),
                forall|j: int| 0 <= j < out@.len() ==> (#[trigger] out@[j]).0 == select_keys(self.key_order().subrange(0, n as int), *rhs, true)[j],
                forall|j: int| 0 <= j < out@.len() ==> 0 <= #[trigger] idx[j] < n && out@[j].0 == entries@[idx[j]].0
                    && *out@[j].1.1 == *entries@[idx[j]].1 && rhs.lookup(out@[j].0) == Some(*out@[j].1.0),
                forall|a: int, b: int| 0 <= a < b < idx.len() ==> #[trigger] idx[a] < #[trigger] idx[b],
                forall|i: int| 0 <= i < n && rhs.lookup((#[trigger] entries@[i]).0) is Some ==> idx.contains(i),
            decreases entries@.len() - n,
        {
            let key = entries[n].0;
            let ghost before = idx;
            proof {
                let ks = self.key_order();
                assert(ks.subrange(0, n + 1).drop_last() =~= ks.subrange(0, n as int));
                assert(ks.subrange(0, n + 1).last() == key);
            }
            match rhs.get(&key) {
                Some(rv) => {
                    out.push((key, (rv, entries[n].1)));
                    proof {
                        idx = idx.push(n as int);
                    }
                },
                None => {},
            }
            proof {
                assert forall|i: int| 0 <= i < n + 1 && rhs.lookup((#[trigger] entries@[i]).0) is Some implies idx.contains(i) by {
                    if i < n {
                        let j = choose|j: int| 0 <= j < before.len() && before[j] == i;
                        assert(idx[j] == i);
                    } else {
                        assert(idx[idx.len() - 1] == i);
                    }
                }
            }
            n = n + 1;
        }
        proof {
            assert(self.key_order().subrange(0, entries@.len() as int) =~= self.key_order());
            assert forall|a: int, b: int| 0 <= a < b < out@.len() implies (#[trigger] out@[a]).0 != (#[trigger] out@[b]).0 by {
                assert(idx[a] < idx[b]);
            }
            assert forall|k: Self::Key| (#[trigger] self.lookup(k)) is Some && rhs.lookup(k) is Some implies exists|j: int| 0 <= j < out@.len()
                && (#[trigger] out@[j]).0 == k by {
                let i = choose|i: int| 0 <= i < entries@.len() && (#[trigger] entries@[i]).0 == k;
                let j = choose|j: int| 0 <= j < idx.len() && idx[j] == i;
                assert(out@[j].0 == k);
            }
            assert forall|j: int| 0 <= j < out@.len() implies self.lookup((#[trigger] out@[j]).0) == Some(*out@[j].1.1)
                && rhs.lookup(out@[j].0) == Some(*out@[j].1.0) by {
                assert(self.lookup(entries@[idx[j]].0) == Some(*entries@[idx[j]].1));
            }
        }
        MapJoinIter { items: out }
    }

    /// Left join: every entry of this map, with the right map's value for its key if any.
    fn map_join_left<'a, M: AssocMap<Key = Self::Key>>(&'a self, rhs: &'a M) -> (r: MapJoinLeftIter<'a, Self::Key, Self::Value, M::Value>)
        requires
            self.map_wf(),
            rhs.map_wf(),
        ensures
            r.view().len() == self.key_order().len(),
            forall|n: int| 0 <= n < r.view().len() ==> (#[trigger] r.view()[n]).0 == self.key_order()[n],
            forall|n: int| 0 <= n < r.view().len() ==> self.lookup((#[trigger] r.view()[n]).0) == Some(*r.view()[n].1.1)
                && match r.view()[n].1.0 {
                    Some(v) => rhs.lookup(r.view()[n].0) == Some(*v),
                    None => rhs.lookup(r.view()[n].0) is None,
                },
            forall|n: int, m: int| 0 <= n < m < r.view().len() ==> (#[trigger] r.view()[n]).0 != (#[trigger] r.view()[m]).0,
            forall|k: Self::Key| (#[trigger] self.lookup(k)) is Some ==> exists|n: int| 0 <= n < r.view().len() && (#[trigger] r.view()[n]).0 == k,
    {
        let entries = self.entries();
        let mut out: Vec<(Self::Key, (Option<&'a M::Value>, &'a Self::Value))> = Vec::new();
        let mut n: usize = 0;
        while n < entries.len()
            invariant
                0 <= n <= entries@.len(),
                self.map_wf(),
                rhs.map_wf(),
                out@.len() == n,
                forall|j: int| 0 <= j < entries@.len() ==> self.lookup((#[trigger] entries@[j]).0) == Some(*entries@[j].1),
                forall|j: int| 0 <= j < n ==> (#[trigger] out@[j]).0 == entries@[j].0 && *out@[j].1.1 == *entries@[j].1
                    && match out@[j].1.0 {
                        Some(v) => rhs.lookup(out@[j].0) == Some(*v),
                        None => rhs.lookup(out@[j].0) is None,
                    },
            decreases entries@.len() - n,
        {
            let key = entries[n].0;
            out.push((key, (rhs.get(&key), entries[n].1)));
            n = n + 1;
        }
        proof {
            assert forall|a: int, b: int| 0 <= a < b < out@.len() implies (#[trigger] out@[a]).0 != (#[trigger] out@[b]).0 by {
                assert(entries@[a].0 != entries@[b].0);
            }
            assert forall|k: Self::Key| (#[trigger] self.lookup(k)) is Some implies exists|j: int| 0 <= j < out@.len() && (#[trigger] out@[j]).0 == k by {
                let i = choose|i: int| 0 <= i < entries@.len() && (#[trigger] entries@[i]).0 == k;
                assert(out@[i].0 == k);
            }
        }
        MapJoinLeftIter { items: out }
    }

    /// Left exclusive join: the entries of this map whose key the right map does not hold.
    fn map_join_left_excl<'a, M: AssocMap<Key = Self::Key>>(&'a self, rhs: &'a M) -> (r: MapJoinLeftExclIter<'a, Self::Key, Self::Value>)
        requires
            self.map_wf(),
            rhs.map_wf(),
        ensures
            r.view().len() == select_keys(self.key_order(), *rhs, false).len(),
            forall|n: int| 0 <= n < r.view().len() ==> (#[trigger] r.view()[n]).0 == select_keys(self.key_order(), *rhs, false)[n],
            forall|n: int| 0 <= n < r.view().len() ==> self.lookup((#[trigger] r.view()[n]).0) == Some(*r.view()[n].1)
                && rhs.lookup(r.view()[n].0) is None,
            forall|n: int, m: int| 0 <= n < m < r.view().len() ==> (#[trigger] r.view()[n]).0 != (#[trigger] r.view()[m]).0,
            forall|k: Self::Key| (#[trigger] self.lookup(k)) is Some && rhs.lookup(k) is None ==> exists|n: int| 0 <= n < r.view().len()
                && (#[trigger] r.view()[n]).0 == k,
    {
        let entries = self.entries();
        let mut out: Vec<(Self::Key, &'a Self::Value)> = Vec::new();
        let ghost mut idx: Seq<int> = Seq::empty();
        let mut n: usize = 0;
        while n < entries.len()
            invariant
                0 <= n <= entries@.len(),
                self.map_wf(),
                rhs.map_wf(),
                forall|j: int| 0 <= j < entries@.len() ==> self.lookup((#[trigger] entries@[j]).0) == Some(*entries@[j].1),
                forall|a: int, b: int| 0 <= a < b < entries@.len() ==> (#[trigger] entries@[a]).0 != (#[trigger] entries@[b]).0,
                idx.len() == out@.len(),
                entries@.len() == self.key_order().len(),
                forall|j: int| 0 <= j < entries@.len() ==> (#[trigger] entries@[j]).0 == self.key_order()[j],
                out@.len() == select_keys(self.key_order().subrange(0, n as int), *rhs, false).len(),
                forall|j: int| 0 <= j < out@.len() ==> (#[trigger] out@[j]).0 == select_keys(self.key_order().subrange(0, n as int), *rhs, false)[j],
                forall|j: int| 0 <= j < out@.len() ==> 0 <= #[trigger] idx[j] < n && out@[j].0 == entries@[idx[j]].0
                    && *out@[j].1 == *entries@[idx[j]].1 && rhs.lookup(out@[j].0) is None,
                forall|a: int, b: int| 0 <= a < b < idx.len() ==> #[trigger] idx[a] < #[trigger] idx[b],
                forall|i: int| 0 <= i < n && rhs.lookup((#[trigger] entries@[i]).0) is None ==> idx.contains(i),
            decreases entries@.len() - n,
        {
            let key = entries[n].0;
            let ghost before = idx;
            proof {
                let ks = self.key_order();
                assert(ks.subrange(0, n + 1).drop_last() =~= ks.subrange(0, n as int));
                assert(ks.subrange(0, n + 1).last() == key);
            }
            let held = rhs.contains_key(&key);
            if !held {
                out.push((key, entries[n].1));
                proof {
                    idx = idx.push(n as int);
                }
            }
            proof {
                assert forall|i: int| 0 <= i < n + 1 && rhs.lookup((#[trigger] entries@[i]).0) is None implies idx.contains(i) by {
                    if i < n {
                        let j = choose|j: int| 0 <= j < before.len() && before[j] == i;
                        assert(idx[j] == i);
                    } else {
                        assert(idx[idx.len() - 1] == i);
                    }
                }
            }
            n = n + 1;
        }
        proof {
            assert(self.key_order().subrange(0, entries@.len() as int) =~= self.key_order());
            assert forall|a: int, b: int| 0 <= a < b < out@.len() implies (#[trigger] out@[a]).0 != (#[trigger] out@[b]).0 by {
                assert(idx[a] < idx[b]);
            }
            assert forall|k: Self::Key| (#[trigger] self.lookup(k)) is Some && rhs.lookup(k) is None implies exists|j: int| 0 <= j < out@.len()
                && (#[trigger] out@[j]).0 == k by {
                let i = choose|i: int| 0 <= i < entries@.len() && (#[trigger] entries@[i]).0 == k;
                let j = choose|j: int| 0 <= j < idx.len() && idx[j] == i;
                assert(out@[j].0 == k);
            }
            assert forall|j: int| 0 <= j < out@.len() implies self.lookup((#[trigger] out@[j]).0) == Some(*out@[j].1)
                && rhs.lookup(out@[j].0) is None by {
                assert(self.lookup(entries@[idx[j]].0) == Some(*entries@[idx[j]].1));
            }
        }
        MapJoinLeftExclIter { items: out }
    }

    /// Mutable inner join: for each key of this map that `rhs` also holds, in this map's order,
    /// replaces the right value `rv` by `f(key, rv, left value)`.
    fn map_join_mut<M: MapMut<Key = Self::Key>, F: Fn(&Self::Key, &M::Value, &Self::Value) -> M::Value>(&self, rhs: &mut M, f: F)
        requires
            self.map_wf(),
            old(rhs).map_wf(),
            forall|k: Self::Key, r: M::Value, l: Self::Value| #[trigger] f.requires((&k, &r, &l)),
        ensures
            final(rhs).map_wf(),
            forall|k: Self::Key| (#[trigger] final(rhs).lookup(k)) is Some == old(rhs).lookup(k) is Some,
            forall|k: Self::Key| (#[trigger] old(rhs).lookup(k)) is Some && self.lookup(k) is None ==> final(rhs).lookup(k) == old(rhs).lookup(k),
            forall|k: Self::Key| (#[trigger] old(rhs).lookup(k)) is Some && self.lookup(k) is Some ==> f.ensures(
                (&k, &old(rhs).lookup(k)->0, &self.lookup(k)->0),
                final(rhs).lookup(k)->0,
            ),
    {
        let entries = self.entries();
        let mut n: usize = 0;
        while n < entries.len()
            invariant
                0 <= n <= entries@.len(),
                self.map_wf(),
                rhs.map_wf(),
                forall|k: Self::Key, r: M::Value, l: Self::Value| #[trigger] f.requires((&k, &r, &l)),
                forall|j: int| 0 <= j < entries@.len() ==> self.lookup((#[trigger] entries@[j]).0) == Some(*entries@[j].1),
                forall|a: int, b: int| 0 <= a < b < entries@.len() ==> (#[trigger] entries@[a]).0 != (#[trigger] entries@[b]).0,
                forall|k: Self::Key| (#[trigger] self.lookup(k)) is Some ==> exists|j: int| 0 <= j < entries@.len() && (#[trigger] entries@[j]).0 == k,
                forall|k: Self::Key| (#[trigger] rhs.lookup(k)) is Some == old(rhs).lookup(k) is Some,
                forall|k: Self::Key| (#[trigger] old(rhs).lookup(k)) is Some && !(exists|j: int| 0 <= j < n && (#[trigger] entries@[j]).0 == k)
                    ==> rhs.lookup(k) == old(rhs).lookup(k),
                forall|j: int| 0 <= j < n && (#[trigger] old(rhs).lookup(entries@[j].0)) is Some ==> f.ensures(
                    (&entries@[j].0, &old(rhs).lookup(entries@[j].0)->0, &*entries@[j].1),
                    rhs.lookup(entries@[j].0)->0,
                ),
            decreases entries@.len() - n,
        {
            let key = entries[n].0;
            let ghost before = *rhs;
            let fresh = match rhs.get(&key) {
                Some(rv) => Some(f(&key, rv, entries[n].1)),
                None => None,
            };
            match fresh {
                Some(value) => {
                    match rhs.get_mut(&key) {
                        Some(slot) => {
                            *slot = value;
                        },
                        None => {},
                    }
                },
                None => {},
            }
            proof {
                assert(before.lookup(key) == old(rhs).lookup(key)) by {
                    if before.lookup(key) != old(rhs).lookup(key) {
                        let j = choose|j: int| 0 <= j < n && (#[trigger] entries@[j]).0 == key;
                        assert(entries@[j].0 != entries@[n as int].0);
                    }
                }
                assert forall|j: int| 0 <= j < n + 1 && (#[trigger] old(rhs).lookup(entries@[j].0)) is Some implies f.ensures(
                    (&entries@[j].0, &old(rhs).lookup(entries@[j].0)->0, &*entries@[j].1),
                    rhs.lookup(entries@[j].0)->0,
                ) by {
                    if j < n {
                        assert(entries@[j].0 != key);
                    }
                }
                assert forall|k: Self::Key| (#[trigger] old(rhs).lookup(k)) is Some && !(exists|j: int| 0 <= j < n + 1 && (#[trigger] entries@[j]).0 == k)
                    implies rhs.lookup(k) == old(rhs).lookup(k) by {
                    assert(k != entries@[n as int].0);
                }
            }
            n = n + 1;
        }
        proof {
            assert forall|k: Self::Key| (#[trigger] old(rhs).lookup(k)) is Some && self.lookup(k) is Some implies f.ensures(
                (&k, &old(rhs).lookup(k)->0, &self.lookup(k)->0),
                rhs.lookup(k)->0,
            ) by {
                let j = choose|j: int| 0 <= j < entries@.len() && (#[trigger] entries@[j]).0 == k;
            }
            assert forall|k: Self::Key| (#[trigger] old(rhs).lookup(k)) is Some && self.lookup(k) is None implies rhs.lookup(k) == old(rhs).lookup(k) by {
                if exists|j: int| 0 <= j < entries@.len() && (#[trigger] entries@[j]).0 == k {
                    let j = choose|j: int| 0 <= j < entries@.len() && (#[trigger] entries@[j]).0 == k;
                }
            }
        }
    }
}

impl<T: IterableMap> MapJoin for T where T::Key: Copy {
}

} // verus!
