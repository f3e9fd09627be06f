//! Map keyed by generational indices, stored in a backing map keyed by the raw index.

use crate::collections::map::{AssocMap, IterableMap, MapMut};
use crate::collections::sparseset::SparseSet;
use crate::collections::vecmap::VecMap;
use crate::genindex::{GenIndex, IndexU64};
use crate::markers::UnsignedNum;
use vstd::prelude::*;

verus! {

/// An associative array keyed by [GenIndex]. Each entry is stored in the backing map under its
/// key's raw index together with the full key, so a key whose generation differs from the stored
/// one finds nothing.
#[verifier::reject_recursive_types(T)]
#[verifier::reject_recursive_types(I)]
pub struct GenIndexMap<T, I: GenIndex, M: AssocMap<Key = I::Index, Value = (I, T)>> {
    map: M,
}

/// A [GenIndexMap] backed by a [SparseSet].
pub type GenIndexSparseSet<T, I = IndexU64> = GenIndexMap<T, I, SparseSet<(I, T), <I as GenIndex>::Index>>;

/// A [GenIndexMap] backed by a [VecMap].
pub type GenIndexVecMap<T, I = IndexU64> = GenIndexMap<T, I, VecMap<(I, T), <I as GenIndex>::Index>>;

impl<T, I: GenIndex, M: AssocMap<Key = I::Index, Value = (I, T)>> GenIndexMap<T, I, M> {
    /// The backing map.
    pub closed spec fn backing(&self) -> M {
        self.map
    }

    /// The map is well formed: the backing map is, and every entry sits under its key's raw index.
    pub open spec fn wf(&self) -> bool {
        &&& self.backing().map_wf()
        &&& forall|r: I::Index| (#[trigger] self.backing().lookup(r)) is Some ==> (self.backing().lookup(r)->0).0.spec_index() == r
    }

    /// The value stored for `key`: the entry under its raw index, if that entry's key is `key`.
    pub open spec fn spec_get(&self, key: I) -> Option<T> {
        match self.backing().lookup(key.spec_index()) {
            Some(e) => if e.0 == key {
                Some(e.1)
            } else {
                None
            },
            None => None,
        }
    }

    /// Returns a reference to the value of `key`.
    pub fn get(&self, key: &I) -> (r: Option<&T>)
        requires
            self.wf(),
        ensures
            match r {
                Some(v) => self.spec_get(*key) == Some(*v),
                None => self.spec_get(*key) is None,
            },
    {
        match self.map.get(&key.index()) {
            Some(e) => {
                if e.0.same_as(key) {
                    Some(&e.1)
                } else {
                    None
                }
            },
            None => None,
        }
    }

    /// Returns `true` if the map holds a value for `key`.
    pub fn contains_key(&self, key: &I) -> (r: bool)
        requires
            self.wf(),
        ensures
            r == self.spec_get(*key) is Some,
    {
        self.get(key).is_some()
    }

    /// Returns the number of entries.
    pub fn len(&self) -> (r: usize)
        requires
            self.wf(),
        ensures
            r == self.backing().map_len(),
    {
        self.map.len()
    }

    /// Returns the backing map.
    pub fn map(&self) -> (r: &M)
        ensures
            *r == self.backing(),
    {
        &self.map
    }
}

impl<T, I: GenIndex, M: MapMut<Key = I::Index, Value = (I, T)>> GenIndexMap<T, I, M> {
    /// Constructs a new, empty map.
    pub fn new() -> (r: Self)
        ensures
            r.wf(),
            r.backing().map_len() == 0,
            forall|k: I| #[trigger] r.spec_get(k) is None,
    {
        GenIndexMap { map: M::empty() }
    }

    /// Stores `value` for `key` under its raw index. Returns the entry that was under that raw
    /// index before, whatever its generation.
    pub fn insert(&mut self, key: I, value: T) -> (r: Option<(I, T)>)
        requires
            old(self).wf(),
            old(self).backing().can_insert(key.spec_index()),
        ensures
            final(self).wf(),
            r == old(self).backing().lookup(key.spec_index()),
            final(self).backing().map_len() == old(self).backing().map_len() + (if r is None { 1int } else { 0int }),
            final(self).spec_get(key) == Some(value),
            forall|k: I| k.spec_index() != key.spec_index() ==> #[trigger] final(self).spec_get(k) == old(self).spec_get(k),
            forall|k: I| k.spec_index() == key.spec_index() && k != key ==> (#[trigger] final(self).spec_get(k)) is None,
    {
        let r = self.map.insert(key.index(), (key, value));
        proof {
            assert forall|k: I| k.spec_index() == key.spec_index() && k != key implies (#[trigger] self.spec_get(k)) is None by {
            }
        }
        r
    }

    /// Removes every entry.
    pub fn clear(&mut self)
        requires
            old(self).wf(),
        ensures
            final(self).wf(),
            forall|k: I| #[trigger] final(self).spec_get(k) is None,
    {
        self.map.clear();
    }

    /// Returns a mutable reference to the value of `key`.
    pub fn get_mut(&mut self, key: &I) -> (r: Option<&mut T>)
        requires
            old(self).wf(),
        ensures
            final(self).wf(),
            forall|k: I| k != *key ==> #[trigger] final(self).spec_get(k) == old(self).spec_get(k),
            match r {
                Some(v) => {
                    &&& old(self).spec_get(*key) == Some(*v)
                    &&& final(self).spec_get(*key) == Some(*final(v))
                },
                None => old(self).spec_get(*key) is None && final(self).spec_get(*key) is None,
            },
    {
        if !self.contains_key(key) {
            return None;
        }
        proof {
            assert forall|k: I| k != *key && k.spec_index() == key.spec_index() implies (#[trigger] old(self).spec_get(k)) is None by {
            }
        }
        match self.map.get_mut(&key.index()) {
            Some(e) => Some(&mut e.1),
            None => None,
        }
    }

    /// Removes and returns the value of `key`.
    pub fn remove(&mut self, key: &I) -> (r: Option<T>)
        requires
            old(self).wf(),
        ensures
            final(self).wf(),
            r == old(self).spec_get(*key),
            final(self).backing().map_len() + (if r is Some { 1int } else { 0int }) == old(self).backing().map_len(),
            final(self).spec_get(*key) is None,
            forall|k: I| k != *key ==> #[trigger] final(self).spec_get(k) == old(self).spec_get(k),
    {
        if self.contains_key(key) {
            let ix = key.index();
            let e = self.map.remove(&ix);
            proof {
                assert forall|k: I| k != *key implies #[trigger] self.spec_get(k) == old(self).spec_get(k) by {
                    if k.spec_index() == key.spec_index() {
                        assert(old(self).spec_get(k) is None);
                    }
                }
            }
            match e {
                Some(entry) => Some(entry.1),
                None => None,
            }
        } else {
            None
        }
    }

    /// Returns the backing map mutably. Changes made through it must keep every entry under
    /// its key's raw index for the map to stay well formed.
    pub fn map_mut(&mut self) -> (r: &mut M)
        ensures
            *r == old(self).backing(),
            final(self).backing() == *final(r),
    {
        &mut self.map
    }
}

impl<T, I: GenIndex, M: MapMut<Key = I::Index, Value = (I, T)> + IterableMap> GenIndexMap<T, I, M> {
    /// Keeps only the entries for which `f` returns `true`.
    pub fn retain<F: Fn(&I, &T) -> bool>(&mut self, f: F)
        requires
            old(self).wf(),
            forall|k: I, v: T| #[trigger] f.requires((&k, &v)),
        ensures
            final(self).wf(),
            forall|k: I| (#[trigger] final(self).spec_get(k)) is Some ==> final(self).spec_get(k) == old(self).spec_get(k)
                && f.ensures((&k, &final(self).spec_get(k)->0), true),
            forall|k: I| (#[trigger] old(self).spec_get(k)) is Some && final(self).spec_get(k) is None
                ==> f.ensures((&k, &old(self).spec_get(k)->0), false),
    {
        let mut doomed: Vec<I> = Vec::new();
        {
            let entries = self.map.entries();
            let mut n: usize = 0;
            while n < entries.len()
                invariant
                    0 <= n <= entries@.len(),
                    self.wf(),
                    *self == *old(self),
                    forall|k: I, v: T| #[trigger] f.requires((&k, &v)),
                    forall|j: int| 0 <= j < entries@.len() ==> self.backing().lookup((#[trigger] entries@[j]).0) == Some(*entries@[j].1),
                    forall|j: int| 0 <= j < doomed@.len() ==> (#[trigger] old(self).spec_get(doomed@[j])) is Some
                        && f.ensures((&doomed@[j], &old(self).spec_get(doomed@[j])->0), false),
                    forall|j: int| 0 <= j < n ==> (doomed@.contains(((#[trigger] entries@[j]).1).0) || f.ensures((&(entries@[j].1).0, &(entries@[j].1).1), true)),
                decreases entries@.len() - n,
            {
                let e = entries[n].1;
                let ghost before = doomed@;
                let keep = f(&e.0, &e.1);
                if !keep {
                    doomed.push(e.0);
                }
                proof {
                    assert forall|j: int| 0 <= j < n + 1 implies (doomed@.contains(((#[trigger] entries@[j]).1).0) || f.ensures((&(entries@[j].1).0, &(entries@[j].1).1), true)) by {
                        if j < n {
                            if before.contains((entries@[j].1).0) {
                                let i = choose|i: int| 0 <= i < before.len() && before[i] == (entries@[j].1).0;
                                assert(doomed@[i] == before[i]);
                            }
                        } else if !keep {
                            assert(doomed@[doomed@.len() - 1] == e.0);
                        }
                    }
                }
                n = n + 1;
            }
            proof {
                assert forall|k: I| (#[trigger] old(self).spec_get(k)) is Some implies doomed@.contains(k) || f.ensures((&k, &old(self).spec_get(k)->0), true) by {
                    let j = choose|j: int| 0 <= j < entries@.len() && (#[trigger] entries@[j]).0 == k.spec_index();
                    assert((entries@[j].1).0 == k);
                }
            }
        }
        let ghost start = *self;
        let mut j: usize = 0;
        while j < doomed.len()
            invariant
                0 <= j <= doomed@.len(),
                self.wf(),
                forall|i: int| 0 <= i < doomed@.len() ==> (#[trigger] old(self).spec_get(doomed@[i])) is Some
                    && f.ensures((&doomed@[i], &old(self).spec_get(doomed@[i])->0), false),
                forall|k: I| (#[trigger] old(self).spec_get(k)) is Some ==> doomed@.contains(k) || f.ensures((&k, &old(self).spec_get(k)->0), true),
                forall|k: I| (#[trigger] self.spec_get(k)) is Some ==> self.spec_get(k) == old(self).spec_get(k),
                forall|k: I| (#[trigger] old(self).spec_get(k)) is Some && self.spec_get(k) is None ==> exists|i: int| 0 <= i < j && doomed@[i] == k,
                forall|i: int| 0 <= i < j ==> (#[trigger] self.spec_get(doomed@[i])) is None,
                forall|k: I| (#[trigger] old(self).spec_get(k)) is Some && !(exists|i: int| 0 <= i < j && doomed@[i] == k) ==> self.spec_get(k) == old(self).spec_get(k),
            decreases doomed@.len() - j,
        {
            let k = doomed[j];
            self.remove(&k);
            j = j + 1;
        }
        proof {
            assert forall|k: I| (#[trigger] self.spec_get(k)) is Some implies self.spec_get(k) == old(self).spec_get(k)
                && f.ensures((&k, &self.spec_get(k)->0), true) by {
                if doomed@.contains(k) {
                    let i = choose|i: int| 0 <= i < doomed@.len() && doomed@[i] == k;
                    assert(self.spec_get(doomed@[i]) is None);
                }
            }
        }
    }
}

impl<T, I: GenIndex, M: AssocMap<Key = I::Index, Value = (I, T)>> AssocMap for GenIndexMap<T, I, M> {
    type Key = I;

    type Value = T;

    open spec fn map_wf(&self) -> bool {
        self.wf()
    }

    open spec fn lookup(&self, key: I) -> Option<T> {
        self.spec_get(key)
    }

    open spec fn map_len(&self) -> nat {
        self.backing().map_len()
    }

    fn get(&self, key: &I) -> (r: Option<&T>) {
        GenIndexMap::get(self, key)
    }

    fn len(&self) -> (r: usize) {
        GenIndexMap::len(self)
    }
}

/// Whether every entry of a backing map sits under its key's raw index.
pub open spec fn entries_placed<T, I: GenIndex, M: AssocMap<Key = I::Index, Value = (I, T)>>(map: M) -> bool {
    forall|r: I::Index| (#[trigger] map.lookup(r)) is Some ==> (map.lookup(r)->0).0.spec_index() == r
}

impl<T, I: GenIndex, M: AssocMap<Key = I::Index, Value = (I, T)> + IterableMap> GenIndexMap<T, I, M> {
    /// Wraps a backing map, the map's persisted form. Returns `None` where an entry does not sit
    /// under its key's raw index.
    pub fn from_map(map: M) -> (r: Option<Self>)
        requires
            map.map_wf(),
        ensures
            r is Some <==> entries_placed::<T, I, M>(map),
            r matches Some(g) ==> g.wf() && g.backing() == map,
    {
        let mut ok = true;
        {
            let entries = map.entries();
            let mut n: usize = 0;
            while n < entries.len()
                invariant
                    0 <= n <= entries@.len(),
                    map.map_wf(),
                    forall|j: int| 0 <= j < entries@.len() ==> map.lookup((#[trigger] entries@[j]).0) == Some(*entries@[j].1),
                    forall|k: I::Index| (#[trigger] map.lookup(k)) is Some ==> exists|j: int| 0 <= j < entries@.len() && (#[trigger] entries@[j]).0 == k,
                    ok == forall|j: int| 0 <= j < n ==> ((#[trigger] entries@[j]).1).0.spec_index() == entries@[j].0,
                decreases entries@.len() - n,
            {
                let e = entries[n];
                let placed = (e.1).0.index().eq_num(&e.0);
                if !placed {
                    ok = false;
                }
                n = n + 1;
            }
            proof {
                if ok {
                    assert forall|r: I::Index| (#[trigger] map.lookup(r)) is Some implies (map.lookup(r)->0).0.spec_index() == r by {
                        let j = choose|j: int| 0 <= j < entries@.len() && (#[trigger] entries@[j]).0 == r;
                    }
                } else {
                    let j = choose|j: int| 0 <= j < entries@.len() && ((#[trigger] entries@[j]).1).0.spec_index() != entries@[j].0;
                    assert(map.lookup(entries@[j].0) is Some);
                }
            }
        }
        if ok {
            Some(GenIndexMap { map })
        } else {
            None
        }
    }
}

impl<T, I: GenIndex, M: AssocMap<Key = I::Index, Value = (I, T)> + IterableMap> IterableMap for GenIndexMap<T, I, M> {
    open spec fn key_order(&self) -> Seq<I> {
        self.backing().key_order().map_values(|rk: I::Index| (self.backing().lookup(rk)->0).0)
    }

    fn entries(&self) -> (r: Vec<(I, &T)>) {
        let inner = self.map.entries();
        let mut out: Vec<(I, &T)> = Vec::new();
        let mut n: usize = 0;
        while n < inner.len()
            invariant
                0 <= n <= inner@.len(),
                self.wf(),
                out@.len() == n,
                forall|j: int| 0 <= j < inner@.len() ==> self.backing().lookup((#[trigger] inner@[j]).0) == Some(*inner@[j].1),
                forall|j: int| 0 <= j < n ==> (#[trigger] out@[j]).0 == (inner@[j].1).0 && *out@[j].1 == (inner@[j].1).1,
                inner@.len() == self.backing().key_order().len(),
                forall|j: int| 0 <= j < inner@.len() ==> (#[trigger] inner@[j]).0 == self.backing().key_order()[j],
            decreases inner@.len() - n,
        {
            let e = inner[n].1;
            out.push((e.0, &e.1));
            n = n + 1;
        }
        proof {
            assert forall|a: int, b: int| 0 <= a < b < out@.len() implies (#[trigger] out@[a]).0 != (#[trigger] out@[b]).0 by {
                assert(inner@[a].0 != inner@[b].0);
            }
            assert forall|k: I| (#[trigger] self.spec_get(k)) is Some implies exists|j: int| 0 <= j < out@.len() && (#[trigger] out@[j]).0 == k by {
                let j = choose|j: int| 0 <= j < inner@.len() && (#[trigger] inner@[j]).0 == k.spec_index();
                assert(out@[j].0 == k);
            }
        }
        out
    }
}

} // verus!
