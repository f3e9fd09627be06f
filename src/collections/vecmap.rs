//! Map backed by a `Vec` of `Option`s, indexed by unsigned integer keys.

use crate::collections::map::{AssocMap, IterableMap, IterableMapMut, MapMut};
use crate::markers::UnsignedNum;
use std::marker::PhantomData;
use vstd::prelude::*;

verus! {

/// The number of occupied slots.
pub open spec fn count_some<V>(s: Seq<Option<V>>) -> nat
    decreases s.len(),
{
    if s.len() == 0 {
        0
    } else {
        count_some(s.drop_last()) + if s.last() is Some {
            1nat
        } else {
            0nat
        }
    }
}

proof fn lemma_count_update<V>(s: Seq<Option<V>>, i: int, x: Option<V>)
    requires
        0 <= i < s.len(),
    ensures
        count_some(s.update(i, x)) + (if s[i] is Some { 1int } else { 0int }) == count_some(s) + (if x is Some { 1int } else { 0int }),
        count_some(s) <= s.len(),
    decreases s.len(),
{
    let t = s.update(i, x);
    if i == s.len() - 1 {
        assert(t.drop_last() =~= s.drop_last());
    } else {
        assert(t.drop_last() =~= s.drop_last().update(i, x));
        lemma_count_update(s.drop_last(), i, x);
    }
    lemma_count_bound(s);
}

proof fn lemma_count_bound<V>(s: Seq<Option<V>>)
    ensures
        count_some(s) <= s.len(),
    decreases s.len(),
{
    if s.len() > 0 {
        lemma_count_bound(s.drop_last());
    }
}

proof fn lemma_count_none<V>(s: Seq<Option<V>>)
    requires
        forall|k: int| 0 <= k < s.len() ==> s[k] is None,
    ensures
        count_some(s) == 0,
    decreases s.len(),
{
    if s.len() > 0 {
        lemma_count_none(s.drop_last());
    }
}

proof fn lemma_count_push_none<V>(s: Seq<Option<V>>)
    ensures
        count_some(s.push(None)) == count_some(s),
{
    assert(s.push(None).drop_last() =~= s);
}

/// The keys of the occupied slots, in increasing order.
pub open spec fn occupied_keys<V, I: UnsignedNum>(s: Seq<Option<V>>) -> Seq<I>
    decreases s.len(),
{
    if s.len() == 0 {
        Seq::empty()
    } else if s.last() is Some {
        occupied_keys::<V, I>(s.drop_last()).push(choose|k: I| k.as_nat() == s.len() - 1)
    } else {
        occupied_keys::<V, I>(s.drop_last())
    }
}

/// An associative array that maps unsigned integer keys to values through a `Vec` of `Option`s.
/// Slots keep their key's position, so iteration follows increasing keys.
pub struct VecMap<V, I: UnsignedNum = usize> {
    items: Vec<Option<V>>,
    len: usize,
    phantom: PhantomData<I>,
}

impl<V, I: UnsignedNum> VecMap<V, I> {
    /// The slots, by key.
    pub closed spec fn view(&self) -> Seq<Option<V>> {
        self.items@
    }

    /// The value at key `k`, if any.
    pub open spec fn spec_get(&self, k: nat) -> Option<V> {
        if k < self.view().len() {
            self.view()[k as int]
        } else {
            None
        }
    }

    /// The number of entries.
    pub open spec fn spec_len(&self) -> nat {
        count_some(self.view())
    }

    /// The map is well formed: its count is right and every slot position fits the key type.
    pub closed spec fn wf(&self) -> bool {
        &&& self.len == count_some(self.items@)
        &&& self.items@.len() <= I::max_nat() + 1
        &&& self.items@.len() <= usize::MAX
    }

    /// Constructs a new, empty map.
    pub fn new() -> (r: Self)
        ensures
            r.wf(),
            r.view() == Seq::<Option<V>>::empty(),
    {
        Self::with_capacity(0)
    }

    /// Constructs a new, empty map with room for `capacity` slots.
    pub fn with_capacity(capacity: usize) -> (r: Self)
        ensures
            r.wf(),
            r.view() == Seq::<Option<V>>::empty(),
    {
        VecMap { items: Vec::with_capacity(capacity), len: 0, phantom: PhantomData }
    }

    /// Returns the number of entries.
    pub fn len(&self) -> (r: usize)
        requires
            self.wf(),
        ensures
            r == self.spec_len(),
    {
        self.len
    }

    /// Returns a reference to the value at key `i`.
    pub fn get(&self, i: &I) -> (r: Option<&V>)
        requires
            self.wf(),
        ensures
            match r {
                Some(v) => self.spec_get(i.as_nat()) == Some(*v),
                None => self.spec_get(i.as_nat()) is None,
            },
    {
        match i.to_usize() {
            Some(k) => {
                if k < self.items.len() {
                    self.items[k].as_ref()
                } else {
                    None
                }
            },
            None => {
                proof {
                    I::lemma_as_nat(*i, *i);
                }
                None
            },
        }
    }

    /// Returns a mutable reference to the value at key `i`.
    pub fn get_mut(&mut self, i: &I) -> (r: Option<&mut V>)
        requires
            old(self).wf(),
        ensures
            final(self).wf(),
            final(self).view().len() == old(self).view().len(),
            forall|p: nat| (#[trigger] final(self).spec_get(p)) is Some == old(self).spec_get(p) is Some,
            forall|p: nat| p != i.as_nat() ==> #[trigger] final(self).spec_get(p) == old(self).spec_get(p),
            match r {
                Some(v) => {
                    &&& old(self).spec_get(i.as_nat()) == Some(*v)
                    &&& final(self).spec_get(i.as_nat()) == Some(*final(v))
                    &&& final(self).view() == old(self).view().update(i.as_nat() as int, Some(*final(v)))
                },
                None => {
                    &&& old(self).spec_get(i.as_nat()) is None
                    &&& final(self).view() == old(self).view()
                },
            },
    {
        match i.to_usize() {
            Some(k) => {
                if k < self.items.len() {
                    if self.items[k].is_none() {
                        return None;
                    }
                    proof {
                        let s0 = self.items@;
                        assert forall|x: V| #[trigger] count_some(s0.update(k as int, Some(x))) == count_some(s0) by {
                            lemma_count_update(s0, k as int, Some(x));
                        }
                    }
                    self.items[k].as_mut()
                } else {
                    None
                }
            },
            None => None,
        }
    }

    /// Returns `true` if the map holds no entries.
    pub fn is_empty(&self) -> (r: bool)
        requires
            self.wf(),
        ensures
            r == (self.spec_len() == 0),
    {
        self.len == 0
    }

    /// Returns `true` if the map holds a value at key `i`.
    pub fn contains_key(&self, i: &I) -> (r: bool)
        requires
            self.wf(),
        ensures
            r == self.spec_get(i.as_nat()) is Some,
    {
        self.get(i).is_some()
    }

    /// Returns the number of slots the map can hold without reallocating.
    pub fn capacity(&self) -> (r: usize)
        ensures
            r >= self.view().len(),
    {
        crate::collections::vec_capacity(&self.items)
    }

    /// Reserves room for at least `additional` more slots.
    pub fn reserve(&mut self, additional: usize)
        requires
            old(self).wf(),
        ensures
            final(self).wf(),
            final(self).view() == old(self).view(),
    {
        self.items.reserve(additional);
    }

    /// Removes every entry.
    pub fn clear(&mut self)
        requires
            old(self).wf(),
        ensures
            final(self).wf(),
            final(self).view() == Seq::<Option<V>>::empty(),
    {
        self.items.clear();
        self.len = 0;
    }

    /// Stores `v` at key `i`, growing the slot table with empty slots up to `i` where needed.
    /// Returns the value that was there before.
    pub fn insert(&mut self, i: I, v: V) -> (r: Option<V>)
        requires
            old(self).wf(),
            i.as_nat() < usize::MAX,
        ensures
            final(self).wf(),
            r == old(self).spec_get(i.as_nat()),
            final(self).spec_len() == old(self).spec_len() + (if r is None { 1int } else { 0int }),
            final(self).view().len() == (if i.as_nat() < old(self).view().len() {
                old(self).view().len()
            } else {
                i.as_nat() + 1
            }),
            forall|k: nat| #[trigger] final(self).spec_get(k) == (if k == i.as_nat() {
                Some(v)
            } else {
                old(self).spec_get(k)
            }),
    {
        let index = match i.to_usize() {
            Some(k) => k,
            None => {
                proof {
                    assert(false);
                }
                0
            },
        };
        proof {
            I::lemma_as_nat(i, i);
        }
        while self.items.len() <= index
            invariant
                self.len == count_some(self.items@),
                self.len == old(self).len,
                self.items@.len() <= index + 1 || self.items@.len() == old(self).items@.len(),
                index == i.as_nat(),
                old(self).items@.len() <= self.items@.len(),
                forall|k: int| 0 <= k < old(self).items@.len() ==> self.items@[k] == old(self).items@[k],
                forall|k: int| old(self).items@.len() <= k < self.items@.len() ==> self.items@[k] is None,
            decreases index + 1 - self.items@.len(),
        {
            proof {
                lemma_count_push_none(self.items@);
            }
            self.items.push(None);
        }
        proof {
            lemma_count_update(self.items@, index as int, Some(v));
            lemma_count_bound(self.items@);
        }
        let mut previous = Some(v);
        std::mem::swap(&mut self.items[index], &mut previous);
        proof {
            lemma_count_bound(self.items@);
        }
        if previous.is_none() {
            self.len = self.len + 1;
        }
        proof {
            lemma_count_bound(self.items@);
        }
        previous
    }

    /// Removes and returns the value at key `i`.
    pub fn remove(&mut self, i: &I) -> (r: Option<V>)
        requires
            old(self).wf(),
        ensures
            final(self).wf(),
            r == old(self).spec_get(i.as_nat()),
            final(self).spec_len() + (if r is Some { 1int } else { 0int }) == old(self).spec_len(),
            final(self).view().len() == old(self).view().len(),
            forall|k: nat| #[trigger] final(self).spec_get(k) == (if k == i.as_nat() {
                None
            } else {
                old(self).spec_get(k)
            }),
    {
        match i.to_usize() {
            Some(index) => {
                if index < self.items.len() && self.items[index].is_some() {
                    proof {
                        lemma_count_update(self.items@, index as int, None);
                    }
                    self.len = self.len - 1;
                    let mut previous = None;
                    std::mem::swap(&mut self.items[index], &mut previous);
                    proof {
                        assert(self.items@ == old(self).items@.update(index as int, None));
                    }
                    previous
                } else {
                    None
                }
            },
            None => None,
        }
    }

    /// Keeps only the entries for which `f` returns `true`, visiting keys in increasing order.
    pub fn retain<F: Fn(&I, &V) -> bool>(&mut self, f: F)
        requires
            old(self).wf(),
            forall|k: I, v: V| #[trigger] f.requires((&k, &v)),
        ensures
            final(self).wf(),
            final(self).view().len() == old(self).view().len(),
            forall|k: I| #[trigger] final(self).spec_get(k.as_nat()) is Some ==> final(self).spec_get(k.as_nat())
                == old(self).spec_get(k.as_nat()) && f.ensures((&k, &old(self).spec_get(k.as_nat())->0), true),
            forall|k: I| (#[trigger] old(self).spec_get(k.as_nat())) is Some && final(self).spec_get(k.as_nat()) is None
                ==> f.ensures((&k, &old(self).spec_get(k.as_nat())->0), false),
    {
        let len = self.items.len();
        let mut i: usize = 0;
        while i < len
            invariant
                0 <= i <= len,
                len == self.items@.len(),
                len == old(self).items@.len(),
                self.wf(),
                forall|k: I, v: V| #[trigger] f.requires((&k, &v)),
                forall|p: int| i <= p < len ==> self.items@[p] == old(self).items@[p],
                forall|k: I| #[trigger] self.spec_get(k.as_nat()) is Some ==> self.spec_get(k.as_nat())
                    == old(self).spec_get(k.as_nat()),
                forall|k: I| #[trigger] self.spec_get(k.as_nat()) is Some && k.as_nat() < i ==> f.ensures(
                    (&k, &old(self).spec_get(k.as_nat())->0), true),
                forall|k: I| (#[trigger] old(self).spec_get(k.as_nat())) is Some && self.spec_get(k.as_nat()) is None
                    ==> f.ensures((&k, &old(self).spec_get(k.as_nat())->0), false),
            decreases len - i,
        {
            if self.items[i].is_some() {
                let key = match I::from_usize(i) {
                    Some(k) => k,
                    None => {
                        proof {
                            assert(false);
                        }
                        I::zero()
                    },
                };
                let keep = match &self.items[i] {
                    Some(v) => f(&key, v),
                    None => true,
                };
                if !keep {
                    proof {
                        lemma_count_update(self.items@, i as int, None);
                    }
                    self.len = self.len - 1;
                    self.items.set(i, None);
                    proof {
                        assert forall|k: I| (#[trigger] old(self).spec_get(k.as_nat())) is Some && self.spec_get(k.as_nat()) is None
                            implies f.ensures((&k, &old(self).spec_get(k.as_nat())->0), false) by {
                            if k.as_nat() == i {
                                I::lemma_as_nat(k, key);
                            }
                        }
                    }
                } else {
                    proof {
                        assert forall|k: I| #[trigger] self.spec_get(k.as_nat()) is Some && k.as_nat() < i + 1 implies f.ensures(
                            (&k, &old(self).spec_get(k.as_nat())->0), true) by {
                            if k.as_nat() == i {
                                I::lemma_as_nat(k, key);
                            }
                        }
                    }
                }
            }
            i = i + 1;
        }
    }

    /// Returns the entries in increasing key order.
    pub fn iter(&self) -> (r: Vec<(I, &V)>)
        requires
            self.wf(),
        ensures
            r@.len() == self.spec_len(),
            r@.len() == occupied_keys::<V, I>(self.view()).len(),
            forall|n: int| 0 <= n < r@.len() ==> (#[trigger] r@[n]).0 == occupied_keys::<V, I>(self.view())[n],
            forall|n: int| 0 <= n < r@.len() ==> self.spec_get((#[trigger] r@[n]).0.as_nat()) == Some(*r@[n].1),
            forall|n: int, m: int| 0 <= n < m < r@.len() ==> (#[trigger] r@[n]).0.as_nat() < (#[trigger] r@[m]).0.as_nat(),
            forall|k: nat| #[trigger] self.spec_get(k) is Some ==> exists|n: int| 0 <= n < r@.len() && (#[trigger] r@[n]).0.as_nat() == k,
    {
        let mut out: Vec<(I, &V)> = Vec::new();
        let mut i: usize = 0;
        while i < self.items.len()
            invariant
                0 <= i <= self.items@.len(),
                self.wf(),
                out@.len() == count_some(self.items@.subrange(0, i as int)),
                out@.len() == occupied_keys::<V, I>(self.items@.subrange(0, i as int)).len(),
                forall|n: int| 0 <= n < out@.len() ==> (#[trigger] out@[n]).0 == occupied_keys::<V, I>(self.items@.subrange(0, i as int))[n],
                forall|n: int| 0 <= n < out@.len() ==> self.spec_get((#[trigger] out@[n]).0.as_nat()) == Some(*out@[n].1)
                    && out@[n].0.as_nat() < i,
                forall|n: int, m: int| 0 <= n < m < out@.len() ==> (#[trigger] out@[n]).0.as_nat() < (#[trigger] out@[m]).0.as_nat(),
                forall|k: nat| #[trigger] self.spec_get(k) is Some && k < i ==> exists|n: int| 0 <= n < out@.len() && (#[trigger] out@[n]).0.as_nat() == k,
            decreases self.items@.len() - i,
        {
            proof {
                assert(self.items@.subrange(0, i + 1).drop_last() =~= self.items@.subrange(0, i as int));
            }
            let ghost before = out@;
            match &self.items[i] {
                Some(v) => {
                    let key = match I::from_usize(i) {
                        Some(k) => k,
                        None => {
                            proof {
                                assert(false);
                            }
                            I::zero()
                        },
                    };
                    out.push((key, v));
                    proof {
                        assert(out@[out@.len() - 1].0.as_nat() == i);
                        let c = choose|k: I| k.as_nat() == i;
                        I::lemma_as_nat(c, key);
                        let sub = self.items@.subrange(0, i + 1);
                        assert(sub.last() is Some);
                        assert(occupied_keys::<V, I>(sub) == occupied_keys::<V, I>(self.items@.subrange(0, i as int)).push(c));
                    }
                },
                None => {
                    proof {
                        let sub = self.items@.subrange(0, i + 1);
                        assert(sub.last() is None);
                        assert(occupied_keys::<V, I>(sub) == occupied_keys::<V, I>(self.items@.subrange(0, i as int)));
                    }
                },
            }
            proof {
                assert forall|k: nat| #[trigger] self.spec_get(k) is Some && k < i + 1 implies exists|n: int| 0 <= n < out@.len() && (#[trigger] out@[n]).0.as_nat() == k by {
                    if k == i {
                        let n = out@.len() - 1;
                        assert(out@[n].0.as_nat() == k);
                    } else {
                        let n = choose|n: int| 0 <= n < before.len() && (#[trigger] before[n]).0.as_nat() == k;
                        assert(out@[n] == before[n]);
                    }
                }
            }
            i = i + 1;
        }
        proof {
            assert(self.items@.subrange(0, self.items@.len() as int) =~= self.items@);
        }
        out
    }

    /// Replaces every value `v` at key `k` by `f(k, v)`, visiting keys in increasing order.
    pub fn iter_mut<F: Fn(&I, &V) -> V>(&mut self, f: F)
        requires
            old(self).wf(),
            forall|k: I, v: V| #[trigger] f.requires((&k, &v)),
        ensures
            final(self).wf(),
            final(self).view().len() == old(self).view().len(),
            forall|k: I| (#[trigger] final(self).spec_get(k.as_nat())) is Some == old(self).spec_get(k.as_nat()) is Some,
            forall|k: I| (#[trigger] old(self).spec_get(k.as_nat())) is Some ==> f.ensures(
                (&k, &old(self).spec_get(k.as_nat())->0),
                final(self).spec_get(k.as_nat())->0,
            ),
    {
        let len = self.items.len();
        let mut i: usize = 0;
        while i < len
            invariant
                0 <= i <= len,
                len == self.items@.len(),
                len == old(self).items@.len(),
                self.wf(),
                forall|k: I, v: V| #[trigger] f.requires((&k, &v)),
                forall|p: int| i <= p < len ==> self.items@[p] == old(self).items@[p],
                forall|p: int| 0 <= p < len ==> (#[trigger] self.items@[p]) is Some == old(self).items@[p] is Some,
                forall|k: I| (#[trigger] old(self).spec_get(k.as_nat())) is Some && k.as_nat() < i ==> f.ensures(
                    (&k, &old(self).spec_get(k.as_nat())->0),
                    self.spec_get(k.as_nat())->0,
                ),
            decreases len - i,
        {
            if self.items[i].is_some() {
                let key = match I::from_usize(i) {
                    Some(k) => k,
                    None => {
                        proof {
                            assert(false);
                        }
                        I::zero()
                    },
                };
                let fresh = match &self.items[i] {
                    Some(v) => f(&key, v),
                    None => {
                        proof {
                            assert(false);
                        }
                        return;
                    },
                };
                proof {
                    lemma_count_update(self.items@, i as int, Some(fresh));
                }
                self.items.set(i, Some(fresh));
                proof {
                    assert forall|k: I| (#[trigger] old(self).spec_get(k.as_nat())) is Some && k.as_nat() < i + 1 implies f.ensures(
                        (&k, &old(self).spec_get(k.as_nat())->0),
                        self.spec_get(k.as_nat())->0,
                    ) by {
                        if k.as_nat() == i {
                            I::lemma_as_nat(k, key);
                        }
                    }
                }
            }
            i = i + 1;
        }
    }

    /// The slot table, empty slots included: the map's persisted form.
    pub fn slots(&self) -> (r: &Vec<Option<V>>)
        ensures
            r@ == self.view(),
    {
        &self.items
    }

    /// Rebuilds a map from its persisted slot table, counting the occupied slots.
    /// Returns `None` where a position does not fit the key type.
    pub fn from_slots(items: Vec<Option<V>>) -> (r: Option<Self>)
        ensures
            r is Some <==> items@.len() <= I::max_nat() + 1,
            r matches Some(m) ==> m.wf() && m.view() == items@,
    {
        let n = items.len();
        let fits = match I::from_usize(n) {
            Some(_) => true,
            None => n == 0 || I::from_usize(n - 1).is_some(),
        };
        if !fits {
            return None;
        }
        let mut len: usize = 0;
        let mut i: usize = 0;
        while i < n
            invariant
                0 <= i <= n,
                n == items@.len(),
                len == count_some(items@.subrange(0, i as int)),
                len <= i,
            decreases n - i,
        {
            proof {
                assert(items@.subrange(0, i + 1).drop_last() =~= items@.subrange(0, i as int));
            }
            if items[i].is_some() {
                len = len + 1;
            }
            i = i + 1;
        }
        proof {
            assert(items@.subrange(0, n as int) =~= items@);
        }
        Some(VecMap { items, len, phantom: PhantomData })
    }
}

impl<V, I: UnsignedNum> AssocMap for VecMap<V, I> {
    type Key = I;

    type Value = V;

    open spec fn map_wf(&self) -> bool {
        self.wf()
    }

    open spec fn lookup(&self, key: I) -> Option<V> {
        self.spec_get(key.as_nat())
    }

    open spec fn map_len(&self) -> nat {
        self.spec_len()
    }

    fn get(&self, key: &I) -> (r: Option<&V>) {
        VecMap::get(self, key)
    }

    fn len(&self) -> (r: usize) {
        VecMap::len(self)
    }
}

impl<V, I: UnsignedNum> MapMut for VecMap<V, I> {
    open spec fn can_insert(&self, key: I) -> bool {
        key.as_nat() < usize::MAX
    }

    fn empty() -> (r: Self) {
        let r = VecMap::new();
        proof {
            lemma_count_none(r.view());
        }
        r
    }

    fn clear(&mut self) {
        VecMap::clear(self);
    }

    fn get_mut(&mut self, key: &I) -> (r: Option<&mut V>) {
        proof {
            assert forall|k: I| k != *key implies k.as_nat() != key.as_nat() by {
                I::lemma_as_nat(k, *key);
            }
        }
        VecMap::get_mut(self, key)
    }

    fn insert(&mut self, key: I, value: V) -> (r: Option<V>) {
        proof {
            assert forall|k: I| k != key implies k.as_nat() != key.as_nat() by {
                I::lemma_as_nat(k, key);
            }
        }
        VecMap::insert(self, key, value)
    }

    fn remove(&mut self, key: &I) -> (r: Option<V>) {
        proof {
            assert forall|k: I| k != *key implies k.as_nat() != key.as_nat() by {
                I::lemma_as_nat(k, *key);
            }
        }
        VecMap::remove(self, key)
    }
}

impl<V, I: UnsignedNum> IterableMapMut for VecMap<V, I> {
    open spec fn span(&self) -> nat {
        self.view().len()
    }

    open spec fn key_at(&self, n: nat) -> Option<I> {
        if n < self.view().len() && self.view()[n as int] is Some {
            Some(choose|k: I| k.as_nat() == n)
        } else {
            None
        }
    }

    fn span_len(&self) -> (r: usize) {
        self.items.len()
    }

    fn value_at_mut(&mut self, n: usize) -> (r: Option<&mut V>) {
        if n < self.items.len() && self.items[n].is_some() {
            let key = match I::from_usize(n) {
                Some(k) => k,
                None => {
                    proof {
                        assert(false);
                    }
                    return None;
                },
            };
            proof {
                let c = choose|k: I| k.as_nat() == n as nat;
                I::lemma_as_nat(c, key);
                assert forall|k: I| k != key implies k.as_nat() != key.as_nat() by {
                    I::lemma_as_nat(k, key);
                }
            }
            VecMap::get_mut(self, &key)
        } else {
            None
        }
    }
}

impl<V, I: UnsignedNum> IterableMap for VecMap<V, I> {
    open spec fn key_order(&self) -> Seq<I> {
        occupied_keys::<V, I>(self.view())
    }

    fn entries(&self) -> (r: Vec<(I, &V)>) {
        let r = VecMap::iter(self);
        proof {
            assert forall|n: int, m: int| 0 <= n < m < r@.len() implies (#[trigger] r@[n]).0 != (#[trigger] r@[m]).0 by {
                I::lemma_as_nat(r@[n].0, r@[m].0);
            }
            assert forall|k: I| (#[trigger] self.lookup(k)) is Some implies exists|n: int| 0 <= n < r@.len() && (#[trigger] r@[n]).0 == k by {
                let n = choose|n: int| 0 <= n < r@.len() && (#[trigger] r@[n]).0.as_nat() == k.as_nat();
                I::lemma_as_nat(r@[n].0, k);
            }
        }
        r
    }
}

impl<V, I: UnsignedNum> Default for VecMap<V, I> {
    fn default() -> (r: Self)
        ensures
            r.wf(),
            r.view() == Seq::<Option<V>>::empty(),
    {
        Self::new()
    }
}

} // verus!
