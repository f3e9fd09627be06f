//! Sparse set: a packed dense array of entries plus a sparse array from keys to dense positions.

use crate::collections::map::{AssocMap, IterableMap, IterableMapMut, MapMut};
use crate::markers::UnsignedNum;
use vstd::prelude::*;

verus! {

/// `compare` never reports `a` greater than `b`.
pub open spec fn not_greater<E, F: Fn(&E, &E) -> std::cmp::Ordering>(compare: F, a: E, b: E) -> bool {
    forall|o: std::cmp::Ordering| #[trigger] compare.ensures((&a, &b), o) ==> o != std::cmp::Ordering::Greater
}

/// `compare` always reports `a` less than `b`.
pub open spec fn always_less<E, F: Fn(&E, &E) -> std::cmp::Ordering>(compare: F, a: E, b: E) -> bool {
    forall|o: std::cmp::Ordering| #[trigger] compare.ensures((&a, &b), o) ==> o == std::cmp::Ordering::Less
}

/// `compare` answers the same for the same pair, and reports `b` less than `a` whenever it
/// reports `a` greater than `b`.
pub open spec fn consistent_order<E, F: Fn(&E, &E) -> std::cmp::Ordering>(compare: F) -> bool {
    &&& forall|a: E, b: E, o1: std::cmp::Ordering, o2: std::cmp::Ordering| #[trigger] compare.ensures((&a, &b), o1)
        && #[trigger] compare.ensures((&a, &b), o2) ==> o1 == o2
    &&& forall|a: E, b: E| #[trigger] compare.ensures((&a, &b), std::cmp::Ordering::Greater) ==> compare.ensures(
        (&b, &a),
        std::cmp::Ordering::Less,
    )
}

/// The sparse entry of a key that has no dense position.
const NULL_INDEX: usize = usize::MAX;

/// An associative array keyed by unsigned integers. Entries are packed in a dense array; a
/// sparse array maps each key to its entry's position. Removal moves the last entry into the
/// freed position, so it takes constant time and leaves no gaps.
pub struct SparseSet<T, I: UnsignedNum = usize> {
    items: Vec<(I, T)>,
    sparse: Vec<usize>,
}

impl<T, I: UnsignedNum> SparseSet<T, I> {
    /// The dense array of `(key, value)` entries.
    pub closed spec fn view(&self) -> Seq<(I, T)> {
        self.items@
    }

    /// The sparse array from keys to dense positions.
    pub closed spec fn sparse_view(&self) -> Seq<usize> {
        self.sparse@
    }

    /// Every entry's key points back at the entry's position: `sparse[key] == position`.
    pub open spec fn indexed(&self) -> bool {
        forall|d: int| 0 <= d < self.view().len() ==> (#[trigger] self.view()[d]).0.as_nat()
            < self.sparse_view().len() && self.sparse_view()[self.view()[d].0.as_nat() as int] == d
    }

    /// Whether key `k` has an entry.
    pub open spec fn has_key(&self, k: nat) -> bool {
        exists|d: int| 0 <= d < self.view().len() && (#[trigger] self.view()[d]).0.as_nat() == k
    }

    /// The dense position of key `k`.
    pub open spec fn position_of(&self, k: nat) -> int {
        choose|d: int| 0 <= d < self.view().len() && (#[trigger] self.view()[d]).0.as_nat() == k
    }

    /// The value at key `k`, if any.
    pub open spec fn spec_get(&self, k: nat) -> Option<T> {
        if self.has_key(k) {
            Some(self.view()[self.position_of(k)].1)
        } else {
            None
        }
    }

    /// A well-formed set is indexed: every key points back at its entry.
    pub proof fn lemma_indexed(&self)
        requires
            self.wf(),
        ensures
            self.indexed(),
    {
    }

    /// The set is well formed.
    pub closed spec fn wf(&self) -> bool {
        &&& self.indexed()
        &&& self.sparse@.len() <= usize::MAX
        &&& self.items@.len() < usize::MAX
    }

    /// In a well-formed set the entry at dense position `d` is the one its key finds.
    pub proof fn lemma_position(&self, k: nat, d: int)
        requires
            self.wf(),
            0 <= d < self.view().len(),
            self.view()[d].0.as_nat() == k,
        ensures
            self.has_key(k),
            self.position_of(k) == d,
            self.spec_get(k) == Some(self.view()[d].1),
    {
        let e = self.position_of(k);
        assert(self.view()[e].0.as_nat() == k);
    }

    /// A set whose entries differ from a well-formed set's only in the value at position `d`
    /// maps every other key as before, and the key at `d` to the new value.
    proof fn lemma_same_keys(a: Self, d: int)
        requires
            a.wf(),
            0 <= d < a.view().len(),
        ensures
            forall|b: Self, k: nat| #[trigger] b.spec_get(k) == (if b.view().len() == a.view().len() && (forall|e: int|
                0 <= e < a.view().len() && e != d ==> #[trigger] b.view()[e] == a.view()[e]) && b.view()[d].0
                == a.view()[d].0 {
                if k == a.view()[d].0.as_nat() {
                    Some(b.view()[d].1)
                } else {
                    a.spec_get(k)
                }
            } else {
                b.spec_get(k)
            }),
    {
        assert forall|b: Self, k: nat| #[trigger] b.spec_get(k) == (if b.view().len() == a.view().len() && (forall|e: int|
            0 <= e < a.view().len() && e != d ==> #[trigger] b.view()[e] == a.view()[e]) && b.view()[d].0
            == a.view()[d].0 {
            if k == a.view()[d].0.as_nat() {
                Some(b.view()[d].1)
            } else {
                a.spec_get(k)
            }
        } else {
            b.spec_get(k)
        }) by {
            if b.view().len() == a.view().len() && (forall|e: int| 0 <= e < a.view().len() && e != d ==> #[trigger] b.view()[e] == a.view()[e])
                && b.view()[d].0 == a.view()[d].0 {
                assert forall|e: int| 0 <= e < b.view().len() implies (#[trigger] b.view()[e]).0 == a.view()[e].0 by {
                    if e != d {
                        assert(b.view()[e] == a.view()[e]);
                    }
                }
                if b.has_key(k) {
                    let e = b.position_of(k);
                    a.lemma_position(k, e);
                    if k == a.view()[d].0.as_nat() {
                        a.lemma_position(k, d);
                    }
                }
                if a.has_key(k) {
                    let e = a.position_of(k);
                    a.lemma_position(k, e);
                    assert(b.view()[e].0.as_nat() == k);
                    let f = b.position_of(k);
                    a.lemma_position(k, f);
                }
            }
        }
    }

    /// Constructs a new, empty set.
    pub fn new() -> (r: Self)
        ensures
            r.wf(),
            r.indexed(),
            r.view() == Seq::<(I, T)>::empty(),
    {
        Self::with_capacity(0)
    }

    /// Constructs a new, empty set with room for `capacity` entries.
    pub fn with_capacity(capacity: usize) -> (r: Self)
        ensures
            r.wf(),
            r.indexed(),
            r.view() == Seq::<(I, T)>::empty(),
    {
        SparseSet { items: Vec::with_capacity(capacity), sparse: Vec::with_capacity(capacity) }
    }

    /// Returns the number of entries the dense array can hold without reallocating.
    pub fn capacity(&self) -> (r: usize)
        ensures
            r >= self.view().len(),
    {
        crate::collections::vec_capacity(&self.items)
    }

    /// Returns the number of entries.
    pub fn len(&self) -> (r: usize)
        ensures
            r == self.view().len(),
    {
        self.items.len()
    }

    /// Returns `true` if the set holds no entries.
    pub fn is_empty(&self) -> (r: bool)
        ensures
            r == (self.view().len() == 0),
    {
        self.items.len() == 0
    }

    /// Returns the dense position of key `i`.
    pub fn get_item_index(&self, i: &I) -> (r: Option<usize>)
        requires
            self.wf(),
        ensures
            r is Some <==> self.has_key(i.as_nat()),
            r matches Some(d) ==> d == self.position_of(i.as_nat()) && d < self.view().len(),
    {
        let k = match i.to_usize() {
            Some(k) => k,
            None => {
                proof {
                    if self.has_key(i.as_nat()) {
                        let d = self.position_of(i.as_nat());
                        assert(self.view()[d].0.as_nat() < self.sparse_view().len());
                    }
                }
                return None;
            },
        };
        if k >= self.sparse.len() {
            proof {
                if self.has_key(i.as_nat()) {
                    let d = self.position_of(i.as_nat());
                    assert(self.view()[d].0.as_nat() < self.sparse_view().len());
                }
            }
            return None;
        }
        let d = self.sparse[k];
        if d < self.items.len() && self.items[d].0.eq_num(i) {
            proof {
                self.lemma_position(k as nat, d as int);
            }
            Some(d)
        } else {
            proof {
                if self.has_key(i.as_nat()) {
                    let e = self.position_of(i.as_nat());
                    assert(self.sparse_view()[self.view()[e].0.as_nat() as int] == e);
                    I::lemma_as_nat(self.view()[e].0, *i);
                }
            }
            None
        }
    }

    /// Returns `true` if key `i` has an entry.
    pub fn contains_key(&self, i: &I) -> (r: bool)
        requires
            self.wf(),
        ensures
            r == self.has_key(i.as_nat()),
    {
        self.get_item_index(i).is_some()
    }

    /// Returns a reference to the value at key `i`.
    pub fn get(&self, i: &I) -> (r: Option<&T>)
        requires
            self.wf(),
        ensures
            match r {
                Some(v) => self.spec_get(i.as_nat()) == Some(*v),
                None => self.spec_get(i.as_nat()) is None,
            },
    {
        match self.get_item_index(i) {
            Some(d) => Some(&self.items[d].1),
            None => None,
        }
    }

    /// Returns a mutable reference to the value at key `i`.
    pub fn get_mut(&mut self, i: &I) -> (r: Option<&mut T>)
        requires
            old(self).wf(),
        ensures
            final(self).wf(),
            match r {
                Some(v) => {
                    &&& old(self).spec_get(i.as_nat()) == Some(*v)
                    &&& final(self).view() == old(self).view().update(
                        old(self).position_of(i.as_nat()),
                        (old(self).view()[old(self).position_of(i.as_nat())].0, *final(v)),
                    )
                },
                None => {
                    &&& old(self).spec_get(i.as_nat()) is None
                    &&& final(self).view() == old(self).view()
                },
            },
    {
        match self.get_item_index(i) {
            Some(d) => {
                let entry = &mut self.items[d];
                Some(&mut entry.1)
            },
            None => None,
        }
    }

    /// Grows the sparse array to at least `min_len` entries, filling with the null index.
    fn reserve_sparse(&mut self, min_len: usize)
        requires
            old(self).wf(),
        ensures
            final(self).wf(),
            final(self).view() == old(self).view(),
            final(self).sparse_view().len() >= min_len,
            final(self).sparse_view().len() >= old(self).sparse_view().len(),
    {
        while self.sparse.len() < min_len
            invariant
                self.wf(),
                self.view() == old(self).view(),
                self.sparse_view().len() >= old(self).sparse_view().len(),
                forall|p: int| 0 <= p < old(self).sparse_view().len() ==> self.sparse_view()[p] == old(self).sparse_view()[p],
            decreases min_len - self.sparse@.len(),
        {
            self.sparse.push(NULL_INDEX);
        }
        proof {
            assert forall|d: int| 0 <= d < self.view().len() implies (#[trigger] self.view()[d]).0.as_nat()
                < self.sparse_view().len() && self.sparse_view()[self.view()[d].0.as_nat() as int] == d by {
                assert(old(self).view()[d] == self.view()[d]);
            }
        }
    }

    /// Reserves room for at least `additional` more entries.
    pub fn reserve(&mut self, additional: usize)
        requires
            old(self).wf(),
            old(self).view().len() + additional <= usize::MAX,
        ensures
            final(self).wf(),
            final(self).view() == old(self).view(),
    {
        self.items.reserve(additional);
        let min_sparse = self.items.len() + additional;
        self.reserve_sparse(min_sparse);
    }

    /// Removes every entry.
    pub fn clear(&mut self)
        requires
            old(self).wf(),
        ensures
            final(self).wf(),
            final(self).indexed(),
            final(self).view() == Seq::<(I, T)>::empty(),
    {
        self.items.clear();
    }

    /// Stores `v` at key `i`, stated on the dense array alone.
    fn insert_entry(&mut self, i: I, v: T) -> (r: Option<T>)
        requires
            old(self).wf(),
            i.as_nat() < usize::MAX,
            old(self).view().len() + 1 < usize::MAX,
        ensures
            final(self).wf(),
            r == old(self).spec_get(i.as_nat()),
            old(self).has_key(i.as_nat()) ==> final(self).view() == old(self).view().update(
                old(self).position_of(i.as_nat()),
                (i, v),
            ),
            !old(self).has_key(i.as_nat()) ==> final(self).view() == old(self).view().push((i, v)),
            final(self).spec_get(i.as_nat()) == Some(v),
    {
        let k = match i.to_usize() {
            Some(k) => k,
            None => {
                proof {
                    assert(false);
                }
                0
            },
        };
        self.reserve_sparse(k + 1);
        match self.get_item_index(&i) {
            Some(d) => {
                let ghost before = self.items@;
                let mut entry = (i, v);
                std::mem::swap(&mut self.items[d], &mut entry);
                proof {
                    I::lemma_as_nat(before[d as int].0, i);
                    assert forall|e: int| 0 <= e < self.view().len() implies (#[trigger] self.view()[e]).0.as_nat()
                        < self.sparse_view().len() && self.sparse_view()[self.view()[e].0.as_nat() as int] == e by {
                        assert(self.view()[e].0 == before[e].0);
                    }
                    self.lemma_position(k as nat, d as int);
                    old(self).lemma_position(k as nat, d as int);
                }
                Some(entry.1)
            },
            None => {
                let d = self.items.len();
                let ghost before = self.items@;
                self.items.push((i, v));
                self.sparse.set(k, d);
                proof {
                    assert forall|e: int| 0 <= e < self.view().len() implies (#[trigger] self.view()[e]).0.as_nat()
                        < self.sparse_view().len() && self.sparse_view()[self.view()[e].0.as_nat() as int] == e by {
                        if e < d {
                            assert(self.view()[e] == before[e]);
                            if before[e].0.as_nat() == k {
                                assert(old(self).has_key(k as nat));
                            }
                        }
                    }
                    self.lemma_position(k as nat, d as int);
                }
                None
            },
        }
    }

    /// Removes the entry of key `i`, stated on the dense array alone.
    fn remove_entry(&mut self, i: &I) -> (r: Option<T>)
        requires
            old(self).wf(),
        ensures
            final(self).wf(),
            final(self).indexed(),
            r == old(self).spec_get(i.as_nat()),
            old(self).has_key(i.as_nat()) ==> final(self).view() == old(self).view().update(
                old(self).position_of(i.as_nat()),
                old(self).view().last(),
            ).drop_last(),
            !old(self).has_key(i.as_nat()) ==> final(self).view() == old(self).view(),
            !final(self).has_key(i.as_nat()),
    {
        match self.get_item_index(i) {
            Some(d) => {
                let ghost before = self.items@;
                let k = match i.to_usize() {
                    Some(k) => k,
                    None => {
                        proof {
                            assert(before[d as int].0.as_nat() < self.sparse_view().len());
                        }
                        0
                    },
                };
                proof {
                    self.lemma_position(i.as_nat(), d as int);
                    assert(before[d as int].0.as_nat() < self.sparse_view().len());
                }
                let entry = self.items.swap_remove(d);
                self.sparse.set(k, NULL_INDEX);
                if d < self.items.len() {
                    let moved = match self.items[d].0.to_usize() {
                        Some(m) => m,
                        None => {
                            proof {
                                let last = before.len() - 1;
                                assert(before[last].0.as_nat() < old(self).sparse_view().len());
                            }
                            0
                        },
                    };
                    proof {
                        let last = before.len() - 1;
                        assert(before[last].0.as_nat() < old(self).sparse_view().len());
                    }
                    self.sparse.set(moved, d);
                }
                proof {
                    let last = before.len() - 1;
                    assert forall|e: int| 0 <= e < self.view().len() implies (#[trigger] self.view()[e]).0.as_nat()
                        < self.sparse_view().len() && self.sparse_view()[self.view()[e].0.as_nat() as int] == e by {
                        if e == d {
                            assert(self.view()[e] == before[last]);
                        } else {
                            assert(self.view()[e] == before[e]);
                            assert(old(self).sparse_view()[before[e].0.as_nat() as int] == e);
                            assert(old(self).sparse_view()[before[last].0.as_nat() as int] == last);
                        }
                    }
                    if self.has_key(i.as_nat()) {
                        let e = self.position_of(i.as_nat());
                        if e == d {
                            assert(old(self).sparse_view()[before[last].0.as_nat() as int] == last);
                        } else {
                            assert(self.view()[e] == before[e]);
                        }
                    }
                }
                Some(entry.1)
            },
            None => None,
        }
    }

    /// Stores `v` at key `i`: overwrites in place where the key has an entry, else appends a new
    /// entry to the dense array. Returns the value that was there before; every other key keeps
    /// its value.
    pub fn insert(&mut self, i: I, v: T) -> (r: Option<T>)
        requires
            old(self).wf(),
            i.as_nat() < usize::MAX,
            old(self).view().len() + 1 < usize::MAX,
        ensures
            final(self).wf(),
            final(self).indexed(),
            r == old(self).spec_get(i.as_nat()),
            old(self).has_key(i.as_nat()) ==> final(self).view() == old(self).view().update(
                old(self).position_of(i.as_nat()),
                (i, v),
            ),
            !old(self).has_key(i.as_nat()) ==> final(self).view() == old(self).view().push((i, v)),
            final(self).view().len() == old(self).view().len() + (if r is None { 1int } else { 0int }),
            final(self).spec_get(i.as_nat()) == Some(v),
            forall|k: nat| k != i.as_nat() ==> #[trigger] final(self).spec_get(k) == old(self).spec_get(k),
    {
        let ghost d = old(self).position_of(i.as_nat());
        let ghost n = old(self).view().len();
        let r = self.insert_entry(i, v);
        proof {
            if old(self).has_key(i.as_nat()) {
                old(self).lemma_position(i.as_nat(), d);
            }
            assert forall|k: nat| k != i.as_nat() implies #[trigger] self.spec_get(k) == old(self).spec_get(k) by {
                if old(self).has_key(k) {
                    let e = old(self).position_of(k);
                    old(self).lemma_position(k, e);
                    self.lemma_position(k, e);
                }
                if self.has_key(k) {
                    let e = self.position_of(k);
                    if e < n {
                        old(self).lemma_position(k, e);
                    }
                }
            }
        }
        r
    }

    /// Removes and returns the value at key `i`. The last entry moves into the freed position
    /// and its sparse entry is repaired; every other key keeps its value.
    pub fn remove(&mut self, i: &I) -> (r: Option<T>)
        requires
            old(self).wf(),
        ensures
            final(self).wf(),
            final(self).indexed(),
            r == old(self).spec_get(i.as_nat()),
            old(self).has_key(i.as_nat()) ==> final(self).view() == old(self).view().update(
                old(self).position_of(i.as_nat()),
                old(self).view().last(),
            ).drop_last(),
            !old(self).has_key(i.as_nat()) ==> final(self).view() == old(self).view(),
            final(self).view().len() + (if r is Some { 1int } else { 0int }) == old(self).view().len(),
            !final(self).has_key(i.as_nat()),
            forall|k: nat| k != i.as_nat() ==> #[trigger] final(self).spec_get(k) == old(self).spec_get(k),
    {
        let ghost d = old(self).position_of(i.as_nat());
        let ghost last = old(self).view().len() - 1;
        let r = self.remove_entry(i);
        proof {
            if old(self).has_key(i.as_nat()) {
                old(self).lemma_position(i.as_nat(), d);
            }
            assert forall|k: nat| k != i.as_nat() implies #[trigger] self.spec_get(k) == old(self).spec_get(k) by {
                if old(self).has_key(i.as_nat()) {
                    if old(self).has_key(k) {
                        let e = old(self).position_of(k);
                        old(self).lemma_position(k, e);
                        if e == last {
                            self.lemma_position(k, d);
                        } else {
                            self.lemma_position(k, e);
                        }
                    }
                    if self.has_key(k) {
                        let e = self.position_of(k);
                        if e == d {
                            old(self).lemma_position(k, last);
                        } else {
                            old(self).lemma_position(k, e);
                        }
                    }
                }
            }
        }
        r
    }

    /// Keeps only the entries for which `f` returns `true`. A removal moves the last entry into
    /// the current position, which is then examined before moving on, so every entry is seen once.
    pub fn retain<F: Fn(&I, &T) -> bool>(&mut self, f: F)
        requires
            old(self).wf(),
            forall|k: I, v: T| #[trigger] f.requires((&k, &v)),
        ensures
            final(self).wf(),
            final(self).indexed(),
            final(self).view().len() <= old(self).view().len(),
            forall|d: int| 0 <= d < final(self).view().len() ==> old(self).view().contains(#[trigger] final(self).view()[d])
                && f.ensures((&final(self).view()[d].0, &final(self).view()[d].1), true),
            forall|e: (I, T)| old(self).view().contains(e) && !final(self).view().contains(e)
                ==> #[trigger] f.ensures((&e.0, &e.1), false),
    {
        let mut i: usize = 0;
        while i < self.items.len()
            invariant
                self.wf(),
                0 <= i <= self.view().len(),
                self.view().len() <= old(self).view().len(),
                forall|k: I, v: T| #[trigger] f.requires((&k, &v)),
                forall|d: int| 0 <= d < self.view().len() ==> old(self).view().contains(#[trigger] self.view()[d]),
                forall|d: int| 0 <= d < i ==> f.ensures((&(#[trigger] self.view()[d]).0, &self.view()[d].1), true),
                forall|e: (I, T)| old(self).view().contains(e) && !self.view().contains(e) ==> #[trigger] f.ensures(
                    (&e.0, &e.1), false),
            decreases self.view().len() - i,
        {
            let keep = f(&self.items[i].0, &self.items[i].1);
            if !keep {
                let key = self.items[i].0;
                let ghost before = self.items@;
                let ghost gone = before[i as int];
                proof {
                    self.lemma_position(key.as_nat(), i as int);
                }
                self.remove(&key);
                proof {
                    let last = before.len() - 1;
                    assert forall|d: int| 0 <= d < self.view().len() implies old(self).view().contains(#[trigger] self.view()[d]) by {
                        if d == i {
                            assert(self.view()[d] == before[last]);
                            assert(before.contains(before[last]));
                        } else {
                            assert(self.view()[d] == before[d]);
                            assert(before.contains(before[d]));
                        }
                    }
                    assert forall|d: int| 0 <= d < i implies f.ensures((&(#[trigger] self.view()[d]).0, &self.view()[d].1), true) by {
                        assert(self.view()[d] == before[d]);
                    }
                    assert forall|e: (I, T)| old(self).view().contains(e) && !self.view().contains(e) implies #[trigger] f.ensures(
                        (&e.0, &e.1), false) by {
                        if before.contains(e) {
                            let p = choose|p: int| 0 <= p < before.len() && before[p] == e;
                            if p != i {
                                if p == last {
                                    assert(self.view()[i as int] == e);
                                } else {
                                    assert(self.view()[p] == e);
                                }
                            }
                        }
                    }
                }
            } else {
                i = i + 1;
            }
        }
    }

    /// Returns the entries in dense order.
    pub fn iter(&self) -> (r: &[(I, T)])
        ensures
            r@ == self.view(),
    {
        self.items.as_slice()
    }

    /// Removes every entry and returns them in dense order.
    pub fn drain(&mut self) -> (r: Drain<T, I>)
        requires
            old(self).wf(),
        ensures
            final(self).wf(),
            r.view() == old(self).view(),
            final(self).view() == Seq::<(I, T)>::empty(),
    {
        let mut out = Vec::new();
        std::mem::swap(&mut self.items, &mut out);
        Drain { items: out }
    }

    /// Builds a set from persisted `(key, value)` entries, inserting them in order: a later entry
    /// overwrites an earlier one with the same key.
    pub fn from_entries(entries: Vec<(I, T)>) -> (r: Self)
        requires
            entries@.len() + 1 < usize::MAX,
            forall|d: int| 0 <= d < entries@.len() ==> (#[trigger] entries@[d]).0.as_nat() < usize::MAX,
        ensures
            r.wf(),
            forall|k: nat| #[trigger] r.has_key(k) == exists|d: int| 0 <= d < entries@.len() && (#[trigger] entries@[d]).0.as_nat() == k,
            (forall|a: int, b: int| 0 <= a < b < entries@.len() ==> (#[trigger] entries@[a]).0.as_nat() != (#[trigger] entries@[b]).0.as_nat())
                ==> r.view() == entries@,
    {
        let ghost all = entries@;
        let mut reversed: Vec<(I, T)> = Vec::new();
        let mut source = entries;
        while source.len() > 0
            invariant
                reversed@.len() + source@.len() == all.len(),
                source@ == all.subrange(0, source@.len() as int),
                forall|j: int| 0 <= j < reversed@.len() ==> #[trigger] reversed@[j] == all[all.len() - 1 - j],
            decreases source@.len(),
        {
            let e = source.pop().unwrap();
            reversed.push(e);
            proof {
                assert(source@ =~= all.subrange(0, source@.len() as int));
            }
        }
        let mut set = SparseSet::new();
        let ghost mut n: int = 0;
        while reversed.len() > 0
            invariant
                0 <= n <= all.len(),
                reversed@.len() == all.len() - n,
                all.len() + 1 < usize::MAX,
                forall|d: int| 0 <= d < all.len() ==> (#[trigger] all[d]).0.as_nat() < usize::MAX,
                forall|j: int| 0 <= j < reversed@.len() ==> #[trigger] reversed@[j] == all[all.len() - 1 - j],
                set.wf(),
                set.view().len() <= n,
                forall|k: nat| #[trigger] set.has_key(k) == exists|d: int| 0 <= d < n && (#[trigger] all[d]).0.as_nat() == k,
                (forall|a: int, b: int| 0 <= a < b < all.len() ==> (#[trigger] all[a]).0.as_nat() != (#[trigger] all[b]).0.as_nat())
                    ==> set.view() == all.subrange(0, n),
            decreases reversed@.len(),
        {
            let e = reversed.pop().unwrap();
            proof {
                assert(e == all[n]);
            }
            let ghost before = set;
            set.insert(e.0, e.1);
            proof {
                assert forall|k: nat| #[trigger] set.has_key(k) == exists|d: int| 0 <= d < n + 1 && (#[trigger] all[d]).0.as_nat() == k by {
                    if k == e.0.as_nat() {
                        assert(all[n].0.as_nat() == k);
                    } else {
                        if set.has_key(k) {
                            let p = set.position_of(k);
                            if p < before.view().len() {
                                assert(before.view()[p] == set.view()[p] || p == before.position_of(e.0.as_nat()));
                                assert(before.has_key(k));
                            }
                        }
                        if before.has_key(k) {
                            let p = before.position_of(k);
                            assert(set.view()[p].0 == before.view()[p].0);
                        }
                    }
                }
                if forall|a: int, b: int| 0 <= a < b < all.len() ==> (#[trigger] all[a]).0.as_nat() != (#[trigger] all[b]).0.as_nat() {
                    if before.has_key(e.0.as_nat()) {
                        let d = choose|d: int| 0 <= d < n && (#[trigger] all[d]).0.as_nat() == e.0.as_nat();
                        assert(all[d].0.as_nat() != all[n].0.as_nat());
                    }
                    assert(set.view() =~= all.subrange(0, n + 1));
                }
                n = n + 1;
            }
        }
        proof {
            assert(all.subrange(0, n) =~= all);
        }
        set
    }

    /// Exchanges the entries at positions `j - 1` and `j`.
    fn swap_adjacent(items: &mut Vec<(I, T)>, j: usize)
        requires
            0 < j < old(items)@.len(),
        ensures
            final(items)@ == old(items)@.update(j - 1, old(items)@[j as int]).update(j as int, old(items)@[j - 1]),
    {
        let x = items.remove(j);
        items.insert(j - 1, x);
        proof {
            assert(final(items)@ =~= old(items)@.update(j - 1, old(items)@[j as int]).update(j as int, old(items)@[j - 1]));
        }
    }

    /// Sorts the entries with `compare`, a stable insertion sort, then repairs every sparse entry.
    /// `compare` must answer the same for the same entries, and report `b` less than `a` whenever
    /// it reports `a` greater than `b`. Afterwards no entry is reported greater than the next one,
    /// two entries keep their old relative order unless the later one is reported less, and every
    /// key still finds its value.
    pub fn sort_by<F: Fn(&(I, T), &(I, T)) -> std::cmp::Ordering>(&mut self, compare: F)
        requires
            old(self).wf(),
            forall|a: (I, T), b: (I, T)| #[trigger] compare.requires((&a, &b)),
            consistent_order(compare),
        ensures
            final(self).wf(),
            final(self).indexed(),
            final(self).view().len() == old(self).view().len(),
            forall|e: (I, T)| #[trigger] final(self).view().contains(e) == old(self).view().contains(e),
            forall|k: nat| #[trigger] final(self).spec_get(k) == old(self).spec_get(k),
            forall|j: int| 0 <= j < final(self).view().len() - 1 ==> not_greater(compare, #[trigger] final(self).view()[j], final(self).view()[j + 1]),
            forall|p: int, q: int| 0 <= p < q < final(self).view().len() && old(self).position_of((#[trigger] final(self).view()[p]).0.as_nat())
                > old(self).position_of((#[trigger] final(self).view()[q]).0.as_nat()) ==> always_less(compare, final(self).view()[p], final(self).view()[q]),
    {
        let n = self.items.len();
        let ghost o = old(self).items@;
        let ghost mut orig: Seq<int> = Seq::new(n as nat, |p: int| p);
        let mut i: usize = 1;
        proof {
            assert forall|a: int, b: int| 0 <= a < n && 0 <= b < n && a != b implies (#[trigger] o[a]).0.as_nat() != (#[trigger] o[b]).0.as_nat() by {
                assert(self.view()[a] == o[a] && self.view()[b] == o[b]);
            }
            assert forall|d: int| 0 <= d < n implies (#[trigger] o[d]).0.as_nat() < self.sparse@.len() by {
                assert(self.view()[d] == o[d]);
            }
        }
        while i < n
            invariant
                0 < i <= n || n == 0,
                n == self.items@.len(),
                n == o.len(),
                self.sparse@ == old(self).sparse@,
                forall|a: (I, T), b: (I, T)| #[trigger] compare.requires((&a, &b)),
                consistent_order(compare),
                forall|a: int, b: int| 0 <= a < n && 0 <= b < n && a != b ==> (#[trigger] o[a]).0.as_nat() != (#[trigger] o[b]).0.as_nat(),
                forall|d: int| 0 <= d < n ==> (#[trigger] o[d]).0.as_nat() < self.sparse@.len(),
                orig.len() == n,
                forall|p: int| 0 <= p < n ==> 0 <= #[trigger] orig[p] < n && self.items@[p] == o[orig[p]],
                forall|p: int, q: int| 0 <= p < q < n ==> #[trigger] orig[p] != #[trigger] orig[q],
                forall|p: int| i <= p < n ==> #[trigger] orig[p] == p,
                forall|k: int| 0 <= k && k + 1 < i ==> not_greater(compare, #[trigger] self.items@[k], self.items@[k + 1]),
                forall|p: int, q: int| 0 <= p < q < n && orig[p] > orig[q] ==> always_less(compare, #[trigger] self.items@[p], #[trigger] self.items@[q]),
            decreases n - i,
        {
            let mut j: usize = i;
            let mut moving = true;
            while moving && j > 0
                invariant
                    0 <= j <= i < n,
                    n == self.items@.len(),
                    self.sparse@ == old(self).sparse@,
                    forall|a: (I, T), b: (I, T)| #[trigger] compare.requires((&a, &b)),
                    consistent_order(compare),
                    orig.len() == n,
                    forall|p: int| 0 <= p < n ==> 0 <= #[trigger] orig[p] < n && self.items@[p] == o[orig[p]],
                    forall|p: int, q: int| 0 <= p < q < n ==> #[trigger] orig[p] != #[trigger] orig[q],
                    forall|p: int| i < p < n ==> #[trigger] orig[p] == p,
                    forall|k: int| 0 <= k && (k + 1 < j || (j < k && k + 1 <= i)) ==> not_greater(compare, #[trigger] self.items@[k], self.items@[k + 1]),
                    j < i ==> always_less(compare, self.items@[j as int], self.items@[j + 1]),
                    0 < j < i ==> not_greater(compare, self.items@[j - 1], self.items@[j + 1]),
                    !moving ==> j == 0 || not_greater(compare, self.items@[j - 1], self.items@[j as int]),
                    forall|p: int, q: int| 0 <= p < q < n && orig[p] > orig[q] ==> always_less(compare, #[trigger] self.items@[p], #[trigger] self.items@[q]),
                decreases j + if moving { 1int } else { 0int },
            {
                let c = compare(&self.items[j - 1], &self.items[j]);
                if matches!(c, std::cmp::Ordering::Greater) {
                    let ghost a = self.items@;
                    let ghost before = orig;
                    Self::swap_adjacent(&mut self.items, j);
                    proof {
                        let b = self.items@;
                        let y = a[j - 1];
                        let x = a[j as int];
                        assert(compare.ensures((&y, &x), std::cmp::Ordering::Greater));
                        assert(compare.ensures((&x, &y), std::cmp::Ordering::Less));
                        assert(always_less(compare, x, y));
                        if before[j - 1] > before[j as int] {
                            assert(always_less(compare, y, x));
                        }
                        orig = before.update(j - 1, before[j as int]).update(j as int, before[j - 1]);
                        let sw = |p: int| if p == j - 1 { j as int } else if p == j { j - 1 } else { p };
                        assert forall|p: int| 0 <= p < n implies 0 <= #[trigger] orig[p] < n && b[p] == o[orig[p]] by {
                            assert(b[p] == a[sw(p)] && orig[p] == before[sw(p)]);
                        }
                        assert forall|p: int, q: int| 0 <= p < q < n implies #[trigger] orig[p] != #[trigger] orig[q] by {
                            assert(orig[p] == before[sw(p)] && orig[q] == before[sw(q)]);
                        }
                        assert forall|p: int, q: int| 0 <= p < q < n && orig[p] > orig[q] implies always_less(compare, #[trigger] b[p], #[trigger] b[q]) by {
                            assert(b[p] == a[sw(p)] && b[q] == a[sw(q)]);
                            assert(orig[p] == before[sw(p)] && orig[q] == before[sw(q)]);
                            if !(p == j - 1 && q == j) {
                                assert(sw(p) < sw(q));
                            }
                        }
                        assert forall|k: int| 0 <= k && (k + 1 < j - 1 || (j - 1 < k && k + 1 <= i)) implies not_greater(compare, #[trigger] b[k], b[k + 1]) by {
                            if k + 1 < j - 1 {
                                assert(b[k] == a[k] && b[k + 1] == a[k + 1]);
                            } else if k == j {
                                assert(b[k] == y);
                                if j < i {
                                    assert(b[k + 1] == a[j + 1]);
                                }
                            } else if k > j {
                                assert(b[k] == a[k] && b[k + 1] == a[k + 1]);
                            }
                        }
                        if j - 1 > 0 {
                            assert(b[j - 2] == a[j - 2]);
                            assert(not_greater(compare, a[j - 2], a[j - 1]));
                        }
                    }
                    j = j - 1;
                } else {
                    proof {
                        assert(compare.ensures((&self.items@[j - 1], &self.items@[j as int]), c));
                    }
                    moving = false;
                }
            }
            proof {
                assert forall|k: int| 0 <= k && k + 1 < i + 1 implies not_greater(compare, #[trigger] self.items@[k], self.items@[k + 1]) by {
                    if k == j {
                        assert(always_less(compare, self.items@[j as int], self.items@[j + 1]));
                    }
                }
            }
            i = i + 1;
        }
        proof {
            assert forall|e: (I, T)| #[trigger] self.items@.contains(e) == o.contains(e) by {
                if self.items@.contains(e) {
                    let p = choose|p: int| 0 <= p < n && self.items@[p] == e;
                    assert(o[orig[p]] == e);
                }
                if o.contains(e) {
                    let q = choose|q: int| 0 <= q < n && o[q] == e;
                    assert(orig.to_set().subset_of(vstd::set_lib::set_int_range(0, n as int)));
                    assert(orig.no_duplicates()) by {
                        assert forall|a: int, b: int| 0 <= a < orig.len() && 0 <= b < orig.len() && a != b implies orig[a] != orig[b] by {
                            if a < b {
                                assert(orig[a] != orig[b]);
                            } else {
                                assert(orig[b] != orig[a]);
                            }
                        }
                    }
                    orig.unique_seq_to_set();
                    vstd::set_lib::lemma_int_range(0, n as int);
                    vstd::set_lib::lemma_len_subset(orig.to_set(), vstd::set_lib::set_int_range(0, n as int));
                    if !orig.to_set().contains(q) {
                        vstd::set_lib::lemma_len_subset(orig.to_set().insert(q), vstd::set_lib::set_int_range(0, n as int));
                    }
                    assert(orig.to_set().contains(q));
                    let p = choose|p: int| 0 <= p < n && orig[p] == q;
                    assert(self.items@[p] == e);
                }
            }
            assert forall|a: int, b: int| 0 <= a < n && 0 <= b < n && a != b implies (#[trigger] self.items@[a]).0.as_nat() != (#[trigger] self.items@[b]).0.as_nat() by {
                if a < b {
                    assert(orig[a] != orig[b]);
                } else {
                    assert(orig[b] != orig[a]);
                }
            }
        }
        proof {
            assert forall|e: int| 0 <= e < n implies (#[trigger] self.items@[e]).0.as_nat() < self.sparse@.len() by {
                assert(self.items@[e] == o[orig[e]]);
            }
        }
        let ghost sorted = self.items@;
        let mut d: usize = 0;
        while d < n
            invariant
                0 <= d <= n,
                n == self.items@.len(),
                self.items@ == sorted,
                self.sparse@.len() == old(self).sparse@.len(),
                self.sparse@.len() <= usize::MAX,
                n < usize::MAX,
                forall|a: int, b: int| 0 <= a < n && 0 <= b < n && a != b ==> (#[trigger] self.items@[a]).0.as_nat() != (#[trigger] self.items@[b]).0.as_nat(),
                forall|e: int| 0 <= e < n ==> (#[trigger] self.items@[e]).0.as_nat() < self.sparse@.len(),
                forall|e: int| 0 <= e < d ==> self.sparse@[(#[trigger] self.items@[e]).0.as_nat() as int] == e,
            decreases n - d,
        {
            let key = match self.items[d].0.to_usize() {
                Some(k) => k,
                None => {
                    proof {
                        assert(self.items@[d as int].0.as_nat() < self.sparse@.len());
                    }
                    0
                },
            };
            self.sparse.set(key, d);
            proof {
                assert forall|e: int| 0 <= e < d + 1 implies self.sparse@[(#[trigger] self.items@[e]).0.as_nat() as int] == e by {
                    if e < d {
                        assert(self.items@[e].0.as_nat() != self.items@[d as int].0.as_nat());
                    }
                }
            }
            d = d + 1;
        }
        proof {
            assert forall|k: nat| #[trigger] self.spec_get(k) == old(self).spec_get(k) by {
                if old(self).has_key(k) {
                    let e = old(self).position_of(k);
                    old(self).lemma_position(k, e);
                    assert(o.contains(o[e]));
                    assert(self.items@.contains(o[e]));
                    let p = choose|p: int| 0 <= p < n && self.items@[p] == o[e];
                    self.lemma_position(k, p);
                }
                if self.has_key(k) {
                    let e = self.position_of(k);
                    self.lemma_position(k, e);
                    assert(self.items@.contains(self.view()[e]));
                    assert(o.contains(self.view()[e]));
                    let p = choose|p: int| 0 <= p < n && o[p] == self.view()[e];
                    old(self).lemma_position(k, p);
                }
            }
            assert forall|p: int, q: int| 0 <= p < q < n && old(self).position_of((#[trigger] self.view()[p]).0.as_nat())
                > old(self).position_of((#[trigger] self.view()[q]).0.as_nat()) implies always_less(compare, self.view()[p], self.view()[q]) by {
                old(self).lemma_position(self.view()[p].0.as_nat(), orig[p]);
                old(self).lemma_position(self.view()[q].0.as_nat(), orig[q]);
            }
        }
    }
}

/// The entries taken out of a [SparseSet] by `drain`, in dense order.
pub struct Drain<T, I: UnsignedNum> {
    items: Vec<(I, T)>,
}

impl<T, I: UnsignedNum> Drain<T, I> {
    /// The drained entries.
    pub closed spec fn view(&self) -> Seq<(I, T)> {
        self.items@
    }

    /// Returns the number of drained entries.
    pub fn len(&self) -> (r: usize)
        ensures
            r == self.view().len(),
    {
        self.items.len()
    }

    /// Returns the drained entries.
    pub fn into_vec(self) -> (r: Vec<(I, T)>)
        ensures
            r@ == self.view(),
    {
        self.items
    }
}

impl<T, I: UnsignedNum> AssocMap for SparseSet<T, I> {
    type Key = I;

    type Value = T;

    open spec fn map_wf(&self) -> bool {
        self.wf()
    }

    open spec fn lookup(&self, key: I) -> Option<T> {
        self.spec_get(key.as_nat())
    }

    open spec fn map_len(&self) -> nat {
        self.view().len()
    }

    fn get(&self, key: &I) -> (r: Option<&T>) {
        SparseSet::get(self, key)
    }

    fn len(&self) -> (r: usize) {
        SparseSet::len(self)
    }
}

impl<T, I: UnsignedNum> MapMut for SparseSet<T, I> {
    open spec fn can_insert(&self, key: I) -> bool {
        key.as_nat() < usize::MAX && self.view().len() + 1 < usize::MAX
    }

    fn empty() -> (r: Self) {
        SparseSet::new()
    }

    fn clear(&mut self) {
        SparseSet::clear(self);
    }

    fn get_mut(&mut self, key: &I) -> (r: Option<&mut T>) {
        let ghost d = old(self).position_of(key.as_nat());
        proof {
            if old(self).has_key(key.as_nat()) {
                old(self).lemma_position(key.as_nat(), d);
                Self::lemma_same_keys(*old(self), d);
            }
            assert forall|k: I| k != *key implies k.as_nat() != key.as_nat() by {
                I::lemma_as_nat(k, *key);
            }
        }
        SparseSet::get_mut(self, key)
    }

    fn insert(&mut self, key: I, value: T) -> (r: Option<T>) {
        proof {
            assert forall|k: I| k != key implies k.as_nat() != key.as_nat() by {
                I::lemma_as_nat(k, key);
            }
        }
        SparseSet::insert(self, key, value)
    }

    fn remove(&mut self, key: &I) -> (r: Option<T>) {
        proof {
            assert forall|k: I| k != *key implies k.as_nat() != key.as_nat() by {
                I::lemma_as_nat(k, *key);
            }
        }
        SparseSet::remove(self, key)
    }
}

impl<T, I: UnsignedNum> IterableMapMut for SparseSet<T, I> {
    open spec fn span(&self) -> nat {
        self.view().len()
    }

    open spec fn key_at(&self, n: nat) -> Option<I> {
        if n < self.view().len() {
            Some(self.view()[n as int].0)
        } else {
            None
        }
    }

    fn span_len(&self) -> (r: usize) {
        self.items.len()
    }

    fn value_at_mut(&mut self, n: usize) -> (r: Option<&mut T>) {
        if n >= self.items.len() {
            return None;
        }
        let key = self.items[n].0;
        proof {
            self.lemma_position(key.as_nat(), n as int);
            Self::lemma_same_keys(*old(self), n as int);
            assert forall|k: I| k != key implies k.as_nat() != key.as_nat() by {
                I::lemma_as_nat(k, key);
            }
        }
        SparseSet::get_mut(self, &key)
    }
}

impl<T, I: UnsignedNum> IterableMap for SparseSet<T, I> {
    open spec fn key_order(&self) -> Seq<I> {
        self.view().map_values(|e: (I, T)| e.0)
    }

    fn entries(&self) -> (r: Vec<(I, &T)>) {
        let mut out: Vec<(I, &T)> = Vec::new();
        let mut d: usize = 0;
        while d < self.items.len()
            invariant
                0 <= d <= self.view().len(),
                self.wf(),
                out@.len() == d,
                forall|n: int| 0 <= n < d ==> (#[trigger] out@[n]).0 == self.view()[n].0 && *out@[n].1 == self.view()[n].1,
            decreases self.view().len() - d,
        {
            let entry = &self.items[d];
            out.push((entry.0, &entry.1));
            d = d + 1;
        }
        proof {
            assert forall|n: int| 0 <= n < out@.len() implies self.lookup((#[trigger] out@[n]).0) == Some(*out@[n].1) by {
                self.lemma_position(out@[n].0.as_nat(), n);
            }
            assert forall|n: int, m: int| 0 <= n < m < out@.len() implies (#[trigger] out@[n]).0 != (#[trigger] out@[m]).0 by {
                if out@[n].0 == out@[m].0 {
                    self.lemma_position(out@[n].0.as_nat(), n);
                    self.lemma_position(out@[n].0.as_nat(), m);
                }
            }
            assert forall|k: I| (#[trigger] self.lookup(k)) is Some implies exists|n: int| 0 <= n < out@.len() && (#[trigger] out@[n]).0 == k by {
                let e = self.position_of(k.as_nat());
                I::lemma_as_nat(self.view()[e].0, k);
                assert(out@[e].0 == k);
            }
        }
        out
    }
}

impl<T, I: UnsignedNum> Default for SparseSet<T, I> {
    fn default() -> (r: Self)
        ensures
            r.wf(),
            r.view() == Seq::<(I, T)>::empty(),
    {
        Self::new()
    }
}

} // verus!
