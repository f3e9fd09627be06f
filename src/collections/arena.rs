//! Arena: an allocator of generational indices together with the values stored at them.

use crate::collections::allocator::{count_in_use, parts_valid, slot_in_use, GenIndexAllocator};
use crate::collections::map::{Arena, AssocMap, IterableMap, IterableMapMut};
use crate::collections::vecmap::VecMap;
use crate::genindex::{raw, GenIndex, IndexU64};
use crate::markers::UnsignedNum;
use vstd::prelude::*;

verus! {

/// An object pool: `insert` mints the handle of each value, and every lookup checks the
/// handle's generation, so a stale handle finds nothing even after its slot is reused.
pub struct GenIndexArena<T, I: GenIndex = IndexU64> {
    indices: GenIndexAllocator<I>,
    items: VecMap<T, I::Index>,
}

/// The handles in use in a slot table, in slot order.
pub open spec fn live_handles<I: GenIndex>(s: Seq<I>) -> Seq<I>
    decreases s.len(),
{
    if s.len() == 0 {
        Seq::empty()
    } else if slot_in_use(s, s.len() - 1) {
        live_handles(s.drop_last()).push(s.last())
    } else {
        live_handles(s.drop_last())
    }
}

/// Whether an arena's persisted form can be loaded: the slot table can, the value slots fit the
/// index type, and a value slot is filled exactly where its slot is in use.
pub open spec fn arena_parts_valid<T, I: GenIndex>(slots: Seq<(I::Index, I::Generation)>, values: Seq<Option<T>>) -> bool {
    &&& parts_valid::<I>(slots)
    &&& values.len() <= <I::Index as UnsignedNum>::max_nat() + 1
    &&& forall|q: int| 0 <= q < slots.len() || 0 <= q < values.len() ==> ((q < values.len() && (#[trigger] values[q]) is Some)
        <==> (q < slots.len() && slots[q].0.as_nat() == q))
}

impl<T, I: GenIndex> GenIndexArena<T, I> {
    /// The handle allocator.
    pub closed spec fn allocator(&self) -> GenIndexAllocator<I> {
        self.indices
    }

    /// The value stored for handle `h`, if `h` is live.
    pub closed spec fn spec_get(&self, h: I) -> Option<T> {
        if self.indices.spec_contains(h) {
            self.items.spec_get(raw(h))
        } else {
            None
        }
    }

    /// Whether `h` is a live handle.
    pub open spec fn spec_contains(&self, h: I) -> bool {
        self.allocator().spec_contains(h)
    }

    /// The number of live values.
    pub open spec fn spec_len(&self) -> nat {
        self.allocator().spec_len()
    }

    /// The arena is well formed: a slot holds a value exactly when it is in use.
    pub closed spec fn wf(&self) -> bool {
        &&& self.indices.wf()
        &&& self.items.wf()
        &&& forall|p: nat| (#[trigger] self.items.spec_get(p)) is Some <==> (p < self.indices.view().len()
            && slot_in_use(self.indices.view(), p as int))
    }

    /// A handle is live exactly when the arena holds a value for it.
    pub proof fn lemma_live(&self, h: I)
        requires
            self.wf(),
        ensures
            self.spec_contains(h) ==> self.spec_get(h) is Some,
            self.spec_get(h) is Some ==> self.spec_contains(h),
    {
        if self.spec_contains(h) {
            assert(self.items.spec_get(raw(h)) is Some);
        }
    }

    /// Constructs a new, empty arena.
    pub fn new() -> (r: Self)
        ensures
            r.wf(),
            r.spec_len() == 0,
            forall|h: I| #[trigger] r.spec_get(h) is None,
    {
        Self::with_capacity(0)
    }

    /// Constructs a new, empty arena with room for `capacity` values.
    pub fn with_capacity(capacity: usize) -> (r: Self)
        ensures
            r.wf(),
            r.spec_len() == 0,
            forall|h: I| #[trigger] r.spec_get(h) is None,
    {
        GenIndexArena { indices: GenIndexAllocator::with_capacity(capacity), items: VecMap::with_capacity(capacity) }
    }

    /// Returns the number of values.
    pub fn len(&self) -> (r: usize)
        requires
            self.wf(),
        ensures
            r == self.spec_len(),
    {
        self.indices.len()
    }

    /// Returns `true` if the arena holds no values.
    pub fn is_empty(&self) -> (r: bool)
        requires
            self.wf(),
        ensures
            r == (self.spec_len() == 0),
    {
        self.indices.is_empty()
    }

    /// Returns the number of slots the arena can hold without reallocating.
    pub fn capacity(&self) -> (r: usize)
        ensures
            r >= self.allocator().view().len(),
    {
        self.indices.capacity()
    }

    /// Reserves room for at least `additional` more values.
    pub fn reserve(&mut self, additional: usize)
        requires
            old(self).wf(),
        ensures
            final(self).wf(),
            forall|h: I| #[trigger] final(self).spec_get(h) == old(self).spec_get(h),
            final(self).allocator().view() == old(self).allocator().view(),
            final(self).allocator().next_slot() == old(self).allocator().next_slot(),
            final(self).spec_len() == old(self).spec_len(),
    {
        self.indices.reserve(additional);
        self.items.reserve(additional);
        proof {
            assert forall|p: nat| (#[trigger] self.items.spec_get(p)) is Some <==> (p < self.indices.view().len()
                && slot_in_use(self.indices.view(), p as int)) by {
                assert(self.items.spec_get(p) == old(self).items.spec_get(p));
            }
        }
    }

    /// Removes every value; every slot goes back on the free list.
    pub fn clear(&mut self)
        requires
            old(self).wf(),
        ensures
            final(self).wf(),
            final(self).spec_len() == 0,
            forall|h: I| #[trigger] final(self).spec_get(h) is None,
    {
        self.indices.clear();
        self.items.clear();
        proof {
            assert forall|p: nat| (#[trigger] self.items.spec_get(p)) is Some <==> (p < self.indices.view().len()
                && slot_in_use(self.indices.view(), p as int)) by {
            }
        }
    }

    /// Stores `value` under a freshly created handle and returns the handle.
    pub fn insert(&mut self, value: T) -> (h: I)
        requires
            old(self).wf(),
            old(self).allocator().can_create(),
            old(self).allocator().view().len() < usize::MAX,
        ensures
            final(self).wf(),
            GenIndexAllocator::create_step(old(self).allocator(), final(self).allocator(), h),
            final(self).spec_get(h) == Some(value),
            forall|g: I| g != h ==> #[trigger] final(self).spec_get(g) == old(self).spec_get(g),
    {
        let ghost before = self.indices;
        let h = self.indices.create();
        proof {
            if self.items.spec_get(raw(h)) is Some {
                assert(raw(h) < before.view().len() && slot_in_use(before.view(), raw(h) as int));
                I::lemma_parts(h, before.view()[raw(h) as int]);
                assert(before.spec_contains(before.view()[raw(h) as int]));
            }
        }
        self.items.insert(h.index(), value);
        proof {
            assert forall|p: nat| (#[trigger] self.items.spec_get(p)) is Some <==> (p < self.indices.view().len()
                && slot_in_use(self.indices.view(), p as int)) by {
                if p != raw(h) && p < before.view().len() {
                    assert(self.indices.view()[p as int] == before.view()[p as int]);
                }
            }
            assert forall|g: I| g != h implies #[trigger] self.spec_get(g) == old(self).spec_get(g) by {
                if raw(g) == raw(h) && before.spec_contains(g) {
                    assert(self.indices.view()[raw(h) as int] == h);
                }
            }
        }
        h
    }

    /// Removes and returns the value of `key` if `key` is live; its slot goes on the free list.
    pub fn remove(&mut self, key: &I) -> (r: Option<T>)
        requires
            old(self).wf(),
        ensures
            final(self).wf(),
            r == old(self).spec_get(*key),
            r is Some ==> GenIndexAllocator::remove_step(old(self).allocator(), final(self).allocator(), *key),
            r is None ==> final(self).allocator() == old(self).allocator(),
            forall|g: I| #[trigger] final(self).spec_get(g) == (if g == *key {
                None
            } else {
                old(self).spec_get(g)
            }),
    {
        proof {
            old(self).lemma_live(*key);
        }
        let ghost before = self.indices;
        if self.indices.remove(key) {
            let r = self.items.remove(&key.index());
            proof {
                assert forall|p: nat| (#[trigger] self.items.spec_get(p)) is Some <==> (p < self.indices.view().len()
                    && slot_in_use(self.indices.view(), p as int)) by {
                    if p != raw(*key) && p < before.view().len() {
                        assert(self.indices.view()[p as int] == before.view()[p as int]);
                    }
                }
                assert forall|g: I| #[trigger] self.spec_get(g) == (if g == *key { None } else { old(self).spec_get(g) }) by {
                    if raw(g) == raw(*key) && g != *key && before.spec_contains(g) {
                        I::lemma_parts(g, *key);
                    }
                }
            }
            r
        } else {
            None
        }
    }

    /// Returns a reference to the value of `key` if `key` is live.
    pub fn get(&self, key: &I) -> (r: Option<&T>)
        requires
            self.wf(),
        ensures
            match r {
                Some(v) => self.spec_get(*key) == Some(*v),
                None => self.spec_get(*key) is None,
            },
    {
        if self.indices.contains(key) {
            self.items.get(&key.index())
        } else {
            None
        }
    }

    /// Returns a mutable reference to the value of `key` if `key` is live.
    pub fn get_mut(&mut self, key: &I) -> (r: Option<&mut T>)
        requires
            old(self).wf(),
        ensures
            final(self).wf(),
            final(self).allocator() == old(self).allocator(),
            match r {
                Some(v) => {
                    &&& old(self).spec_get(*key) == Some(*v)
                    &&& final(self).spec_get(*key) == Some(*final(v))
                    &&& forall|g: I| g != *key ==> #[trigger] final(self).spec_get(g) == old(self).spec_get(g)
                },
                None => {
                    &&& old(self).spec_get(*key) is None
                    &&& forall|g: I| #[trigger] final(self).spec_get(g) == old(self).spec_get(g)
                },
            },
    {
        if self.indices.contains(key) {
            proof {
                old(self).lemma_live(*key);
            }
            let r = self.items.get_mut(&key.index());
            proof {
                assert forall|g: I| g != *key && #[trigger] old(self).spec_get(g) is Some implies raw(g) != raw(*key) by {
                    I::lemma_parts(g, *key);
                }
            }
            r
        } else {
            None
        }
    }

    /// Returns `true` if `key` is live.
    pub fn contains_key(&self, key: &I) -> (r: bool)
        requires
            self.wf(),
        ensures
            r == self.spec_contains(*key),
            r == self.spec_get(*key) is Some,
    {
        proof {
            self.lemma_live(*key);
        }
        self.indices.contains(key)
    }

    /// Keeps only the values for which `f` returns `true`; each removal also frees its handle.
    pub fn retain<F: Fn(&I, &T) -> bool>(&mut self, f: F)
        requires
            old(self).wf(),
            forall|k: I, v: T| #[trigger] f.requires((&k, &v)),
        ensures
            final(self).wf(),
            final(self).spec_len() == count_in_use(final(self).allocator().view()),
            forall|g: I| (#[trigger] final(self).spec_get(g)) is Some ==> final(self).spec_get(g) == old(self).spec_get(g)
                && f.ensures((&g, &final(self).spec_get(g)->0), true),
            forall|g: I| (#[trigger] old(self).spec_get(g)) is Some && final(self).spec_get(g) is None
                ==> f.ensures((&g, &old(self).spec_get(g)->0), false),
    {
        let len = self.indices.iter().len();
        let mut i: usize = 0;
        while i < len
            invariant
                0 <= i <= len,
                self.wf(),
                len == self.indices.view().len(),
                forall|k: I, v: T| #[trigger] f.requires((&k, &v)),
                forall|g: I| (#[trigger] self.spec_get(g)) is Some ==> self.spec_get(g) == old(self).spec_get(g),
                forall|g: I| (#[trigger] self.spec_get(g)) is Some && raw(g) < i ==> f.ensures((&g, &self.spec_get(g)->0), true),
                forall|g: I| (#[trigger] old(self).spec_get(g)) is Some && self.spec_get(g) is None
                    ==> f.ensures((&g, &old(self).spec_get(g)->0), false),
                forall|g: I| (#[trigger] old(self).spec_get(g)) is Some && raw(g) >= i ==> self.spec_get(g) == old(self).spec_get(g),
            decreases len - i,
        {
            let slot = self.indices.iter()[i];
            let in_use = match slot.index().to_usize() {
                Some(idx) => idx == i,
                None => false,
            };
            if in_use {
                proof {
                    assert(self.indices.spec_contains(slot));
                    self.lemma_live(slot);
                }
                let keep = match self.get(&slot) {
                    Some(v) => f(&slot, v),
                    None => true,
                };
                if !keep {
                    let ghost before = *self;
                    self.remove(&slot);
                    proof {
                        assert forall|g: I| (#[trigger] self.spec_get(g)) is Some && raw(g) < i + 1 implies f.ensures((&g, &self.spec_get(g)->0), true) by {
                            assert(self.spec_get(g) == before.spec_get(g));
                        }
                    }
                } else {
                    proof {
                        assert forall|g: I| (#[trigger] self.spec_get(g)) is Some && raw(g) < i + 1 implies f.ensures((&g, &self.spec_get(g)->0), true) by {
                            if raw(g) == i {
                                self.lemma_live(g);
                                I::lemma_parts(g, slot);
                            }
                        }
                    }
                }
            }
            i = i + 1;
        }
        proof {
            self.indices.lemma_len_counts_live();
        }
    }

    /// Replaces every value `v` of a live handle `h` by `f(h, v)`, in increasing raw index order.
    pub fn iter_mut<F: Fn(&I, &T) -> T>(&mut self, f: F)
        requires
            old(self).wf(),
            forall|k: I, v: T| #[trigger] f.requires((&k, &v)),
        ensures
            final(self).wf(),
            final(self).allocator() == old(self).allocator(),
            forall|g: I| (#[trigger] final(self).spec_get(g)) is Some == old(self).spec_get(g) is Some,
            forall|g: I| (#[trigger] old(self).spec_get(g)) is Some ==> f.ensures((&g, &old(self).spec_get(g)->0), final(self).spec_get(g)->0),
    {
        let len = self.indices.iter().len();
        let mut i: usize = 0;
        while i < len
            invariant
                0 <= i <= len,
                self.wf(),
                self.allocator() == old(self).allocator(),
                len == self.indices.view().len(),
                forall|k: I, v: T| #[trigger] f.requires((&k, &v)),
                forall|g: I| (#[trigger] self.spec_get(g)) is Some == old(self).spec_get(g) is Some,
                forall|g: I| (#[trigger] old(self).spec_get(g)) is Some && raw(g) < i ==> f.ensures((&g, &old(self).spec_get(g)->0), self.spec_get(g)->0),
                forall|g: I| (#[trigger] old(self).spec_get(g)) is Some && raw(g) >= i ==> self.spec_get(g) == old(self).spec_get(g),
            decreases len - i,
        {
            let slot = self.indices.iter()[i];
            let in_use = match slot.index().to_usize() {
                Some(idx) => idx == i,
                None => false,
            };
            if in_use {
                proof {
                    assert(self.indices.spec_contains(slot));
                    self.lemma_live(slot);
                }
                let fresh = match self.get(&slot) {
                    Some(v) => f(&slot, v),
                    None => {
                        proof {
                            assert(false);
                        }
                        return;
                    },
                };
                let ghost before = *self;
                match self.get_mut(&slot) {
                    Some(v) => {
                        *v = fresh;
                    },
                    None => {},
                }
                proof {
                    assert forall|g: I| (#[trigger] old(self).spec_get(g)) is Some && raw(g) < i + 1 implies f.ensures((&g, &old(self).spec_get(g)->0), self.spec_get(g)->0) by {
                        if g == slot {
                            assert(self.spec_get(g) == Some(fresh));
                        } else {
                            assert(self.spec_get(g) == before.spec_get(g));
                            if raw(g) == i {
                                old(self).lemma_live(g);
                                I::lemma_parts(g, slot);
                            }
                        }
                    }
                    assert forall|g: I| (#[trigger] old(self).spec_get(g)) is Some && raw(g) >= i + 1 implies self.spec_get(g) == old(self).spec_get(g) by {
                        assert(g != slot);
                    }
                }
            }
            i = i + 1;
        }
    }

    /// Returns the live handles and their values, in increasing raw index order.
    pub fn iter(&self) -> (r: Vec<(I, &T)>)
        requires
            self.wf(),
        ensures
            r@.len() == self.spec_len(),
            r@.len() == live_handles(self.allocator().view()).len(),
            forall|n: int| 0 <= n < r@.len() ==> (#[trigger] r@[n]).0 == live_handles(self.allocator().view())[n],
            forall|n: int| 0 <= n < r@.len() ==> self.spec_get((#[trigger] r@[n]).0) == Some(*r@[n].1),
            forall|n: int, m: int| 0 <= n < m < r@.len() ==> raw((#[trigger] r@[n]).0) < raw((#[trigger] r@[m]).0),
            forall|g: I| (#[trigger] self.spec_get(g)) is Some ==> exists|n: int| 0 <= n < r@.len() && (#[trigger] r@[n]).0 == g,
    {
        let slots = self.indices.iter();
        let mut out: Vec<(I, &T)> = Vec::new();
        let mut i: usize = 0;
        while i < slots.len()
            invariant
                0 <= i <= slots@.len(),
                slots@ == self.indices.view(),
                self.wf(),
                out@.len() == count_in_use(slots@.subrange(0, i as int)),
                out@.len() == live_handles(slots@.subrange(0, i as int)).len(),
                forall|n: int| 0 <= n < out@.len() ==> (#[trigger] out@[n]).0 == live_handles(slots@.subrange(0, i as int))[n],
                forall|n: int| 0 <= n < out@.len() ==> self.spec_get((#[trigger] out@[n]).0) == Some(*out@[n].1)
                    && raw(out@[n].0) < i,
                forall|n: int, m: int| 0 <= n < m < out@.len() ==> raw((#[trigger] out@[n]).0) < raw((#[trigger] out@[m]).0),
                forall|g: I| (#[trigger] self.spec_get(g)) is Some && raw(g) < i ==> exists|n: int| 0 <= n < out@.len() && (#[trigger] out@[n]).0 == g,
            decreases slots@.len() - i,
        {
            proof {
                crate::collections::allocator::lemma_count_prefix(slots@, i + 1);
                assert(slots@.subrange(0, i + 1).drop_last() =~= slots@.subrange(0, i as int));
                assert(slot_in_use(slots@.subrange(0, i + 1), i as int) == slot_in_use(slots@, i as int));
            }
            let slot = slots[i];
            let ghost before = out@;
            let in_use = match slot.index().to_usize() {
                Some(idx) => idx == i,
                None => false,
            };
            if in_use {
                proof {
                    assert(self.indices.spec_contains(slot));
                    self.lemma_live(slot);
                }
                match self.get(&slot) {
                    Some(v) => {
                        out.push((slot, v));
                    },
                    None => {},
                }
            }
            proof {
                assert forall|g: I| (#[trigger] self.spec_get(g)) is Some && raw(g) < i + 1 implies exists|n: int| 0 <= n < out@.len() && (#[trigger] out@[n]).0 == g by {
                    if raw(g) == i {
                        self.lemma_live(g);
                        I::lemma_parts(g, slot);
                        let n = out@.len() - 1;
                        assert(out@[n].0 == g);
                    } else {
                        let n = choose|n: int| 0 <= n < before.len() && (#[trigger] before[n]).0 == g;
                        assert(out@[n] == before[n]);
                    }
                }
            }
            i = i + 1;
        }
        proof {
            assert(slots@.subrange(0, slots@.len() as int) =~= slots@);
            self.indices.lemma_len_counts_live();
        }
        out
    }

    /// The arena's persisted form: the allocator's slot table and the value slots.
    pub fn to_parts(&self) -> (r: (Vec<(I::Index, I::Generation)>, &Vec<Option<T>>))
        requires
            self.wf(),
        ensures
            r.0@.len() == self.allocator().view().len(),
            forall|p: int| 0 <= p < r.0@.len() ==> #[trigger] r.0@[p] == (self.allocator().view()[p].spec_index(),
                self.allocator().view()[p].spec_generation()),
            forall|p: int| 0 <= p < r.1@.len() ==> ((#[trigger] r.1@[p]) is Some <==> (p < self.allocator().view().len()
                && slot_in_use(self.allocator().view(), p))),
            forall|h: I| #[trigger] self.spec_get(h) is Some ==> raw(h) < r.1@.len() && r.1@[raw(h) as int] == self.spec_get(h),
    {
        let slots = self.items.slots();
        proof {
            assert forall|p: int| 0 <= p < slots@.len() implies (slots@[p] is Some <==> (p < self.allocator().view().len()
                && slot_in_use(self.allocator().view(), p))) by {
                assert(self.items.spec_get(p as nat) == slots@[p]);
            }
            assert forall|h: I| #[trigger] self.spec_get(h) is Some implies raw(h) < slots@.len() && slots@[raw(h) as int] == self.spec_get(h) by {
                self.lemma_live(h);
            }
        }
        let r = (self.indices.to_slots(), slots);
        proof {
            assert(r.1@ == slots@);
            assert forall|p: int| 0 <= p < r.1@.len() implies ((#[trigger] r.1@[p]) is Some <==> (p < self.allocator().view().len()
                && slot_in_use(self.allocator().view(), p))) by {
                assert(self.items.spec_get(p as nat) == slots@[p]);
            }
        }
        r
    }

    /// Arena handle validity: right after `insert` the handle finds the inserted value, and right
    /// after the matching `remove` it finds nothing.
    pub proof fn lemma_handle_validity(a0: Self, a1: Self, a2: Self, h: I, v: T, r: Option<T>)
        requires
            a1.spec_get(h) == Some(v),
            r == a1.spec_get(h),
            forall|g: I| #[trigger] a2.spec_get(g) == (if g == h {
                None
            } else {
                a1.spec_get(g)
            }),
        ensures
            a1.spec_get(h) == Some(v),
            r == Some(v),
            a2.spec_get(h) is None,
    {
    }

    /// Rebuilds an arena from its persisted form. Returns `None` where the slot table cannot be
    /// loaded, or where a value slot is filled but its slot is not in use, or the other way round.
    pub fn from_parts(slots: Vec<(I::Index, I::Generation)>, values: Vec<Option<T>>) -> (r: Option<Self>)
        ensures
            r is Some <==> arena_parts_valid::<T, I>(slots@, values@),
            r matches Some(a) ==> {
                &&& a.wf()
                &&& forall|h: I| #[trigger] a.spec_contains(h) == crate::collections::allocator::parts_contain(slots@, h)
                &&& forall|h: I| #[trigger] a.spec_get(h) is Some ==> raw(h) < values@.len() && a.spec_get(h)
                    == values@[raw(h) as int]
            },
    {
        let ghost sp = slots@;
        let ghost vp = values@;
        let indices: GenIndexAllocator<I> = match GenIndexAllocator::from_slots(slots) {
            Some(a) => a,
            None => {
                return None;
            },
        };
        let items: VecMap<T, I::Index> = match VecMap::from_slots(values) {
            Some(m) => m,
            None => {
                return None;
            },
        };
        let table: &[I] = indices.iter();
        let cells = items.slots();
        let n = if table.len() < cells.len() {
            cells.len()
        } else {
            table.len()
        };
        let mut p: usize = 0;
        while p < n
            invariant
                0 <= p <= n,
                n >= table@.len(),
                n >= cells@.len(),
                table@ == indices.view(),
                cells@ == items.view(),
                items.wf(),
                forall|q: nat| q < p ==> ((#[trigger] items.spec_get(q)) is Some <==> (q < table@.len()
                    && slot_in_use(table@, q as int))),
                sp.len() == table@.len(),
                vp == cells@,
                sp == slots@,
                vp == values@,
                forall|q: int| 0 <= q < sp.len() ==> slot_in_use(table@, q) == ((#[trigger] sp[q]).0.as_nat() == q),
                forall|q: int| 0 <= q < p ==> ((q < vp.len() && (#[trigger] vp[q]) is Some) <==> (q < sp.len() && sp[q].0.as_nat() == q)),
            decreases n - p,
        {
            let filled = p < cells.len() && cells[p].is_some();
            let in_use = p < table.len() && match table[p].index().to_usize() {
                Some(idx) => idx == p,
                None => false,
            };
            if filled != in_use {
                proof {
                    if p < sp.len() {
                        assert(slot_in_use(table@, p as int) == (sp[p as int].0.as_nat() == p));
                    }
                    assert(in_use == (p < sp.len() && sp[p as int].0.as_nat() == p));
                    assert(filled == (p < vp.len() && vp[p as int] is Some));
                    assert(p < sp.len() || p < vp.len());
                    if arena_parts_valid::<T, I>(sp, vp) {
                        assert(0 <= p < sp.len() || 0 <= p < vp.len());
                        assert((p < vp.len() && vp[p as int] is Some) <==> (p < sp.len() && sp[p as int].0.as_nat() == p));
                        assert(false);
                    }
                    assert(!arena_parts_valid::<T, I>(sp, vp));
                }
                return None;
            }
            proof {
                if p < sp.len() {
                    assert(slot_in_use(table@, p as int) == (sp[p as int].0.as_nat() == p));
                }
                assert(items.spec_get(p as nat) == (if p < cells@.len() { cells@[p as int] } else { None }));
            }
            p = p + 1;
        }
        let a = GenIndexArena { indices, items };
        proof {
            assert forall|q: int| 0 <= q < sp.len() || 0 <= q < vp.len() implies ((q < vp.len() && (#[trigger] vp[q]) is Some)
                <==> (q < sp.len() && sp[q].0.as_nat() == q)) by {
            }
            assert forall|q: nat| (#[trigger] a.items.spec_get(q)) is Some <==> (q < a.indices.view().len()
                && slot_in_use(a.indices.view(), q as int)) by {
                if q >= n {
                    assert(a.items.spec_get(q) is None);
                }
            }
        }
        Some(a)
    }
}

impl<T, I: GenIndex> AssocMap for GenIndexArena<T, I> {
    type Key = I;

    type Value = T;

    open spec fn map_wf(&self) -> bool {
        self.wf()
    }

    open spec fn lookup(&self, key: I) -> Option<T> {
        self.spec_get(key)
    }

    open spec fn map_len(&self) -> nat {
        self.spec_len()
    }

    fn get(&self, key: &I) -> (r: Option<&T>) {
        GenIndexArena::get(self, key)
    }

    fn len(&self) -> (r: usize) {
        GenIndexArena::len(self)
    }
}

impl<T, I: GenIndex> Arena for GenIndexArena<T, I> {
    open spec fn can_mint(&self) -> bool {
        self.allocator().can_create() && self.allocator().view().len() < usize::MAX
    }

    fn clear(&mut self) {
        GenIndexArena::clear(self);
    }

    fn get_mut(&mut self, key: &I) -> (r: Option<&mut T>) {
        GenIndexArena::get_mut(self, key)
    }

    fn insert(&mut self, value: T) -> (k: I) {
        let k = GenIndexArena::insert(self, value);
        proof {
            old(self).lemma_live(k);
        }
        k
    }

    fn remove(&mut self, key: &I) -> (r: Option<T>) {
        GenIndexArena::remove(self, key)
    }
}

impl<T, I: GenIndex> IterableMapMut for GenIndexArena<T, I> {
    open spec fn span(&self) -> nat {
        self.allocator().view().len()
    }

    open spec fn key_at(&self, n: nat) -> Option<I> {
        if n < self.allocator().view().len() && slot_in_use(self.allocator().view(), n as int) {
            Some(self.allocator().view()[n as int])
        } else {
            None
        }
    }

    fn span_len(&self) -> (r: usize) {
        self.indices.iter().len()
    }

    fn value_at_mut(&mut self, n: usize) -> (r: Option<&mut T>) {
        let slots = self.indices.iter();
        if n < slots.len() {
            let slot = slots[n];
            let in_use = match slot.index().to_usize() {
                Some(idx) => idx == n,
                None => false,
            };
            if in_use {
                proof {
                    assert(self.indices.spec_contains(slot));
                    self.lemma_live(slot);
                }
                return GenIndexArena::get_mut(self, &slot);
            }
        }
        proof {
            assert forall|k: I| #[trigger] self.spec_get(k) == old(self).spec_get(k) by {
            }
        }
        None
    }
}

impl<T, I: GenIndex> IterableMap for GenIndexArena<T, I> {
    open spec fn key_order(&self) -> Seq<I> {
        live_handles(self.allocator().view())
    }

    fn entries(&self) -> (r: Vec<(I, &T)>) {
        let r = GenIndexArena::iter(self);
        proof {
            assert forall|n: int, m: int| 0 <= n < m < r@.len() implies (#[trigger] r@[n]).0 != (#[trigger] r@[m]).0 by {
                assert(raw(r@[n].0) < raw(r@[m].0));
            }
        }
        r
    }
}

impl<T, I: GenIndex> Default for GenIndexArena<T, I> {
    fn default() -> (r: Self)
        ensures
            r.wf(),
            r.spec_len() == 0,
            forall|h: I| #[trigger] r.spec_get(h) is None,
    {
        Self::new()
    }
}

} // verus!
