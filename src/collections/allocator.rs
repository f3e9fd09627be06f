//! Allocator of generational indices, with a free list threaded through its slot table.

use crate::genindex::{gen_of, is_null_handle, raw, GenIndex, IndexU64};
use crate::markers::UnsignedNum;
use vstd::prelude::*;
use vstd::set_lib::*;

verus! {

/// Allocator of generational indices.
///
/// Each slot holds a handle. A slot in use holds `(position, generation)`; a free slot holds
/// `(next free position, last generation)`, so the free list lives in the slot table itself.
pub struct GenIndexAllocator<I: GenIndex = IndexU64> {
    indices: Vec<I>,
    free_list_head: I::Index,
    free_list_size: usize,
    free: Ghost<Seq<int>>,
}

/// The generation that a slot at position `p`, last holding generation `g`, gets when reused:
/// one more, or on overflow back to zero, skipping the null handle `(0, 0)`.
pub open spec fn next_generation<I: GenIndex>(g: nat, p: nat) -> nat {
    if g < I::spec_max_generation() {
        g + 1
    } else if p == 0 {
        1
    } else {
        0
    }
}

/// Whether position `p` of a slot table is in use.
pub open spec fn slot_in_use<I: GenIndex>(slots: Seq<I>, p: int) -> bool {
    raw(slots[p]) == p
}

/// The number of slots in use in a slot table.
pub open spec fn count_in_use<I: GenIndex>(slots: Seq<I>) -> nat
    decreases slots.len(),
{
    if slots.len() == 0 {
        0
    } else {
        count_in_use(slots.drop_last()) + if slot_in_use(slots, slots.len() - 1) {
            1nat
        } else {
            0nat
        }
    }
}

/// The number of slots in use in a persisted slot table.
pub open spec fn count_live_parts<I: GenIndex>(parts: Seq<(I::Index, I::Generation)>) -> nat
    decreases parts.len(),
{
    if parts.len() == 0 {
        0
    } else {
        count_live_parts::<I>(parts.drop_last()) + if parts.last().0.as_nat() == parts.len() - 1 {
            1nat
        } else {
            0nat
        }
    }
}

proof fn lemma_count_update<I: GenIndex>(s: Seq<I>, p: int, x: I)
    requires
        0 <= p < s.len(),
    ensures
        count_in_use(s.update(p, x)) + (if slot_in_use(s, p) { 1int } else { 0int }) == count_in_use(s) + (if raw(x) == p { 1int } else { 0int }),
    decreases s.len(),
{
    let t = s.update(p, x);
    if p == s.len() - 1 {
        assert(t.drop_last() =~= s.drop_last());
    } else {
        assert(t.drop_last() =~= s.drop_last().update(p, x));
        lemma_count_update(s.drop_last(), p, x);
        assert(slot_in_use(t, s.len() - 1) == slot_in_use(s, s.len() - 1));
        assert(slot_in_use(s.drop_last(), p) == slot_in_use(s, p));
    }
}

/// Counting the slots in use of a prefix one slot at a time.
pub proof fn lemma_count_prefix<I: GenIndex>(s: Seq<I>, i: int)
    requires
        0 < i <= s.len(),
    ensures
        count_in_use(s.subrange(0, i)) == count_in_use(s.subrange(0, i - 1)) + (if slot_in_use(s, i - 1) { 1int } else { 0int }),
{
    assert(s.subrange(0, i).drop_last() =~= s.subrange(0, i - 1));
    assert(slot_in_use(s.subrange(0, i), i - 1) == slot_in_use(s, i - 1));
}

proof fn lemma_count_none<I: GenIndex>(s: Seq<I>)
    requires
        forall|p: int| 0 <= p < s.len() ==> !slot_in_use(s, p),
    ensures
        count_in_use(s) == 0,
    decreases s.len(),
{
    if s.len() > 0 {
        assert forall|p: int| 0 <= p < s.len() - 1 implies !slot_in_use(s.drop_last(), p) by {
            assert(!slot_in_use(s, p));
        }
        lemma_count_none(s.drop_last());
    }
}

proof fn lemma_count_parts<I: GenIndex>(s: Seq<I>, parts: Seq<(I::Index, I::Generation)>)
    requires
        s.len() == parts.len(),
        forall|p: int| 0 <= p < s.len() ==> slot_in_use(s, p) == ((#[trigger] parts[p]).0.as_nat() == p),
    ensures
        count_in_use(s) == count_live_parts::<I>(parts),
    decreases s.len(),
{
    if s.len() > 0 {
        let n = s.len() - 1;
        assert forall|p: int| 0 <= p < n implies slot_in_use(s.drop_last(), p) == ((#[trigger] parts.drop_last()[p]).0.as_nat() == p) by {
            assert(parts.drop_last()[p] == parts[p]);
            assert(slot_in_use(s, p) == (parts[p].0.as_nat() == p));
        }
        lemma_count_parts(s.drop_last(), parts.drop_last());
        assert(slot_in_use(s, n) == (parts[n].0.as_nat() == n));
    }
}

/// Whether handle `h` is live in a slot table.
pub open spec fn slots_contain<I: GenIndex>(slots: Seq<I>, h: I) -> bool {
    raw(h) < slots.len() && slots[raw(h) as int] == h
}

/// Whether a persisted slot table can be loaded: every position fits the index type and
/// every generation is at most the maximum.
pub open spec fn parts_valid<I: GenIndex>(parts: Seq<(I::Index, I::Generation)>) -> bool {
    &&& parts.len() <= <I::Index as UnsignedNum>::max_nat() + 1
    &&& forall|p: int| 0 <= p < parts.len() ==> (#[trigger] parts[p]).1.as_nat() <= I::spec_max_generation()
}

/// Whether handle `h` is live in a persisted slot table.
pub open spec fn parts_contain<I: GenIndex>(parts: Seq<(I::Index, I::Generation)>, h: I) -> bool {
    raw(h) < parts.len() && parts[raw(h) as int] == (h.spec_index(), h.spec_generation())
}

proof fn lemma_free_bound(f: Seq<int>, n: int, p: int)
    requires
        f.no_duplicates(),
        forall|k: int| 0 <= k < f.len() ==> 0 <= #[trigger] f[k] < n,
        0 <= p < n,
        !f.contains(p),
    ensures
        f.len() < n,
{
    f.unique_seq_to_set();
    let range = set_int_range(0, n);
    lemma_int_range(0, n);
    let others = range.remove(p);
    assert(f.to_set().subset_of(others));
    lemma_len_subset(f.to_set(), others);
}

impl<I: GenIndex> GenIndexAllocator<I> {
    /// The slot table.
    pub closed spec fn view(&self) -> Seq<I> {
        self.indices@
    }

    /// How many slots are on the free list.
    pub closed spec fn free_len(&self) -> nat {
        self.free@.len()
    }

    /// The number of live handles.
    pub open spec fn spec_len(&self) -> nat {
        (self.view().len() - self.free_len()) as nat
    }

    /// The position that the next `create` takes: the head of the free list, or a new slot.
    pub closed spec fn next_slot(&self) -> nat {
        if self.free@.len() > 0 {
            self.free_list_head.as_nat()
        } else {
            self.indices@.len()
        }
    }

    /// The generation last held by slot `p`, zero for a slot not yet made.
    pub open spec fn slot_generation(&self, p: nat) -> nat {
        if p < self.view().len() {
            gen_of(self.view()[p as int])
        } else {
            0
        }
    }

    /// Whether `h` is a live handle of this allocator.
    pub open spec fn spec_contains(&self, h: I) -> bool {
        slots_contain(self.view(), h)
    }

    /// Whether `create` can run: a free slot exists, or a new position fits the index type.
    pub open spec fn can_create(&self) -> bool {
        self.free_len() > 0 || self.view().len() <= <I::Index as UnsignedNum>::max_nat()
    }

    /// The allocator is well formed: the free list is a chain through exactly the slots not in use.
    pub closed spec fn wf(&self) -> bool {
        let s = self.indices@;
        let f = self.free@;
        &&& f.len() == self.free_list_size
        &&& f.len() <= s.len()
        &&& f.len() + count_in_use(s) == s.len()
        &&& s.len() <= usize::MAX
        &&& s.len() <= <I::Index as UnsignedNum>::max_nat() + 1
        &&& f.no_duplicates()
        &&& forall|k: int| 0 <= k < f.len() ==> 0 <= #[trigger] f[k] < s.len()
        &&& f.len() > 0 ==> self.free_list_head.as_nat() == f[0]
        &&& forall|k: int| 0 <= k < f.len() - 1 ==> raw(s[#[trigger] f[k]]) == f[k + 1]
        &&& forall|p: int| 0 <= p < s.len() ==> (raw(#[trigger] s[p]) != p <==> f.contains(p))
    }

    /// The free list runs through positions `k, k + 1, ...` up to the end of the slot table,
    /// as `clear` leaves it with `k == 0`.
    pub open spec fn ascending_from(a: Self, k: nat) -> bool {
        &&& k <= a.view().len()
        &&& a.free_len() == a.view().len() - k
        &&& k < a.view().len() ==> a.next_slot() == k
        &&& forall|p: int| k <= p < a.view().len() - 1 ==> raw(#[trigger] a.view()[p]) == p + 1
    }

    /// After `clear`, creates reuse the slots in ascending order: on a free list that runs
    /// through `k, k + 1, ...`, `create` takes slot `k` and leaves the list running from `k + 1`.
    pub proof fn lemma_clear_order(a: Self, b: Self, h: I, k: nat)
        requires
            a.wf(),
            Self::ascending_from(a, k),
            k < a.view().len(),
            Self::create_step(a, b, h),
        ensures
            raw(h) == k,
            Self::ascending_from(b, k + 1),
    {
        if a.free_len() >= 2 {
            assert(raw(a.view()[k as int]) == k + 1);
        }
        assert forall|p: int| k + 1 <= p < b.view().len() - 1 implies raw(#[trigger] b.view()[p]) == p + 1 by {
            assert(b.view()[p] == a.view()[p]);
        }
    }

    /// The length of a well-formed allocator is the number of its slots in use.
    pub proof fn lemma_len_counts_live(&self)
        requires
            self.wf(),
        ensures
            self.spec_len() == count_in_use(self.view()),
    {
    }

    /// What `create` does: `h` is made live in the slot that `old` would reuse.
    pub open spec fn create_step(old: Self, new: Self, h: I) -> bool {
        &&& new.wf()
        &&& raw(h) == old.next_slot()
        &&& gen_of(h) == next_generation::<I>(old.slot_generation(raw(h)), raw(h))
        &&& !is_null_handle(h)
        &&& !old.spec_contains(h)
        &&& new.spec_contains(h)
        &&& new.view().len() == (if raw(h) < old.view().len() {
            old.view().len()
        } else {
            old.view().len() + 1
        })
        &&& new.view()[raw(h) as int] == h
        &&& forall|p: int| 0 <= p < old.view().len() && p != raw(h) ==> new.view()[p] == old.view()[p]
        &&& forall|g: I| g != h ==> (new.spec_contains(g) == old.spec_contains(g))
        &&& new.spec_len() == old.spec_len() + 1
        &&& raw(h) < old.view().len() ==> new.free_len() + 1 == old.free_len()
        &&& raw(h) == old.view().len() ==> new.free_len() == 0
        &&& old.free_len() >= 2 ==> new.next_slot() == raw(old.view()[raw(h) as int])
    }

    /// What a successful `remove` of `h` does: its slot goes on the free list, keeping its generation.
    pub open spec fn remove_step(old: Self, new: Self, h: I) -> bool {
        &&& new.wf()
        &&& new.can_create()
        &&& new.free_len() == old.free_len() + 1
        &&& new.view().len() == old.view().len()
        &&& !slot_in_use(new.view(), raw(h) as int)
        &&& gen_of(new.view()[raw(h) as int]) == gen_of(h)
        &&& forall|p: int| 0 <= p < old.view().len() && p != raw(h) ==> new.view()[p] == old.view()[p]
        &&& new.next_slot() == raw(h)
        &&& forall|g: I| new.spec_contains(g) == (old.spec_contains(g) && g != h)
        &&& new.spec_len() + 1 == old.spec_len()
    }

    /// Constructs a new, empty allocator.
    pub fn new() -> (r: Self)
        ensures
            r.wf(),
            r.view() == Seq::<I>::empty(),
            r.spec_len() == 0,
    {
        Self::with_capacity(0)
    }

    /// Constructs a new, empty allocator with room for `capacity` slots.
    pub fn with_capacity(capacity: usize) -> (r: Self)
        ensures
            r.wf(),
            r.view() == Seq::<I>::empty(),
            r.spec_len() == 0,
    {
        proof {
            <I::Index as UnsignedNum>::lemma_max_nat();
        }
        GenIndexAllocator {
            indices: Vec::with_capacity(capacity),
            free_list_head: I::Index::zero(),
            free_list_size: 0,
            free: Ghost(Seq::empty()),
        }
    }

    /// Returns the number of live handles.
    pub fn len(&self) -> (r: usize)
        requires
            self.wf(),
        ensures
            r == self.spec_len(),
    {
        self.indices.len() - self.free_list_size
    }

    /// Returns `true` if no handle is live.
    pub fn is_empty(&self) -> (r: bool)
        requires
            self.wf(),
        ensures
            r == (self.spec_len() == 0),
    {
        self.len() == 0
    }

    /// Returns the number of slots the allocator can hold without reallocating.
    pub fn capacity(&self) -> (r: usize)
        ensures
            r >= self.view().len(),
    {
        crate::collections::vec_capacity(&self.indices)
    }

    /// Reserves room for at least `additional` more slots.
    pub fn reserve(&mut self, additional: usize)
        requires
            old(self).wf(),
        ensures
            final(self).wf(),
            final(self).view() == old(self).view(),
            final(self).free_len() == old(self).free_len(),
            final(self).next_slot() == old(self).next_slot(),
    {
        self.indices.reserve(additional);
    }

    /// Returns true if `i` is a live handle.
    pub fn contains(&self, i: &I) -> (r: bool)
        requires
            self.wf(),
        ensures
            r == self.spec_contains(*i),
    {
        let ix = i.index();
        match ix.to_usize() {
            Some(idx) => {
                if idx < self.indices.len() {
                    self.indices[idx].same_as(i)
                } else {
                    false
                }
            },
            None => false,
        }
    }

    /// Given a raw index, returns the handle stored in that slot.
    pub fn get(&self, idx: &I::Index) -> (r: Option<&I>)
        requires
            self.wf(),
        ensures
            r == (if idx.as_nat() < self.view().len() {
                Some(&self.view()[idx.as_nat() as int])
            } else {
                None
            }),
    {
        match idx.to_usize() {
            Some(i) => {
                if i < self.indices.len() {
                    Some(&self.indices[i])
                } else {
                    None
                }
            },
            None => None,
        }
    }

    /// The value a free slot at position `p` stores as its next pointer when it ends the free list:
    /// anything but `p` itself, so that the slot never reads as in use.
    fn end_of_list(p: &I::Index) -> (r: I::Index)
        ensures
            r.as_nat() != p.as_nat(),
    {
        let zero = I::Index::zero();
        proof {
            <I::Index as UnsignedNum>::lemma_as_nat(*p, zero);
            <I::Index as UnsignedNum>::lemma_max_nat();
        }
        if p.eq_num(&zero) {
            I::Index::one()
        } else {
            zero
        }
    }

    /// Makes sure the free list is not empty, pushing a new free slot if it is.
    fn alloc_free(&mut self)
        requires
            old(self).wf(),
            old(self).can_create(),
            old(self).view().len() < usize::MAX,
        ensures
            final(self).wf(),
            final(self).free_len() > 0,
            final(self).next_slot() == old(self).next_slot(),
            final(self).spec_len() == old(self).spec_len(),
            final(self).view().len() == (if old(self).free_len() > 0 {
                old(self).view().len()
            } else {
                old(self).view().len() + 1
            }),
            forall|p: int| 0 <= p < old(self).view().len() ==> final(self).view()[p] == old(self).view()[p],
            forall|p: nat| #[trigger] final(self).slot_generation(p) == old(self).slot_generation(p),
            forall|g: I| #[trigger] final(self).spec_contains(g) == old(self).spec_contains(g),
    {
        if self.free_list_size > 0 {
            return;
        }
        let len = self.indices.len();
        let head = match I::Index::from_usize(len) {
            Some(h) => h,
            None => {
                proof {
                    assert(false);
                }
                I::Index::zero()
            },
        };
        let next = Self::end_of_list(&head);
        proof {
            I::lemma_max_generation();
        }
        let slot = I::from_raw_parts(next, I::Generation::zero());
        self.indices.push(slot);
        self.free_list_head = head;
        self.free_list_size = 1;
        self.free = Ghost(Seq::empty().push(len as int));
        proof {
            assert(self.indices@.drop_last() =~= old(self).indices@);
            assert(!slot_in_use(self.indices@, len as int));
            let s = self.indices@;
            assert forall|p: int| 0 <= p < s.len() implies (raw(#[trigger] s[p]) != p <==> self.free@.contains(p)) by {
                if p < len {
                    assert(raw(s[p]) == p);
                } else {
                    assert(self.free@[0] == p);
                }
            }
            assert forall|g: I| #[trigger] self.spec_contains(g) == old(self).spec_contains(g) by {
                if raw(g) == len {
                    I::lemma_parts(g, slot);
                }
            }
        }
    }

    /// Creates and returns the next handle, reusing a free slot or growing the slot table.
    pub fn create(&mut self) -> (h: I)
        requires
            old(self).wf(),
            old(self).can_create(),
            old(self).view().len() < usize::MAX,
        ensures
            Self::create_step(*old(self), *final(self), h),
    {
        self.alloc_free();
        let ghost mid = *self;
        let free_index = self.free_list_head;
        let pos = match free_index.to_usize() {
            Some(p) => p,
            None => {
                proof {
                    assert(self.free@[0] < self.indices@.len());
                    assert(false);
                }
                0
            },
        };
        proof {
            assert(self.free@[0] < self.indices@.len());
        }
        let old_slot = self.indices[pos];
        let next_head = old_slot.index();
        let mut generation = old_slot.generation();
        let max = I::max_generation();
        let zero = I::Index::zero();
        proof {
            I::lemma_parts(old_slot, old_slot);
            I::lemma_max_generation();
            <I::Index as UnsignedNum>::lemma_as_nat(free_index, zero);
        }
        if generation.lt_num(&max) {
            generation = generation.add_one();
        } else if free_index.eq_num(&zero) {
            generation = I::Generation::one();
        } else {
            generation = I::Generation::zero();
        }
        let h = I::from_raw_parts(free_index, generation);
        proof {
            lemma_count_update(self.indices@, pos as int, h);
        }
        self.indices.set(pos, h);
        self.free_list_head = next_head;
        self.free_list_size = self.free_list_size - 1;
        let ghost f0 = self.free@;
        self.free = Ghost(f0.drop_first());
        proof {
            let s = self.indices@;
            let f = self.free@;
            assert(f0[0] == pos);
            assert forall|k: int| 0 <= k < f.len() implies 0 <= #[trigger] f[k] < s.len() by {
                assert(f[k] == f0[k + 1]);
            }
            assert forall|k: int| 0 <= k < f.len() - 1 implies raw(s[#[trigger] f[k]]) == f[k + 1] by {
                assert(f[k] == f0[k + 1]);
                assert(f0[k + 1] != f0[0]);
            }
            if f.len() > 0 {
                assert(raw(old_slot) == f0[1]);
            }
            assert forall|p: int| 0 <= p < s.len() implies (raw(#[trigger] s[p]) != p <==> f.contains(p)) by {
                if p == pos {
                    assert(!f.contains(p)) by {
                        if f.contains(p) {
                            let k = choose|k: int| 0 <= k < f.len() && f[k] == p;
                            assert(f0[k + 1] == f0[0]);
                        }
                    }
                } else {
                    assert(f0.contains(p) ==> f.contains(p)) by {
                        if f0.contains(p) {
                            let k = choose|k: int| 0 <= k < f0.len() && f0[k] == p;
                            assert(k != 0);
                            assert(f[k - 1] == p);
                        }
                    }
                }
            }
            assert(f.no_duplicates()) by {
                assert forall|a: int, b: int| 0 <= a < f.len() && 0 <= b < f.len() && a != b implies f[a] != f[b] by {
                    assert(f[a] == f0[a + 1] && f[b] == f0[b + 1]);
                }
            }
            assert(raw(old_slot) != pos);
            assert forall|g: I| g != h implies (#[trigger] self.spec_contains(g) == old(self).spec_contains(g)) by {
                if raw(g) == pos {
                    I::lemma_parts(g, h);
                    I::lemma_parts(g, old_slot);
                }
            }
            I::lemma_parts(h, old_slot);
            let o = *old(self);
            assert(self.wf());
            assert(raw(h) == o.next_slot());
            assert(mid.slot_generation(pos as nat) == o.slot_generation(pos as nat));
            assert(gen_of(old_slot) == mid.slot_generation(pos as nat));
            assert(gen_of(h) == next_generation::<I>(o.slot_generation(raw(h)), raw(h)));
            assert(!is_null_handle(h));
            assert(!o.spec_contains(h));
            assert(self.spec_contains(h));
            assert(self.spec_len() == o.spec_len() + 1);
        }
        h
    }

    /// Removes handle `i` if it is live, putting its slot at the head of the free list.
    /// Returns whether it was live.
    pub fn remove(&mut self, i: &I) -> (r: bool)
        requires
            old(self).wf(),
        ensures
            r == old(self).spec_contains(*i),
            r ==> Self::remove_step(*old(self), *final(self), *i),
            !r ==> *final(self) == *old(self),
    {
        if !self.contains(i) {
            return false;
        }
        let next_free_index = i.index();
        let pos = match next_free_index.to_usize() {
            Some(p) => p,
            None => {
                proof {
                    assert(false);
                }
                return false;
            },
        };
        let old_slot = self.indices[pos];
        let next = if self.free_list_size > 0 {
            self.free_list_head
        } else {
            Self::end_of_list(&next_free_index)
        };
        proof {
            I::lemma_parts(old_slot, old_slot);
            if self.free_list_size > 0 {
                assert(self.free@.contains(self.free@[0]));
            }
            lemma_free_bound(self.free@, self.indices@.len() as int, pos as int);
        }
        let slot = I::from_raw_parts(next, old_slot.generation());
        proof {
            lemma_count_update(self.indices@, pos as int, slot);
        }
        self.indices.set(pos, slot);
        self.free_list_head = next_free_index;
        self.free_list_size = self.free_list_size + 1;
        let ghost f0 = self.free@;
        self.free = Ghost(Seq::empty().push(pos as int) + f0);
        proof {
            let s = self.indices@;
            let f = self.free@;
            assert(f[0] == pos);
            assert forall|k: int| 0 <= k < f.len() implies 0 <= #[trigger] f[k] < s.len() by {
                if k > 0 {
                    assert(f[k] == f0[k - 1]);
                }
            }
            assert forall|k: int| 0 <= k < f.len() - 1 implies raw(s[#[trigger] f[k]]) == f[k + 1] by {
                if k > 0 {
                    assert(f[k] == f0[k - 1]);
                    assert(f0.contains(f0[k - 1]));
                } else {
                    assert(f[1] == f0[0]);
                }
            }
            assert forall|p: int| 0 <= p < s.len() implies (raw(#[trigger] s[p]) != p <==> f.contains(p)) by {
                if p == pos {
                    assert(f[0] == p);
                } else {
                    if f0.contains(p) {
                        let k = choose|k: int| 0 <= k < f0.len() && f0[k] == p;
                        assert(f[k + 1] == p);
                    }
                    if f.contains(p) {
                        let k = choose|k: int| 0 <= k < f.len() && f[k] == p;
                        assert(k > 0);
                        assert(f0[k - 1] == p);
                    }
                }
            }
            assert(f.no_duplicates()) by {
                assert forall|a: int, b: int| 0 <= a < f.len() && 0 <= b < f.len() && a != b implies f[a] != f[b] by {
                    if a > 0 && b > 0 {
                        assert(f[a] == f0[a - 1] && f[b] == f0[b - 1]);
                    } else if a == 0 {
                        assert(f[b] == f0[b - 1]);
                        assert(f0.contains(f0[b - 1]));
                    } else {
                        assert(f[a] == f0[a - 1]);
                        assert(f0.contains(f0[a - 1]));
                    }
                }
            }
            assert forall|g: I| #[trigger] self.spec_contains(g) == (old(self).spec_contains(g) && g != *i) by {
                if raw(g) == pos {
                    I::lemma_parts(g, slot);
                    I::lemma_parts(g, *i);
                }
            }
            assert(!slot_in_use(s, pos as int));
        }
        true
    }

    /// Clears the allocator: every slot goes on the free list, in ascending order,
    /// keeping its generation.
    pub fn clear(&mut self)
        requires
            old(self).wf(),
        ensures
            final(self).wf(),
            final(self).view().len() == old(self).view().len(),
            forall|p: int| 0 <= p < old(self).view().len() ==> !slot_in_use(final(self).view(), p)
                && gen_of(#[trigger] final(self).view()[p]) == gen_of(old(self).view()[p]),
            forall|g: I| !(#[trigger] final(self).spec_contains(g)),
            final(self).spec_len() == 0,
            old(self).view().len() > 0 ==> final(self).next_slot() == 0,
            Self::ascending_from(*final(self), 0),
    {
        let len = self.indices.len();
        let mut i: usize = 0;
        proof {
            <I::Index as UnsignedNum>::lemma_max_nat();
        }
        while i < len
            invariant
                0 <= i <= len,
                len == self.indices@.len(),
                len == old(self).indices@.len(),
                len <= <I::Index as UnsignedNum>::max_nat() + 1,
                forall|p: int| i <= p < len ==> self.indices@[p] == old(self).indices@[p],
                forall|p: int| 0 <= p < i ==> gen_of(#[trigger] self.indices@[p]) == gen_of(old(self).indices@[p]),
                forall|p: int| 0 <= p < i ==> (raw(#[trigger] self.indices@[p]) == p + 1 || (raw(self.indices@[p]) == 0 && p + 1 > <I::Index as UnsignedNum>::max_nat())),
            decreases len - i,
        {
            let old_slot = self.indices[i];
            let next = match I::Index::from_usize(i + 1) {
                Some(n) => n,
                None => I::Index::zero(),
            };
            proof {
                I::lemma_parts(old_slot, old_slot);
            }
            let slot = I::from_raw_parts(next, old_slot.generation());
            self.indices.set(i, slot);
            i = i + 1;
        }
        self.free_list_head = I::Index::zero();
        self.free_list_size = len;
        self.free = Ghost(Seq::new(len as nat, |k: int| k));
        proof {
            assert forall|p: int| 0 <= p < len implies !slot_in_use(self.indices@, p) by {
            }
            lemma_count_none(self.indices@);
            let s = self.indices@;
            let f = self.free@;
            assert forall|k: int| 0 <= k < f.len() - 1 implies raw(s[#[trigger] f[k]]) == f[k + 1] by {
                assert(f[k] == k);
            }
            assert forall|p: int| 0 <= p < s.len() implies (raw(#[trigger] s[p]) != p <==> f.contains(p)) by {
                assert(f[p] == p);
            }
            assert forall|g: I| !(#[trigger] self.spec_contains(g)) by {
                if raw(g) < len {
                    assert(raw(s[raw(g) as int]) != raw(g));
                }
            }
            assert forall|p: int| 0 <= p < len implies !slot_in_use(s, p) by {
            }
            assert forall|p: int| 0 <= p < s.len() - 1 implies raw(#[trigger] s[p]) == p + 1 by {
                assert(p + 1 <= <I::Index as UnsignedNum>::max_nat());
            }
        }
    }

    /// Retains only the live handles for which `f` returns `true`, removing the others.
    pub fn retain<F: Fn(&I) -> bool>(&mut self, f: F)
        requires
            old(self).wf(),
            forall|h: I| #[trigger] f.requires((&h,)),
        ensures
            final(self).wf(),
            final(self).view().len() == old(self).view().len(),
            final(self).spec_len() == count_in_use(final(self).view()),
            forall|g: I| #[trigger] final(self).spec_contains(g) ==> old(self).spec_contains(g) && f.ensures((&g,), true),
            forall|g: I| old(self).spec_contains(g) && !final(self).spec_contains(g) ==> #[trigger] f.ensures((&g,), false),
    {
        let len = self.indices.len();
        let mut i: usize = 0;
        while i < len
            invariant
                0 <= i <= len,
                len == self.indices@.len(),
                len == old(self).indices@.len(),
                self.wf(),
                forall|h: I| #[trigger] f.requires((&h,)),
                forall|p: int| i <= p < len ==> self.indices@[p] == old(self).indices@[p],
                forall|g: I| #[trigger] self.spec_contains(g) ==> old(self).spec_contains(g),
                forall|g: I| #[trigger] self.spec_contains(g) && raw(g) < i ==> f.ensures((&g,), true),
                forall|g: I| old(self).spec_contains(g) && !self.spec_contains(g) ==> #[trigger] f.ensures((&g,), false),
            decreases len - i,
        {
            let slot = self.indices[i];
            let in_use = match slot.index().to_usize() {
                Some(idx) => idx == i,
                None => false,
            };
            if in_use {
                proof {
                    I::lemma_parts(slot, slot);
                }
                let keep = f(&slot);
                if !keep {
                    let ghost before = *self;
                    self.remove(&slot);
                    proof {
                        assert forall|p: int| i < p < len implies self.indices@[p] == old(self).indices@[p] by {
                            assert(self.indices@[p] == before.indices@[p]);
                        }
                    }
                }
            }
            i = i + 1;
        }
    }

    /// The slot table as `(raw index, generation)` pairs in slot order, free slots included:
    /// the allocator's persisted form.
    pub fn to_slots(&self) -> (r: Vec<(I::Index, I::Generation)>)
        ensures
            r@.len() == self.view().len(),
            forall|p: int| 0 <= p < r@.len() ==> #[trigger] r@[p] == (self.view()[p].spec_index(), self.view()[p].spec_generation()),
            self.wf() ==> parts_valid::<I>(r@),
    {
        let mut out: Vec<(I::Index, I::Generation)> = Vec::new();
        let mut i: usize = 0;
        while i < self.indices.len()
            invariant
                0 <= i <= self.indices@.len(),
                out@.len() == i,
                forall|p: int| 0 <= p < i ==> #[trigger] out@[p] == (self.indices@[p].spec_index(), self.indices@[p].spec_generation()),
            decreases self.indices@.len() - i,
        {
            let slot = &self.indices[i];
            out.push((slot.index(), slot.generation()));
            i = i + 1;
        }
        proof {
            assert forall|p: int| 0 <= p < out@.len() implies (#[trigger] out@[p]).1.as_nat() <= I::spec_max_generation() by {
                I::lemma_parts(self.indices@[p], self.indices@[p]);
            }
        }
        out
    }

    /// Rebuilds an allocator from its persisted slot table of `(raw index, generation)` pairs.
    /// A slot whose index equals its position is in use; every other slot is threaded onto the
    /// free list in ascending order, keeping its generation. Returns `None` where a position does
    /// not fit the index type or a generation exceeds the maximum.
    pub fn from_slots(parts: Vec<(I::Index, I::Generation)>) -> (r: Option<Self>)
        ensures
            r is Some <==> parts_valid::<I>(parts@),
            r matches Some(a) ==> {
                &&& a.wf()
                &&& a.view().len() == parts@.len()
                &&& forall|p: int| 0 <= p < parts@.len() ==> slot_in_use(a.view(), p) == ((#[trigger] parts@[p]).0.as_nat() == p)
                &&& forall|h: I| #[trigger] a.spec_contains(h) == parts_contain(parts@, h)
                &&& a.spec_len() == count_live_parts::<I>(parts@)
            },
    {
        let mut slots: Vec<I> = Vec::new();
        let max = I::max_generation();
        let mut i: usize = 0;
        while i < parts.len()
            invariant
                0 <= i <= parts@.len(),
                slots@.len() == i,
                max.as_nat() == I::spec_max_generation(),
                forall|p: int| 0 <= p < i ==> (#[trigger] slots@[p]).spec_index() == parts@[p].0
                    && slots@[p].spec_generation() == parts@[p].1,
                forall|p: int| 0 <= p < i ==> parts@[p].1.as_nat() <= I::spec_max_generation(),
            decreases parts@.len() - i,
        {
            let (index, generation) = parts[i];
            if max.lt_num(&generation) {
                return None;
            }
            slots.push(I::from_raw_parts(index, generation));
            i = i + 1;
        }
        let r = Self::rebuild(slots);
        proof {
            if r is Some {
                let a = r->0;
                assert forall|h: I| #[trigger] a.spec_contains(h) == parts_contain(parts@, h) by {
                    if raw(h) < slots@.len() {
                        I::lemma_parts(h, slots@[raw(h) as int]);
                    }
                }
                assert forall|p: int| 0 <= p < parts@.len() implies slot_in_use(a.view(), p) == ((#[trigger] parts@[p]).0.as_nat() == p) by {
                    assert(slot_in_use(a.view(), p) == slot_in_use(slots@, p));
                }
                lemma_count_parts(a.view(), parts@);
            }
        }
        r
    }

    /// Threads the slots not in use onto a fresh free list.
    fn rebuild(slots: Vec<I>) -> (r: Option<Self>)
        ensures
            r is Some <==> slots@.len() <= <I::Index as UnsignedNum>::max_nat() + 1,
            r matches Some(a) ==> {
                &&& a.wf()
                &&& a.view().len() == slots@.len()
                &&& forall|p: int| 0 <= p < slots@.len() ==> gen_of(#[trigger] a.view()[p]) == gen_of(slots@[p])
                    && (slot_in_use(a.view(), p) == slot_in_use(slots@, p))
                &&& forall|h: I| #[trigger] a.spec_contains(h) == slots_contain(slots@, h)
            },
    {
        let len = slots.len();
        let fits = match I::Index::from_usize(len) {
            Some(_) => true,
            None => len == 0 || I::Index::from_usize(len - 1).is_some(),
        };
        if !fits {
            return None;
        }
        let mut indices = slots;
        let mut head = I::Index::zero();
        let mut size: usize = 0;
        let ghost mut free: Seq<int> = Seq::empty();
        let mut i: usize = len;
        proof {
            <I::Index as UnsignedNum>::lemma_max_nat();
            assert(indices@.subrange(0, len as int) =~= indices@);
        }
        while i > 0
            invariant
                0 <= i <= len,
                free.len() + count_in_use(indices@) == len - i + count_in_use(indices@.subrange(0, i as int)),
                len == indices@.len(),
                len == slots@.len(),
                len <= <I::Index as UnsignedNum>::max_nat() + 1,
                len <= usize::MAX,
                free.len() == size,
                size <= len - i,
                free.no_duplicates(),
                forall|k: int| 0 <= k < free.len() ==> i <= #[trigger] free[k] < len,
                free.len() > 0 ==> head.as_nat() == free[0],
                forall|k: int| 0 <= k < free.len() - 1 ==> raw(indices@[#[trigger] free[k]]) == free[k + 1],
                forall|p: int| i <= p < len ==> (raw(#[trigger] indices@[p]) != p <==> free.contains(p)),
                forall|p: int| 0 <= p < i ==> #[trigger] indices@[p] == slots@[p],
                forall|p: int| 0 <= p < len ==> gen_of(#[trigger] indices@[p]) == gen_of(slots@[p]),
                forall|p: int| i <= p < len ==> (slot_in_use(indices@, p) == slot_in_use(slots@, p)),
                forall|p: int| i <= p < len && slot_in_use(slots@, p) ==> #[trigger] indices@[p] == slots@[p],
            decreases i,
        {
            i = i - 1;
            proof {
                lemma_count_prefix(indices@, i + 1);
            }
            let slot = indices[i];
            let in_use = match slot.index().to_usize() {
                Some(idx) => idx == i,
                None => false,
            };
            if !in_use {
                let here = match I::Index::from_usize(i) {
                    Some(h) => h,
                    None => {
                        proof {
                            assert(false);
                        }
                        I::Index::zero()
                    },
                };
                let next = if size > 0 {
                    head
                } else {
                    Self::end_of_list(&here)
                };
                proof {
                    I::lemma_parts(slot, slot);
                    if size > 0 {
                        assert(free.contains(free[0]));
                    }
                }
                let fresh = I::from_raw_parts(next, slot.generation());
                proof {
                    lemma_count_update(indices@, i as int, fresh);
                    assert(indices@.update(i as int, fresh).subrange(0, i as int) =~= indices@.subrange(0, i as int));
                }
                indices.set(i, fresh);
                let ghost f0 = free;
                proof {
                    free = Seq::empty().push(i as int) + f0;
                    assert(free[0] == i);
                    assert forall|k: int| 0 <= k < free.len() implies i <= #[trigger] free[k] < len by {
                        if k > 0 {
                            assert(free[k] == f0[k - 1]);
                        }
                    }
                    assert forall|k: int| 0 <= k < free.len() - 1 implies raw(indices@[#[trigger] free[k]]) == free[k + 1] by {
                        if k > 0 {
                            assert(free[k] == f0[k - 1]);
                        } else {
                            assert(free[1] == f0[0]);
                        }
                    }
                    assert forall|p: int| i <= p < len implies (raw(#[trigger] indices@[p]) != p <==> free.contains(p)) by {
                        if p == i {
                            assert(free[0] == p);
                        } else {
                            if f0.contains(p) {
                                let k = choose|k: int| 0 <= k < f0.len() && f0[k] == p;
                                assert(free[k + 1] == p);
                            }
                            if free.contains(p) {
                                let k = choose|k: int| 0 <= k < free.len() && free[k] == p;
                                assert(k > 0);
                                assert(f0[k - 1] == p);
                            }
                        }
                    }
                    assert(free.no_duplicates()) by {
                        assert forall|a: int, b: int| 0 <= a < free.len() && 0 <= b < free.len() && a != b implies free[a] != free[b] by {
                            if a > 0 {
                                assert(free[a] == f0[a - 1]);
                            }
                            if b > 0 {
                                assert(free[b] == f0[b - 1]);
                            }
                        }
                    }
                }
                head = here;
                size = size + 1;
            } else {
                proof {
                    assert forall|p: int| i <= p < len implies (raw(#[trigger] indices@[p]) != p <==> free.contains(p)) by {
                        if p == i {
                            assert(!free.contains(p)) by {
                                if free.contains(p) {
                                    let k = choose|k: int| 0 <= k < free.len() && free[k] == p;
                                }
                            }
                        }
                    }
                }
            }
        }
        proof {
            assert(indices@.subrange(0, 0) =~= Seq::<I>::empty());
        }
        let a = GenIndexAllocator {
            indices,
            free_list_head: head,
            free_list_size: size,
            free: Ghost(free),
        };
        proof {
            assert forall|h: I| #[trigger] a.spec_contains(h) == slots_contain(slots@, h) by {
                if raw(h) < len {
                    let p = raw(h) as int;
                    if slot_in_use(slots@, p) {
                        assert(a.indices@[p] == slots@[p]);
                    } else {
                        assert(!slot_in_use(a.indices@, p));
                        if a.indices@[p] == h {
                            assert(false);
                        }
                        if slots@[p] == h {
                            assert(false);
                        }
                    }
                }
            }
        }
        Some(a)
    }

    /// No ABA: once a live handle `h` is removed it is no longer live, and the `create` that
    /// next reuses its slot hands out a handle with a different generation, so `h` stays dead.
    pub proof fn lemma_no_aba(a0: Self, a1: Self, a2: Self, h: I, h2: I)
        requires
            I::spec_max_generation() >= 2,
            a0.spec_contains(h),
            Self::remove_step(a0, a1, h),
            Self::create_step(a1, a2, h2),
        ensures
            !a1.spec_contains(h),
            raw(h2) == raw(h),
            gen_of(h2) != gen_of(h),
            !a2.spec_contains(h),
    {
        I::lemma_parts(h, h2);
        I::lemma_parts(h, h);
    }

    /// A handle that is not live stays dead through any run of `create` and `remove` calls,
    /// as long as no `create` in the run hands it out again.
    pub proof fn lemma_stays_dead(states: Seq<Self>, handles: Seq<I>, h: I)
        requires
            states.len() == handles.len() + 1,
            forall|k: int| 0 <= k < handles.len() ==> Self::create_step(states[k], states[k + 1], #[trigger] handles[k])
                || Self::remove_step(states[k], states[k + 1], handles[k])
                || states[k + 1] == states[k],
            forall|k: int| 0 <= k < handles.len() && Self::create_step(states[k], states[k + 1], #[trigger] handles[k]) ==> handles[k] != h,
            !states[0].spec_contains(h),
        ensures
            forall|k: int| 0 <= k < states.len() ==> !(#[trigger] states[k]).spec_contains(h),
        decreases handles.len(),
    {
        if handles.len() > 0 {
            let n = handles.len() - 1;
            Self::lemma_stays_dead(states.drop_last(), handles.drop_last(), h);
            assert(!states[n].spec_contains(h)) by {
                assert(states.drop_last()[n as int] == states[n as int]);
            }
            assert forall|k: int| 0 <= k < states.len() implies !(#[trigger] states[k]).spec_contains(h) by {
                if k < states.len() - 1 {
                    assert(states.drop_last()[k] == states[k]);
                } else {
                    let m = n as int;
                    if Self::create_step(states[m], states[m + 1], handles[m]) {
                        assert(handles[m] != h);
                    }
                }
            }
        }
    }

    /// Slot reuse: on an empty allocator, create, remove, create again reuses raw index 0
    /// with a strictly greater generation.
    pub proof fn lemma_slot_reuse(a0: Self, a1: Self, a2: Self, a3: Self, h1: I, h2: I)
        requires
            I::spec_max_generation() >= 2,
            a0.wf(),
            a0.view().len() == 0,
            Self::create_step(a0, a1, h1),
            Self::remove_step(a1, a2, h1),
            Self::create_step(a2, a3, h2),
        ensures
            raw(h1) == 0,
            raw(h2) == 0,
            gen_of(h2) > gen_of(h1),
    {
    }

    /// Persisting and loading round-trips: the loaded allocator `b` has exactly the live handles
    /// of the persisted allocator `a`.
    pub proof fn lemma_slots_round_trip(a: Self, parts: Seq<(I::Index, I::Generation)>, b: Self)
        requires
            a.wf(),
            parts.len() == a.view().len(),
            forall|p: int| 0 <= p < parts.len() ==> #[trigger] parts[p] == (a.view()[p].spec_index(), a.view()[p].spec_generation()),
            forall|h: I| #[trigger] b.spec_contains(h) == parts_contain(parts, h),
            b.spec_len() == count_live_parts::<I>(parts),
        ensures
            parts_valid::<I>(parts),
            forall|h: I| #[trigger] b.spec_contains(h) == a.spec_contains(h),
            b.spec_len() == a.spec_len(),
    {
        assert forall|p: int| 0 <= p < a.view().len() implies slot_in_use(a.view(), p) == ((#[trigger] parts[p]).0.as_nat() == p) by {
        }
        lemma_count_parts(a.view(), parts);
        assert forall|p: int| 0 <= p < parts.len() implies (#[trigger] parts[p]).1.as_nat() <= I::spec_max_generation() by {
            I::lemma_parts(a.view()[p], a.view()[p]);
        }
        assert forall|h: I| #[trigger] b.spec_contains(h) == a.spec_contains(h) by {
            if raw(h) < parts.len() {
                I::lemma_parts(h, a.view()[raw(h) as int]);
            }
        }
    }

    /// Returns the slot table.
    pub fn iter(&self) -> (r: &[I])
        ensures
            r@ == self.view(),
    {
        self.indices.as_slice()
    }
}

impl<I: GenIndex> Default for GenIndexAllocator<I> {
    fn default() -> (r: Self)
        ensures
            r.wf(),
            r.view() == Seq::<I>::empty(),
    {
        Self::new()
    }
}

} // verus!
