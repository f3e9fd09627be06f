//! Generational indices: a raw slot index paired with a generation counter.

use crate::markers::UnsignedNum;
use std::marker::PhantomData;
use vstd::prelude::*;

verus! {

/// An index with a generation, used as a weak reference to a slot of an array.
/// The generation lets a slot be reused without the ABA problem: a handle to an
/// earlier occupant of the slot compares unequal to the handle of the current one.
pub trait GenIndex: Copy + Sized + core::fmt::Debug {
    /// The type of the raw index.
    type Index: UnsignedNum;

    /// The type of the generation.
    type Generation: UnsignedNum;

    /// The raw index part.
    spec fn spec_index(self) -> Self::Index;

    /// The generation part.
    spec fn spec_generation(self) -> Self::Generation;

    /// The largest generation this handle type can hold.
    spec fn spec_max_generation() -> nat;

    /// The maximum generation is at least one and fits in the generation type.
    proof fn lemma_max_generation()
        ensures
            1 <= Self::spec_max_generation() <= <Self::Generation as UnsignedNum>::max_nat();

    /// A handle is determined by its two parts, and its generation never exceeds the maximum.
    proof fn lemma_parts(a: Self, b: Self)
        ensures
            a.spec_generation().as_nat() <= Self::spec_max_generation(),
            (a == b) == (a.spec_index() == b.spec_index() && a.spec_generation()
                == b.spec_generation());

    /// Returns the maximum generation value.
    fn max_generation() -> (r: Self::Generation)
        ensures
            r.as_nat() == Self::spec_max_generation();

    /// Creates a handle from its raw parts.
    fn from_raw_parts(index: Self::Index, generation: Self::Generation) -> (r: Self)
        requires
            generation.as_nat() <= Self::spec_max_generation(),
        ensures
            r.spec_index() == index,
            r.spec_generation() == generation;

    /// Returns the raw index of this handle.
    fn index(&self) -> (r: Self::Index)
        ensures
            r == self.spec_index();

    /// Returns the generation of this handle.
    fn generation(&self) -> (r: Self::Generation)
        ensures
            r == self.spec_generation();

    /// Returns the null handle, whose index and generation are both zero.
    fn null() -> (r: Self)
        ensures
            r.spec_index().as_nat() == 0,
            r.spec_generation().as_nat() == 0,
    {
        proof {
            Self::lemma_max_generation();
        }
        Self::from_raw_parts(Self::Index::zero(), Self::Generation::zero())
    }

    /// Whether this handle is the null handle.
    fn is_null(&self) -> (r: bool)
        ensures
            r == (self.spec_index().as_nat() == 0 && self.spec_generation().as_nat() == 0),
    {
        let zi = Self::Index::zero();
        let zg = Self::Generation::zero();
        proof {
            Self::Index::lemma_as_nat(self.spec_index(), zi);
            Self::Generation::lemma_as_nat(self.spec_generation(), zg);
        }
        self.index().eq_num(&zi) && self.generation().eq_num(&zg)
    }

    /// Whether two handles are equal in both parts.
    fn same_as(&self, other: &Self) -> (r: bool)
        ensures
            r == (*self == *other),
    {
        proof {
            Self::lemma_parts(*self, *other);
        }
        self.index().eq_num(&other.index()) && self.generation().eq_num(&other.generation())
    }
}

/// Whether a handle is the null handle `(0, 0)`.
pub open spec fn is_null_handle<I: GenIndex>(h: I) -> bool {
    h.spec_index().as_nat() == 0 && h.spec_generation().as_nat() == 0
}

/// The raw index of a handle, as a number.
pub open spec fn raw<I: GenIndex>(h: I) -> nat {
    h.spec_index().as_nat()
}

/// The generation of a handle, as a number.
pub open spec fn gen_of<I: GenIndex>(h: I) -> nat {
    h.spec_generation().as_nat()
}

/// A standard [GenIndex] with separate index and generation fields.
#[derive(Clone, Copy, Debug, Hash, PartialEq, Eq)]
pub struct Index<I: UnsignedNum = usize, G: UnsignedNum = usize>(I, G);

impl<I: UnsignedNum, G: UnsignedNum> GenIndex for Index<I, G> {
    type Index = I;

    type Generation = G;

    closed spec fn spec_index(self) -> I {
        self.0
    }

    closed spec fn spec_generation(self) -> G {
        self.1
    }

    open spec fn spec_max_generation() -> nat {
        G::max_nat()
    }

    proof fn lemma_max_generation() {
        G::lemma_max_nat();
        assert(Self::spec_max_generation() == G::max_nat());
    }

    proof fn lemma_parts(a: Self, b: Self) {
        G::lemma_as_nat(a.1, b.1);
        assert(a.spec_generation() == a.1);
        assert(a.1.as_nat() <= G::max_nat());
        assert(Self::spec_max_generation() == G::max_nat());
    }

    fn max_generation() -> (r: G) {
        G::max_value()
    }

    fn from_raw_parts(index: I, generation: G) -> (r: Self) {
        Index(index, generation)
    }

    fn index(&self) -> (r: I) {
        self.0
    }

    fn generation(&self) -> (r: G) {
        self.1
    }
}

impl<I: UnsignedNum, G: UnsignedNum> From<Index<I, G>> for (I, G) {
    fn from(idx: Index<I, G>) -> (I, G) {
        (idx.0, idx.1)
    }
}

impl<I: UnsignedNum, G: UnsignedNum> vstd::std_specs::convert::FromSpecImpl<Index<I, G>> for (I, G) {
    open spec fn obeys_from_spec() -> bool {
        true
    }

    open spec fn from_spec(idx: Index<I, G>) -> (I, G) {
        (idx.spec_index(), idx.spec_generation())
    }
}

impl<I: UnsignedNum, G: UnsignedNum> From<(I, G)> for Index<I, G> {
    fn from(parts: (I, G)) -> Index<I, G> {
        Index(parts.0, parts.1)
    }
}

impl<I: UnsignedNum, G: UnsignedNum> vstd::std_specs::convert::FromSpecImpl<(I, G)> for Index<I, G> {
    open spec fn obeys_from_spec() -> bool {
        true
    }

    closed spec fn from_spec(parts: (I, G)) -> Index<I, G> {
        Index(parts.0, parts.1)
    }
}

/// A [GenIndex] packed into a `u64`: the index in the low 32 bits, the generation in the high 32 bits.
#[derive(Clone, Copy, Debug, Default, Hash, PartialEq, Eq)]
pub struct IndexU64(u64);

impl GenIndex for IndexU64 {
    type Index = u32;

    type Generation = u32;

    closed spec fn spec_index(self) -> u32 {
        (self.0 & 0xffff_ffffu64) as u32
    }

    closed spec fn spec_generation(self) -> u32 {
        (self.0 >> 32u64) as u32
    }

    open spec fn spec_max_generation() -> nat {
        u32::MAX as nat
    }

    proof fn lemma_max_generation() {
        assert(<u32 as UnsignedNum>::max_nat() == u32::MAX as nat);
        assert(Self::spec_max_generation() == u32::MAX as nat);
    }

    proof fn lemma_parts(a: Self, b: Self) {
        let x = a.0;
        let y = b.0;
        assert(((x & 0xffff_ffffu64) == (y & 0xffff_ffffu64) && (x >> 32u64) == (y >> 32u64))
            ==> x == y) by (bit_vector);
        assert((x >> 32u64) <= 0xffff_ffffu64) by (bit_vector);
        assert((y >> 32u64) <= 0xffff_ffffu64) by (bit_vector);
        assert((x & 0xffff_ffffu64) <= 0xffff_ffffu64) by (bit_vector);
        assert((y & 0xffff_ffffu64) <= 0xffff_ffffu64) by (bit_vector);
        assert(Self::spec_max_generation() == u32::MAX as nat);
    }

    fn max_generation() -> (r: u32) {
        u32::MAX
    }

    fn from_raw_parts(index: u32, generation: u32) -> (r: Self) {
        let i = index as u64;
        let g = generation as u64;
        let v = i | (g << 32u64);
        assert((i | (g << 32u64)) & 0xffff_ffffu64 == i) by (bit_vector)
            requires
                i <= 0xffff_ffffu64,
        ;
        assert((i | (g << 32u64)) >> 32u64 == g) by (bit_vector)
            requires
                i <= 0xffff_ffffu64,
                g <= 0xffff_ffffu64,
        ;
        IndexU64(v)
    }

    fn index(&self) -> (r: u32) {
        let x = self.0;
        let v = x & 0xffff_ffffu64;
        assert(x & 0xffff_ffffu64 <= 0xffff_ffffu64) by (bit_vector);
        v as u32
    }

    fn generation(&self) -> (r: u32) {
        let x = self.0;
        let v = x >> 32u64;
        assert(x >> 32u64 <= 0xffff_ffffu64) by (bit_vector);
        v as u32
    }
}

/// A [GenIndex] tagged with the type `T` it refers to, so that handles of different types
/// cannot be mixed up.
#[derive(Debug)]
pub struct TypedIndex<T, I: GenIndex = IndexU64> {
    index: I,
    marker: PhantomData<T>,
}

impl<T, I: GenIndex> Clone for TypedIndex<T, I> {
    fn clone(&self) -> (r: Self)
        ensures
            r == *self,
    {
        *self
    }
}

impl<T, I: GenIndex> Copy for TypedIndex<T, I> {
}

impl<T, I: GenIndex> TypedIndex<T, I> {
    /// The wrapped handle.
    pub closed spec fn spec_inner(self) -> I {
        self.index
    }

    /// Tags `index`.
    pub fn from_index(index: I) -> (r: Self)
        ensures
            r.spec_inner() == index,
    {
        TypedIndex { index, marker: PhantomData }
    }

    /// Returns the wrapped handle.
    pub fn to_index(&self) -> (r: I)
        ensures
            r == self.spec_inner(),
    {
        self.index
    }
}

impl<T: core::fmt::Debug, I: GenIndex> GenIndex for TypedIndex<T, I> {
    type Index = I::Index;

    type Generation = I::Generation;

    closed spec fn spec_index(self) -> I::Index {
        self.index.spec_index()
    }

    closed spec fn spec_generation(self) -> I::Generation {
        self.index.spec_generation()
    }

    closed spec fn spec_max_generation() -> nat {
        I::spec_max_generation()
    }

    proof fn lemma_max_generation() {
        I::lemma_max_generation();
        assert(Self::spec_max_generation() == I::spec_max_generation());
    }

    proof fn lemma_parts(a: Self, b: Self) {
        I::lemma_parts(a.index, b.index);
        assert(a.marker == b.marker);
        assert(Self::spec_max_generation() == I::spec_max_generation());
        assert(a.spec_generation() == a.index.spec_generation());
    }

    fn max_generation() -> (r: I::Generation) {
        I::max_generation()
    }

    fn from_raw_parts(index: I::Index, generation: I::Generation) -> (r: Self) {
        assert(Self::spec_max_generation() == I::spec_max_generation());
        TypedIndex { index: I::from_raw_parts(index, generation), marker: PhantomData }
    }

    fn index(&self) -> (r: I::Index) {
        self.index.index()
    }

    fn generation(&self) -> (r: I::Generation) {
        self.index.generation()
    }
}

} // verus!
