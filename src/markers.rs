//! Unsigned integer types that can serve as raw slot indices and generations.

use vstd::prelude::*;

verus! {

/// An unsigned integer type that converts to and from `usize` where the value fits.
pub trait UnsignedNum: Copy + Sized + core::fmt::Debug + Eq + core::hash::Hash {
    /// The mathematical value of this number.
    spec fn as_nat(self) -> nat;

    /// The largest value of this type.
    spec fn max_nat() -> nat;

    /// Values are determined by their number, and lie in `0..=max_nat()`.
    proof fn lemma_as_nat(a: Self, b: Self)
        ensures
            a.as_nat() <= Self::max_nat(),
            (a.as_nat() == b.as_nat()) == (a == b);

    /// The largest value is at least one.
    proof fn lemma_max_nat()
        ensures
            Self::max_nat() >= 1;

    /// Returns zero.
    fn zero() -> (r: Self)
        ensures
            r.as_nat() == 0;

    /// Returns one.
    fn one() -> (r: Self)
        ensures
            r.as_nat() == 1;

    /// Returns the largest value of this type.
    fn max_value() -> (r: Self)
        ensures
            r.as_nat() == Self::max_nat();

    /// Converts to `usize`, or `None` where the value does not fit.
    fn to_usize(&self) -> (r: Option<usize>)
        ensures
            r == (if self.as_nat() <= usize::MAX { Some(self.as_nat() as usize) } else { None::<usize> }),;

    /// Converts from `usize`, or `None` where the value does not fit.
    fn from_usize(u: usize) -> (r: Option<Self>)
        ensures
            r is Some <==> u <= Self::max_nat(),
            r is Some ==> r->0.as_nat() == u;

    /// Whether two numbers are equal.
    fn eq_num(&self, other: &Self) -> (r: bool)
        ensures
            r == (*self == *other);

    /// Whether this number is less than another.
    fn lt_num(&self, other: &Self) -> (r: bool)
        ensures
            r == (self.as_nat() < other.as_nat());

    /// Adds one; the value must be below the maximum.
    fn add_one(&self) -> (r: Self)
        requires
            self.as_nat() < Self::max_nat(),
        ensures
            r.as_nat() == self.as_nat() + 1;
}

impl UnsignedNum for u8 {
    open spec fn as_nat(self) -> nat {
        self as nat
    }

    open spec fn max_nat() -> nat {
        u8::MAX as nat
    }

    proof fn lemma_as_nat(a: Self, b: Self) {
    }

    proof fn lemma_max_nat() {
    }

    fn zero() -> (r: Self) {
        0
    }

    fn one() -> (r: Self) {
        1
    }

    fn max_value() -> (r: Self) {
        u8::MAX
    }

    fn to_usize(&self) -> (r: Option<usize>) {
        if (*self as u64) <= (usize::MAX as u64) {
            Some(*self as usize)
        } else {
            None
        }
    }

    fn from_usize(u: usize) -> (r: Option<Self>) {
        if (u as u64) <= (u8::MAX as u64) {
            Some(u as u8)
        } else {
            None
        }
    }

    fn eq_num(&self, other: &Self) -> (r: bool) {
        *self == *other
    }

    fn lt_num(&self, other: &Self) -> (r: bool) {
        *self < *other
    }

    fn add_one(&self) -> (r: Self) {
        *self + 1
    }
}


impl UnsignedNum for u16 {
    open spec fn as_nat(self) -> nat {
        self as nat
    }

    open spec fn max_nat() -> nat {
        u16::MAX as nat
    }

    proof fn lemma_as_nat(a: Self, b: Self) {
    }

    proof fn lemma_max_nat() {
    }

    fn zero() -> (r: Self) {
        0
    }

    fn one() -> (r: Self) {
        1
    }

    fn max_value() -> (r: Self) {
        u16::MAX
    }

    fn to_usize(&self) -> (r: Option<usize>) {
        if (*self as u64) <= (usize::MAX as u64) {
            Some(*self as usize)
        } else {
            None
        }
    }

    fn from_usize(u: usize) -> (r: Option<Self>) {
        if (u as u64) <= (u16::MAX as u64) {
            Some(u as u16)
        } else {
            None
        }
    }

    fn eq_num(&self, other: &Self) -> (r: bool) {
        *self == *other
    }

    fn lt_num(&self, other: &Self) -> (r: bool) {
        *self < *other
    }

    fn add_one(&self) -> (r: Self) {
        *self + 1
    }
}


impl UnsignedNum for u32 {
    open spec fn as_nat(self) -> nat {
        self as nat
    }

    open spec fn max_nat() -> nat {
        u32::MAX as nat
    }

    proof fn lemma_as_nat(a: Self, b: Self) {
    }

    proof fn lemma_max_nat() {
    }

    fn zero() -> (r: Self) {
        0
    }

    fn one() -> (r: Self) {
        1
    }

    fn max_value() -> (r: Self) {
        u32::MAX
    }

    fn to_usize(&self) -> (r: Option<usize>) {
        if (*self as u64) <= (usize::MAX as u64) {
            Some(*self as usize)
        } else {
            None
        }
    }

    fn from_usize(u: usize) -> (r: Option<Self>) {
        if (u as u64) <= (u32::MAX as u64) {
            Some(u as u32)
        } else {
            None
        }
    }

    fn eq_num(&self, other: &Self) -> (r: bool) {
        *self == *other
    }

    fn lt_num(&self, other: &Self) -> (r: bool) {
        *self < *other
    }

    fn add_one(&self) -> (r: Self) {
        *self + 1
    }
}


impl UnsignedNum for u64 {
    open spec fn as_nat(self) -> nat {
        self as nat
    }

    open spec fn max_nat() -> nat {
        u64::MAX as nat
    }

    proof fn lemma_as_nat(a: Self, b: Self) {
    }

    proof fn lemma_max_nat() {
    }

    fn zero() -> (r: Self) {
        0
    }

    fn one() -> (r: Self) {
        1
    }

    fn max_value() -> (r: Self) {
        u64::MAX
    }

    fn to_usize(&self) -> (r: Option<usize>) {
        if (*self as u64) <= (usize::MAX as u64) {
            Some(*self as usize)
        } else {
            None
        }
    }

    fn from_usize(u: usize) -> (r: Option<Self>) {
        if (u as u64) <= (u64::MAX as u64) {
            Some(u as u64)
        } else {
            None
        }
    }

    fn eq_num(&self, other: &Self) -> (r: bool) {
        *self == *other
    }

    fn lt_num(&self, other: &Self) -> (r: bool) {
        *self < *other
    }

    fn add_one(&self) -> (r: Self) {
        *self + 1
    }
}


impl UnsignedNum for usize {
    open spec fn as_nat(self) -> nat {
        self as nat
    }

    open spec fn max_nat() -> nat {
        usize::MAX as nat
    }

    proof fn lemma_as_nat(a: Self, b: Self) {
    }

    proof fn lemma_max_nat() {
    }

    fn zero() -> (r: Self) {
        0
    }

    fn one() -> (r: Self) {
        1
    }

    fn max_value() -> (r: Self) {
        usize::MAX
    }

    fn to_usize(&self) -> (r: Option<usize>) {
        if (*self as u64) <= (usize::MAX as u64) {
            Some(*self as usize)
        } else {
            None
        }
    }

    fn from_usize(u: usize) -> (r: Option<Self>) {
        if (u as u64) <= (usize::MAX as u64) {
            Some(u as usize)
        } else {
            None
        }
    }

    fn eq_num(&self, other: &Self) -> (r: bool) {
        *self == *other
    }

    fn lt_num(&self, other: &Self) -> (r: bool) {
        *self < *other
    }

    fn add_one(&self) -> (r: Self) {
        *self + 1
    }
}

} // verus!
