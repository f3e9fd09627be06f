//! Cons lists: nested pairs `(head, (next, (..., ())))` used as heterogeneous lists.

use std::marker::PhantomData;
use vstd::prelude::*;

verus! {

/// Appending a cons list to this one.
pub trait Append<RHS> {
    /// The list with `RHS` appended.
    type Output;

    /// Appends `rhs` after the last element of this list.
    fn append(self, rhs: RHS) -> Self::Output;
}

impl<RHS> Append<RHS> for () {
    type Output = RHS;

    fn append(self, rhs: RHS) -> RHS {
        rhs
    }
}

impl<H, Tail: Append<RHS>, RHS> Append<RHS> for (H, Tail) {
    type Output = (H, <Tail as Append<RHS>>::Output);

    fn append(self, rhs: RHS) -> Self::Output {
        (self.0, self.1.append(rhs))
    }
}

/// Reversing a cons list.
pub trait IntoRev {
    /// The reversed list.
    type Output;

    /// Returns the list in reverse order.
    fn rev(self) -> Self::Output;
}

impl IntoRev for () {
    type Output = ();

    fn rev(self) -> () {
        self
    }
}

impl<T, Tail> IntoRev for (T, Tail) where Tail: IntoRev, <Tail as IntoRev>::Output: Append<(T, ())> {
    type Output = <<Tail as IntoRev>::Output as Append<(T, ())>>::Output;

    fn rev(self) -> Self::Output {
        self.1.rev().append((self.0, ()))
    }
}

/// Index of the head of a cons list.
pub struct Here {
    _priv: (),
}

/// Index of an element in the tail of a cons list, at index `T` of the tail.
pub struct There<T> {
    _marker: PhantomData<T>,
}

/// Getting the element of type `T` at index `I` of a cons list.
pub trait ConsGetter<T, I> {
    /// Returns the element.
    fn get(&self) -> &T;

    /// Returns the element mutably.
    fn get_mut(&mut self) -> &mut T;
}

impl<T, Tail> ConsGetter<T, Here> for (T, Tail) {
    fn get(&self) -> &T {
        &self.0
    }

    fn get_mut(&mut self) -> &mut T {
        &mut self.0
    }
}

impl<Head, Tail, FromTail, TailIndex> ConsGetter<FromTail, There<TailIndex>> for (Head, Tail) where
    Tail: ConsGetter<FromTail, TailIndex>,
 {
    fn get(&self) -> &FromTail {
        self.1.get()
    }

    fn get_mut(&mut self) -> &mut FromTail {
        self.1.get_mut()
    }
}

} // verus!
