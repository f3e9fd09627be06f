//! Associative container traits shared by the collections.

use vstd::prelude::*;

verus! {

/// An immutable associative array.
pub trait AssocMap {
    /// Key type.
    type Key;

    /// Value type.
    type Value;

    /// The container's invariant.
    spec fn map_wf(&self) -> bool;

    /// The value stored at `key`, if any.
    spec fn lookup(&self, key: Self::Key) -> Option<Self::Value>;

    /// The number of entries.
    spec fn map_len(&self) -> nat;

    /// Returns a reference to the value at `key`.
    fn get(&self, key: &Self::Key) -> (r: Option<&Self::Value>)
        requires
            self.map_wf(),
        ensures
            match r {
                Some(v) => self.lookup(*key) == Some(*v),
                None => self.lookup(*key) is None,
            };

    /// Returns the number of entries.
    fn len(&self) -> (r: usize)
        requires
            self.map_wf(),
        ensures
            r == self.map_len();

    /// Returns `true` if the map holds a value at `key`.
    fn contains_key(&self, key: &Self::Key) -> (r: bool)
        requires
            self.map_wf(),
        ensures
            r == self.lookup(*key) is Some,
    {
        self.get(key).is_some()
    }

    /// Returns `true` if the map holds no entries.
    fn is_empty(&self) -> (r: bool)
        requires
            self.map_wf(),
        ensures
            r == (self.map_len() == 0),
    {
        self.len() == 0
    }
}

/// A mutable associative array.
pub trait MapMut: AssocMap + Sized {
    /// Whether `insert` can store a value at `key` within the machine's limits.
    spec fn can_insert(&self, key: Self::Key) -> bool;

    /// Returns an empty map.
    fn empty() -> (r: Self)
        ensures
            r.map_wf(),
            r.map_len() == 0,
            forall|k: Self::Key| #[trigger] r.lookup(k) is None;

    /// Removes every entry.
    fn clear(&mut self)
        requires
            old(self).map_wf(),
        ensures
            final(self).map_wf(),
            forall|k: Self::Key| #[trigger] final(self).lookup(k) is None;

    /// Returns a mutable reference to the value at `key`.
    fn get_mut(&mut self, key: &Self::Key) -> (r: Option<&mut Self::Value>)
        requires
            old(self).map_wf(),
        ensures
            final(self).map_wf(),
            forall|k: Self::Key| k != *key ==> #[trigger] final(self).lookup(k) == old(self).lookup(k),
            match r {
                Some(v) => {
                    &&& old(self).lookup(*key) == Some(*v)
                    &&& final(self).lookup(*key) == Some(*final(v))
                },
                None => old(self).lookup(*key) is None && final(self).lookup(*key) is None,
            };

    /// Stores `value` at `key` and returns the value that was there before.
    fn insert(&mut self, key: Self::Key, value: Self::Value) -> (r: Option<Self::Value>)
        requires
            old(self).map_wf(),
            old(self).can_insert(key),
        ensures
            final(self).map_wf(),
            r == old(self).lookup(key),
            final(self).lookup(key) == Some(value),
            final(self).map_len() == old(self).map_len() + (if r is None { 1int } else { 0int }),
            forall|k: Self::Key| k != key ==> #[trigger] final(self).lookup(k) == old(self).lookup(k);

    /// Removes and returns the value at `key`.
    fn remove(&mut self, key: &Self::Key) -> (r: Option<Self::Value>)
        requires
            old(self).map_wf(),
        ensures
            final(self).map_wf(),
            r == old(self).lookup(*key),
            final(self).lookup(*key) is None,
            final(self).map_len() + (if r is Some { 1int } else { 0int }) == old(self).map_len(),
            forall|k: Self::Key| k != *key ==> #[trigger] final(self).lookup(k) == old(self).lookup(k);
}

/// A map whose entries can be listed.
pub trait IterableMap: AssocMap {
    /// The keys in the map's iteration order.
    spec fn key_order(&self) -> Seq<Self::Key>;

    /// Returns every entry once, in the map's iteration order.
    fn entries(&self) -> (r: Vec<(Self::Key, &Self::Value)>)
        requires
            self.map_wf(),
        ensures
            r@.len() == self.key_order().len(),
            forall|n: int| 0 <= n < r@.len() ==> (#[trigger] r@[n]).0 == self.key_order()[n],
            forall|n: int| 0 <= n < r@.len() ==> self.lookup((#[trigger] r@[n]).0) == Some(*r@[n].1),
            forall|n: int, m: int| 0 <= n < m < r@.len() ==> (#[trigger] r@[n]).0 != (#[trigger] r@[m]).0,
            forall|k: Self::Key| (#[trigger] self.lookup(k)) is Some ==> exists|n: int| 0 <= n < r@.len() && (#[trigger] r@[n]).0 == k;
}

/// A map whose values can be changed one iteration position at a time.
pub trait IterableMapMut: IterableMap + Sized {
    /// The number of positions that iteration visits.
    spec fn span(&self) -> nat;

    /// The key at iteration position `n`, where that position holds an entry.
    spec fn key_at(&self, n: nat) -> Option<Self::Key>;

    /// Returns the number of positions that iteration visits.
    fn span_len(&self) -> (r: usize)
        requires
            self.map_wf(),
        ensures
            r == self.span();

    /// Returns a mutable reference to the value at iteration position `n`.
    fn value_at_mut(&mut self, n: usize) -> (r: Option<&mut Self::Value>)
        requires
            old(self).map_wf(),
        ensures
            final(self).map_wf(),
            final(self).span() == old(self).span(),
            forall|m: nat| #[trigger] final(self).key_at(m) == old(self).key_at(m),
            match r {
                Some(v) => {
                    &&& old(self).key_at(n as nat) is Some
                    &&& old(self).lookup(old(self).key_at(n as nat)->0) == Some(*v)
                    &&& final(self).lookup(old(self).key_at(n as nat)->0) == Some(*final(v))
                    &&& forall|k: Self::Key| k != old(self).key_at(n as nat)->0 ==> #[trigger] final(self).lookup(k) == old(self).lookup(k)
                },
                None => {
                    &&& old(self).key_at(n as nat) is None
                    &&& forall|k: Self::Key| #[trigger] final(self).lookup(k) == old(self).lookup(k)
                },
            };
}

/// An arena: a map that mints the key of each value it stores.
pub trait Arena: AssocMap + Sized {
    /// Whether `insert` can mint another key within the key type's range.
    spec fn can_mint(&self) -> bool;

    /// Removes every value.
    fn clear(&mut self)
        requires
            old(self).map_wf(),
        ensures
            final(self).map_wf(),
            forall|k: Self::Key| #[trigger] final(self).lookup(k) is None;

    /// Returns a mutable reference to the value at `key`.
    fn get_mut(&mut self, key: &Self::Key) -> (r: Option<&mut Self::Value>)
        requires
            old(self).map_wf(),
        ensures
            final(self).map_wf(),
            forall|k: Self::Key| k != *key ==> #[trigger] final(self).lookup(k) == old(self).lookup(k),
            match r {
                Some(v) => {
                    &&& old(self).lookup(*key) == Some(*v)
                    &&& final(self).lookup(*key) == Some(*final(v))
                },
                None => old(self).lookup(*key) is None && final(self).lookup(*key) is None,
            };

    /// Stores `value` under a new key and returns the key.
    fn insert(&mut self, value: Self::Value) -> (k: Self::Key)
        requires
            old(self).map_wf(),
            old(self).can_mint(),
        ensures
            final(self).map_wf(),
            old(self).lookup(k) is None,
            final(self).lookup(k) == Some(value),
            forall|j: Self::Key| j != k ==> #[trigger] final(self).lookup(j) == old(self).lookup(j);

    /// Removes and returns the value at `key`.
    fn remove(&mut self, key: &Self::Key) -> (r: Option<Self::Value>)
        requires
            old(self).map_wf(),
        ensures
            final(self).map_wf(),
            r == old(self).lookup(*key),
            final(self).lookup(*key) is None,
            forall|k: Self::Key| k != *key ==> #[trigger] final(self).lookup(k) == old(self).lookup(k);
}

} // verus!
