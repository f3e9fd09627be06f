//! Map from type identities to values.

use crate::ecs::registry::same_type_id;
use std::any::TypeId;
use vstd::prelude::*;

verus! {

/// An associative array keyed by type identity: at most one value per type.
pub struct AnyMap<V> {
    map: Vec<(TypeId, V)>,
}

impl<V> AnyMap<V> {
    /// The entries, in insertion order.
    pub closed spec fn view(&self) -> Seq<(TypeId, V)> {
        self.map@
    }

    /// The map is well formed: no identity appears twice.
    pub open spec fn wf(&self) -> bool {
        forall|i: int, j: int| 0 <= i < j < self.view().len() ==> (#[trigger] self.view()[i]).0 != (#[trigger] self.view()[j]).0
    }

    /// The value stored for identity `id`, if any.
    pub open spec fn lookup(&self, id: TypeId) -> Option<V> {
        if exists|i: int| 0 <= i < self.view().len() && (#[trigger] self.view()[i]).0 == id {
            Some(self.view()[choose|i: int| 0 <= i < self.view().len() && (#[trigger] self.view()[i]).0 == id].1)
        } else {
            None
        }
    }

    proof fn lemma_lookup(&self, id: TypeId, i: int)
        requires
            self.wf(),
            0 <= i < self.view().len(),
            self.view()[i].0 == id,
        ensures
            self.lookup(id) == Some(self.view()[i].1),
    {
        let j = choose|j: int| 0 <= j < self.view().len() && (#[trigger] self.view()[j]).0 == id;
        assert(self.view()[j].0 == id);
    }

    /// Constructs a new, empty map.
    pub fn new() -> (r: Self)
        ensures
            r.wf(),
            r.view() == Seq::<(TypeId, V)>::empty(),
    {
        AnyMap { map: Vec::new() }
    }

    /// Returns the number of values.
    pub fn len(&self) -> (r: usize)
        ensures
            r == self.view().len(),
    {
        self.map.len()
    }

    /// Returns `true` if the map holds no values.
    pub fn is_empty(&self) -> (r: bool)
        ensures
            r == (self.view().len() == 0),
    {
        self.map.len() == 0
    }

    /// Finds the position of identity `id`.
    fn find(&self, id: &TypeId) -> (r: Option<usize>)
        requires
            self.wf(),
        ensures
            r is None ==> self.lookup(*id) is None,
            r matches Some(i) ==> i < self.view().len() && self.view()[i as int].0 == *id && self.lookup(*id) == Some(self.view()[i as int].1),
    {
        let mut i: usize = 0;
        while i < self.map.len()
            invariant
                0 <= i <= self.view().len(),
                self.wf(),
                forall|j: int| 0 <= j < i ==> (#[trigger] self.view()[j]).0 != *id,
            decreases self.view().len() - i,
        {
            if same_type_id(&self.map[i].0, id) {
                proof {
                    self.lemma_lookup(*id, i as int);
                }
                return Some(i);
            }
            i = i + 1;
        }
        None
    }

    /// Returns `true` if identity `id` has a value.
    pub fn contains_id(&self, id: &TypeId) -> (r: bool)
        requires
            self.wf(),
        ensures
            r == self.lookup(*id) is Some,
    {
        self.find(id).is_some()
    }

    /// Returns a reference to the value of identity `id`.
    pub fn get_by_id(&self, id: &TypeId) -> (r: Option<&V>)
        requires
            self.wf(),
        ensures
            match r {
                Some(v) => self.lookup(*id) == Some(*v),
                None => self.lookup(*id) is None,
            },
    {
        match self.find(id) {
            Some(i) => Some(&self.map[i].1),
            None => None,
        }
    }

    /// Returns a mutable reference to the value of identity `id`.
    pub fn get_by_id_mut(&mut self, id: &TypeId) -> (r: Option<&mut V>)
        requires
            old(self).wf(),
        ensures
            final(self).wf(),
            final(self).view().len() == old(self).view().len(),
            match r {
                Some(v) => old(self).lookup(*id) == Some(*v),
                None => old(self).lookup(*id) is None && final(self).view() == old(self).view(),
            },
    {
        match self.find(id) {
            Some(i) => {
                let entry = &mut self.map[i];
                Some(&mut entry.1)
            },
            None => None,
        }
    }

    /// Stores `value` for identity `id` and returns the value it had before.
    pub fn insert_by_id(&mut self, id: TypeId, value: V) -> (r: Option<V>)
        requires
            old(self).wf(),
        ensures
            final(self).wf(),
            r == old(self).lookup(id),
            final(self).view().len() == old(self).view().len() + (if r is None { 1int } else { 0int }),
            final(self).lookup(id) == Some(value),
            forall|other: TypeId| other != id ==> #[trigger] final(self).lookup(other) == old(self).lookup(other),
    {
        match self.find(&id) {
            Some(i) => {
                let mut entry = (id, value);
                std::mem::swap(&mut self.map[i], &mut entry);
                proof {
                    self.lemma_lookup(id, i as int);
                    assert forall|other: TypeId| other != id implies #[trigger] self.lookup(other) == old(self).lookup(other) by {
                        if exists|j: int| 0 <= j < old(self).view().len() && (#[trigger] old(self).view()[j]).0 == other {
                            let j = choose|j: int| 0 <= j < old(self).view().len() && (#[trigger] old(self).view()[j]).0 == other;
                            old(self).lemma_lookup(other, j);
                            self.lemma_lookup(other, j);
                        }
                        if exists|j: int| 0 <= j < self.view().len() && (#[trigger] self.view()[j]).0 == other {
                            let j = choose|j: int| 0 <= j < self.view().len() && (#[trigger] self.view()[j]).0 == other;
                            assert(old(self).view()[j].0 == other);
                        }
                    }
                }
                Some(entry.1)
            },
            None => {
                let n = self.map.len();
                self.map.push((id, value));
                proof {
                    self.lemma_lookup(id, n as int);
                    assert forall|other: TypeId| other != id implies #[trigger] self.lookup(other) == old(self).lookup(other) by {
                        if exists|j: int| 0 <= j < old(self).view().len() && (#[trigger] old(self).view()[j]).0 == other {
                            let j = choose|j: int| 0 <= j < old(self).view().len() && (#[trigger] old(self).view()[j]).0 == other;
                            old(self).lemma_lookup(other, j);
                            self.lemma_lookup(other, j);
                        }
                        if exists|j: int| 0 <= j < self.view().len() && (#[trigger] self.view()[j]).0 == other {
                            let j = choose|j: int| 0 <= j < self.view().len() && (#[trigger] self.view()[j]).0 == other;
                            assert(j < n);
                            assert(old(self).view()[j].0 == other);
                        }
                    }
                }
                None
            },
        }
    }

    /// Removes and returns the value of identity `id`.
    pub fn remove_by_id(&mut self, id: &TypeId) -> (r: Option<V>)
        requires
            old(self).wf(),
        ensures
            final(self).wf(),
            r == old(self).lookup(*id),
            final(self).view().len() + (if r is Some { 1int } else { 0int }) == old(self).view().len(),
            final(self).lookup(*id) is None,
            forall|other: TypeId| other != *id ==> #[trigger] final(self).lookup(other) == old(self).lookup(other),
    {
        match self.find(id) {
            Some(i) => {
                let last = self.map.len() - 1;
                let entry = self.map.swap_remove(i);
                proof {
                    let o = old(self).view();
                    assert forall|other: TypeId| #[trigger] self.lookup(other) == (if other == *id { None } else { old(self).lookup(other) }) by {
                        if exists|j: int| 0 <= j < self.view().len() && (#[trigger] self.view()[j]).0 == other {
                            let j = choose|j: int| 0 <= j < self.view().len() && (#[trigger] self.view()[j]).0 == other;
                            let oj = if j == i { last as int } else { j };
                            assert(self.view()[j] == o[oj]);
                            old(self).lemma_lookup(other, oj);
                            self.lemma_lookup(other, j);
                        } else if other != *id {
                            if exists|j: int| 0 <= j < o.len() && (#[trigger] o[j]).0 == other {
                                let j = choose|j: int| 0 <= j < o.len() && (#[trigger] o[j]).0 == other;
                                if j == last {
                                    assert(self.view()[i as int].0 == other);
                                } else {
                                    assert(self.view()[j].0 == other);
                                }
                            }
                        }
                    }
                }
                Some(entry.1)
            },
            None => None,
        }
    }

    /// Removes every value.
    pub fn clear(&mut self)
        ensures
            final(self).wf(),
            final(self).view() == Seq::<(TypeId, V)>::empty(),
    {
        self.map.clear();
    }

    /// Returns the entries in insertion order.
    pub fn iter(&self) -> (r: &[(TypeId, V)])
        ensures
            r@ == self.view(),
    {
        self.map.as_slice()
    }

    /// Returns `true` if the map holds a value for type `T`.
    pub fn contains<T: ?Sized + 'static>(&self) -> (r: bool)
        requires
            self.wf(),
        ensures
            exists|id: TypeId| r == (#[trigger] self.lookup(id)) is Some,
    {
        let id = TypeId::of::<T>();
        self.contains_id(&id)
    }

    /// Returns a reference to the value for type `T`.
    pub fn get<T: ?Sized + 'static>(&self) -> (r: Option<&V>)
        requires
            self.wf(),
        ensures
            exists|id: TypeId| match r {
                Some(v) => #[trigger] self.lookup(id) == Some(*v),
                None => self.lookup(id) is None,
            },
    {
        let id = TypeId::of::<T>();
        self.get_by_id(&id)
    }

    /// Returns a mutable reference to the value for type `T`.
    pub fn get_mut<T: ?Sized + 'static>(&mut self) -> (r: Option<&mut V>)
        requires
            old(self).wf(),
        ensures
            final(self).wf(),
            final(self).view().len() == old(self).view().len(),
            exists|id: TypeId| match r {
                Some(v) => #[trigger] old(self).lookup(id) == Some(*v),
                None => old(self).lookup(id) is None,
            },
    {
        let id = TypeId::of::<T>();
        self.get_by_id_mut(&id)
    }

    /// Stores `value` for type `T` and returns the value it had before.
    pub fn insert<T: ?Sized + 'static>(&mut self, value: V) -> (r: Option<V>)
        requires
            old(self).wf(),
        ensures
            final(self).wf(),
            exists|id: TypeId| r == old(self).lookup(id) && #[trigger] final(self).lookup(id) == Some(value)
                && forall|other: TypeId| other != id ==> #[trigger] final(self).lookup(other) == old(self).lookup(other),
    {
        let id = TypeId::of::<T>();
        let r = self.insert_by_id(id, value);
        proof {
            assert(final(self).lookup(id) == Some(value));
        }
        r
    }

    /// Removes and returns the value for type `T`.
    pub fn remove<T: ?Sized + 'static>(&mut self) -> (r: Option<V>)
        requires
            old(self).wf(),
        ensures
            final(self).wf(),
            exists|id: TypeId| r == old(self).lookup(id) && (#[trigger] final(self).lookup(id)) is None
                && forall|other: TypeId| other != id ==> #[trigger] final(self).lookup(other) == old(self).lookup(other),
    {
        let id = TypeId::of::<T>();
        let r = self.remove_by_id(&id);
        proof {
            assert(final(self).lookup(id) is None);
        }
        r
    }
}

impl<V> Default for AnyMap<V> {
    fn default() -> (r: Self)
        ensures
            r.wf(),
            r.view() == Seq::<(TypeId, V)>::empty(),
    {
        Self::new()
    }
}

} // verus!
