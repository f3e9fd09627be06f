//! Registry of values keyed by type identity or by number, with a runtime single-writer /
//! multi-reader check on every entry.

use vstd::prelude::*;

verus! {

/// std's type identity, held opaque.
#[verifier::external_type_specification]
#[verifier::external_body]
pub struct ExTypeId(std::any::TypeId);

/// Relies on `TypeId::of`: the identity of type `T`.
pub assume_specification<T: ?Sized + 'static>[ std::any::TypeId::of::<T> ]() -> std::any::TypeId;

/// Relies on `TypeId`'s `==`: two identities compare equal exactly when they are the same value.
#[verifier::external_body]
pub(crate) fn same_type_id(a: &std::any::TypeId, b: &std::any::TypeId) -> (r: bool)
    ensures
        r == (*a == *b),
{
    *a == *b
}

/// Key of a [Registry] entry.
#[derive(Clone, Copy, Debug, Hash, PartialEq, Eq)]
pub enum RegistryKey {
    /// A key for a static type.
    Type(std::any::TypeId),
    /// A key given by a number.
    Id(u32),
}

impl RegistryKey {
    /// The key of type `T`.
    pub fn from_type<T: ?Sized + 'static>() -> (r: Self)
        ensures
            r is Type,
    {
        RegistryKey::Type(std::any::TypeId::of::<T>())
    }

    /// The key of number `id`.
    pub fn from_id(id: u32) -> (r: Self)
        ensures
            r == RegistryKey::Id(id),
    {
        RegistryKey::Id(id)
    }

    /// Whether two keys are the same.
    pub fn same_key(&self, other: &Self) -> (r: bool)
        ensures
            r == (*self == *other),
    {
        match (self, other) {
            (RegistryKey::Type(a), RegistryKey::Type(b)) => same_type_id(a, b),
            (RegistryKey::Id(a), RegistryKey::Id(b)) => *a == *b,
            _ => false,
        }
    }
}

/// Why a registry access was refused.
#[derive(Clone, Copy, Debug, PartialEq, Eq)]
pub enum RegistryError {
    /// No entry has the key.
    NotRegistered,
    /// The entry is already viewed in a way that the requested view cannot share.
    AlreadyBorrowed,
    /// The entry already has as many read-only views as can be counted.
    TooManyReaders,
}

/// One entry of a [Registry]: its key, its value and how it is viewed now.
pub struct RegistryEntry<V> {
    key: RegistryKey,
    value: V,
    readers: usize,
    writing: bool,
}

/// The entries of a [Registry], in registration order.
pub type RegistryData<V> = Vec<RegistryEntry<V>>;

impl<V> RegistryEntry<V> {
    /// The entry's key.
    pub closed spec fn spec_key(&self) -> RegistryKey {
        self.key
    }

    /// The entry's value.
    pub closed spec fn spec_value(&self) -> V {
        self.value
    }

    /// How many read-only views of the entry are held.
    pub closed spec fn spec_readers(&self) -> nat {
        self.readers as nat
    }

    /// Whether a mutable view of the entry is held.
    pub closed spec fn spec_writing(&self) -> bool {
        self.writing
    }

    /// Returns the entry's key.
    pub fn key(&self) -> (r: RegistryKey)
        ensures
            r == self.spec_key(),
    {
        self.key
    }

    /// Returns the entry's value.
    pub fn value(&self) -> (r: &V)
        ensures
            *r == self.spec_value(),
    {
        &self.value
    }
}

/// A held read-only view of a registry entry, returned by [Registry::get].
#[derive(Debug)]
pub struct Ref {
    key: RegistryKey,
}

/// A held mutable view of a registry entry, returned by [Registry::get_mut].
#[derive(Debug)]
pub struct RefMut {
    key: RegistryKey,
}

impl Ref {
    /// The key of the viewed entry.
    pub closed spec fn spec_key(&self) -> RegistryKey {
        self.key
    }

    /// Returns the key of the viewed entry.
    pub fn key(&self) -> (r: RegistryKey)
        ensures
            r == self.spec_key(),
    {
        self.key
    }
}

impl RefMut {
    /// The key of the viewed entry.
    pub closed spec fn spec_key(&self) -> RegistryKey {
        self.key
    }

    /// Returns the key of the viewed entry.
    pub fn key(&self) -> (r: RegistryKey)
        ensures
            r == self.spec_key(),
    {
        self.key
    }
}

/// A registry: at most one entry per key. Each entry allows any number of read-only views or
/// one mutable view at a time; a request that would break this is refused when it is made.
///
/// All entries hold values of the one type `V`: the registry keeps no type-erased values and
/// makes no downcast. A registry of storages of several types uses an enum of them as `V`.
pub struct Registry<V> {
    data: RegistryData<V>,
}

impl<V> Registry<V> {
    /// The entries in registration order.
    pub closed spec fn view(&self) -> Seq<RegistryEntry<V>> {
        self.data@
    }

    /// Whether key `k` has an entry.
    pub open spec fn has(&self, k: RegistryKey) -> bool {
        exists|i: int| 0 <= i < self.view().len() && (#[trigger] self.view()[i]).spec_key() == k
    }

    /// The position of key `k`'s entry: the first entry with that key.
    #[verifier::opaque]
    pub open spec fn slot(&self, k: RegistryKey) -> int {
        choose|i: int| 0 <= i < self.view().len() && (#[trigger] self.view()[i]).spec_key() == k && forall|j: int|
            0 <= j < i ==> (#[trigger] self.view()[j]).spec_key() != k
    }

    /// The entry of key `k`.
    pub open spec fn entry(&self, k: RegistryKey) -> RegistryEntry<V> {
        self.view()[self.slot(k)]
    }

    /// The registry is well formed: keys are unique.
    pub open spec fn wf(&self) -> bool {
        forall|i: int, j: int| 0 <= i < j < self.view().len() ==> (#[trigger] self.view()[i]).spec_key() != (#[trigger] self.view()[j]).spec_key()
    }

    /// Whether a mutable view of `k` can be granted: no view of it is held.
    pub open spec fn can_write(&self, k: RegistryKey) -> bool {
        self.entry(k).spec_readers() == 0 && !self.entry(k).spec_writing()
    }

    /// What a granted view changes: only the view count or flag of key `k`.
    pub open spec fn only_flags_of(old: Self, new: Self, k: RegistryKey, readers: nat, writing: bool) -> bool {
        &&& old.wf() ==> new.wf()
        &&& new.has(k)
        &&& new.view().len() == old.view().len()
        &&& forall|i: int| 0 <= i < old.view().len() ==> (#[trigger] new.view()[i]).spec_key() == old.view()[i].spec_key()
            && new.view()[i].spec_value() == old.view()[i].spec_value()
        &&& forall|i: int| 0 <= i < old.view().len() && i != old.slot(k) ==> #[trigger] new.view()[i] == old.view()[i]
        &&& new.entry(k).spec_readers() == readers
        &&& new.entry(k).spec_writing() == writing
    }

    /// An entry with key `k` and no earlier entry with that key is `k`'s slot.
    pub proof fn lemma_slot(&self, k: RegistryKey, i: int)
        requires
            0 <= i < self.view().len(),
            self.view()[i].spec_key() == k,
            forall|j: int| 0 <= j < i ==> (#[trigger] self.view()[j]).spec_key() != k,
        ensures
            self.has(k),
            self.slot(k) == i,
    {
        reveal(Registry::slot);
        let j = self.slot(k);
        assert(self.view()[j].spec_key() == k);
        if j < i {
            assert(self.view()[j].spec_key() != k);
        }
        if i < j {
            assert(self.view()[i].spec_key() != k);
        }
    }

    /// The slot of a registered key holds that key, and no earlier entry does.
    pub proof fn lemma_first(&self, k: RegistryKey)
        requires
            self.has(k),
        ensures
            0 <= self.slot(k) < self.view().len(),
            self.view()[self.slot(k)].spec_key() == k,
            forall|j: int| 0 <= j < self.slot(k) ==> (#[trigger] self.view()[j]).spec_key() != k,
    {
        let i = choose|i: int| 0 <= i < self.view().len() && (#[trigger] self.view()[i]).spec_key() == k;
        self.lemma_first_below(k, i);
    }

    proof fn lemma_first_below(&self, k: RegistryKey, m: int)
        requires
            0 <= m < self.view().len(),
            self.view()[m].spec_key() == k,
        ensures
            0 <= self.slot(k) <= m,
            self.view()[self.slot(k)].spec_key() == k,
            forall|j: int| 0 <= j < self.slot(k) ==> (#[trigger] self.view()[j]).spec_key() != k,
        decreases m,
    {
        if exists|j: int| 0 <= j < m && (#[trigger] self.view()[j]).spec_key() == k {
            let j = choose|j: int| 0 <= j < m && (#[trigger] self.view()[j]).spec_key() == k;
            self.lemma_first_below(k, j);
        } else {
            self.lemma_slot(k, m);
        }
    }

    /// Creates an empty registry.
    pub fn new() -> (r: Self)
        ensures
            r.wf(),
            r.view() == Seq::<RegistryEntry<V>>::empty(),
    {
        Registry { data: Vec::new() }
    }

    /// Returns the entries.
    pub fn data(&self) -> (r: &RegistryData<V>)
        ensures
            r@ == self.view(),
    {
        &self.data
    }

    /// Returns the entries mutably. Changes made through it must keep keys unique for the
    /// registry to stay well formed.
    pub fn data_mut(&mut self) -> (r: &mut RegistryData<V>)
        ensures
            r@ == old(self).view(),
            final(self).view() == final(r)@,
    {
        &mut self.data
    }

    /// Finds the position of key `k`.
    fn find(&self, k: &RegistryKey) -> (r: Option<usize>)
        ensures
            r is Some <==> self.has(*k),
            r matches Some(i) ==> i == self.slot(*k) && i < self.view().len() && self.view()[i as int].spec_key() == *k
                && forall|j: int| 0 <= j < i ==> (#[trigger] self.view()[j]).spec_key() != *k,
    {
        let mut i: usize = 0;
        while i < self.data.len()
            invariant
                0 <= i <= self.view().len(),
                forall|j: int| 0 <= j < i ==> (#[trigger] self.view()[j]).spec_key() != *k,
            decreases self.view().len() - i,
        {
            if self.data[i].key.same_key(k) {
                proof {
                    self.lemma_slot(*k, i as int);
                }
                return Some(i);
            }
            i = i + 1;
        }
        None
    }

    /// Returns `true` if key `k` has an entry.
    pub fn contains_key(&self, k: &RegistryKey) -> (r: bool)
        ensures
            r == self.has(*k),
    {
        self.find(k).is_some()
    }

    /// Registers `value` under key `k`. The first registration of a key wins: where `k` already
    /// has an entry, nothing changes.
    pub fn register(&mut self, k: RegistryKey, value: V)
        ensures
            old(self).wf() ==> final(self).wf(),
            old(self).has(k) ==> final(self).view() == old(self).view(),
            !old(self).has(k) ==> final(self).view().len() == old(self).view().len() + 1
                && forall|i: int| 0 <= i < old(self).view().len() ==> #[trigger] final(self).view()[i] == old(self).view()[i],
            !old(self).has(k) ==> final(self).entry(k).spec_value() == value && final(self).entry(k).spec_readers() == 0
                && !final(self).entry(k).spec_writing(),
            final(self).has(k),
            forall|j: RegistryKey| #[trigger] old(self).has(j) ==> final(self).has(j) && final(self).entry(j) == old(self).entry(j),
    {
        if self.contains_key(&k) {
            return;
        }
        let n = self.data.len();
        self.data.push(RegistryEntry { key: k, value, readers: 0, writing: false });
        proof {
            self.lemma_slot(k, n as int);
            assert forall|j: RegistryKey| #[trigger] old(self).has(j) implies self.has(j) && self.entry(j) == old(self).entry(j) by {
                let i = old(self).slot(j);
                old(self).lemma_first(j);
                assert(self.view()[i] == old(self).view()[i]);
                assert forall|m: int| 0 <= m < i implies (#[trigger] self.view()[m]).spec_key() != j by {
                    assert(self.view()[m] == old(self).view()[m]);
                }
                self.lemma_slot(j, i);
            }
        }
    }

    /// Acquires a read-only view of key `k`'s entry. Refused where `k` has no entry, where a
    /// mutable view of it is held, or where its reader count is full.
    pub fn get(&mut self, k: &RegistryKey) -> (r: Result<Ref, RegistryError>)
        ensures
            old(self).wf() ==> final(self).wf(),
            !old(self).has(*k) ==> r == Err::<Ref, RegistryError>(RegistryError::NotRegistered),
            old(self).has(*k) && old(self).entry(*k).spec_writing() ==> r == Err::<Ref, RegistryError>(RegistryError::AlreadyBorrowed),
            old(self).has(*k) && !old(self).entry(*k).spec_writing() && old(self).entry(*k).spec_readers() == usize::MAX
                ==> r == Err::<Ref, RegistryError>(RegistryError::TooManyReaders),
            old(self).has(*k) && !old(self).entry(*k).spec_writing() && old(self).entry(*k).spec_readers() < usize::MAX ==> r is Ok,
            r is Err ==> *final(self) == *old(self),
            r matches Ok(view) ==> {
                &&& view.spec_key() == *k
                &&& old(self).has(*k)
                &&& Self::only_flags_of(*old(self), *final(self), *k, old(self).entry(*k).spec_readers() + 1, false)
            },
    {
        match self.find(k) {
            None => Err(RegistryError::NotRegistered),
            Some(i) => {
                if self.data[i].writing {
                    return Err(RegistryError::AlreadyBorrowed);
                }
                if self.data[i].readers == usize::MAX {
                    return Err(RegistryError::TooManyReaders);
                }
                let readers = self.data[i].readers + 1;
                self.set_flags(i, readers, false);
                Ok(Ref { key: *k })
            },
        }
    }

    /// Acquires a mutable view of key `k`'s entry. Refused where `k` has no entry, or where any
    /// view of it, read-only or mutable, is held.
    pub fn get_mut(&mut self, k: &RegistryKey) -> (r: Result<RefMut, RegistryError>)
        ensures
            old(self).wf() ==> final(self).wf(),
            !old(self).has(*k) ==> r == Err::<RefMut, RegistryError>(RegistryError::NotRegistered),
            old(self).has(*k) && !old(self).can_write(*k) ==> r == Err::<RefMut, RegistryError>(RegistryError::AlreadyBorrowed),
            old(self).has(*k) && old(self).can_write(*k) ==> r is Ok,
            r is Err ==> *final(self) == *old(self),
            r matches Ok(view) ==> {
                &&& view.spec_key() == *k
                &&& Self::only_flags_of(*old(self), *final(self), *k, 0, true)
            },
    {
        match self.find(k) {
            None => Err(RegistryError::NotRegistered),
            Some(i) => {
                if self.data[i].writing || self.data[i].readers > 0 {
                    return Err(RegistryError::AlreadyBorrowed);
                }
                self.set_flags(i, 0, true);
                Ok(RefMut { key: *k })
            },
        }
    }

    /// Gives back a read-only view.
    pub fn release(&mut self, view: Ref)
        ensures
            old(self).wf() ==> final(self).wf(),
            old(self).has(view.spec_key()) && old(self).entry(view.spec_key()).spec_readers() > 0 ==> Self::only_flags_of(
                *old(self),
                *final(self),
                view.spec_key(),
                (old(self).entry(view.spec_key()).spec_readers() - 1) as nat,
                old(self).entry(view.spec_key()).spec_writing(),
            ),
            !(old(self).has(view.spec_key()) && old(self).entry(view.spec_key()).spec_readers() > 0) ==> *final(self) == *old(self),
    {
        if let Some(i) = self.find(&view.key) {
            if self.data[i].readers > 0 {
                let readers = self.data[i].readers - 1;
                let writing = self.data[i].writing;
                self.set_flags(i, readers, writing);
            }
        }
    }

    /// Gives back a mutable view.
    pub fn release_mut(&mut self, view: RefMut)
        ensures
            old(self).wf() ==> final(self).wf(),
            old(self).has(view.spec_key()) ==> Self::only_flags_of(
                *old(self),
                *final(self),
                view.spec_key(),
                old(self).entry(view.spec_key()).spec_readers(),
                false,
            ),
            !old(self).has(view.spec_key()) ==> *final(self) == *old(self),
    {
        if let Some(i) = self.find(&view.key) {
            let readers = self.data[i].readers;
            self.set_flags(i, readers, false);
        }
    }

    /// Reads through a held read-only view: the entry's value, or `None` where the view's entry
    /// has no read-only view held.
    pub fn read(&self, view: &Ref) -> (r: Option<&V>)
        ensures
            r is Some <==> self.has(view.spec_key()) && self.entry(view.spec_key()).spec_readers() > 0,
            r matches Some(v) ==> *v == self.entry(view.spec_key()).spec_value(),
    {
        match self.find(&view.key) {
            Some(i) => {
                if self.data[i].readers > 0 {
                    Some(&self.data[i].value)
                } else {
                    None
                }
            },
            None => None,
        }
    }

    /// Writes through a held mutable view: the entry's value, or `None` where the view's entry
    /// has no mutable view held.
    pub fn write(&mut self, view: &RefMut) -> (r: Option<&mut V>)
        ensures
            old(self).wf() ==> final(self).wf(),
            r is Some <==> old(self).has(view.spec_key()) && old(self).entry(view.spec_key()).spec_writing(),
            final(self).view().len() == old(self).view().len(),
            forall|i: int| 0 <= i < old(self).view().len() && i != old(self).slot(view.spec_key()) ==> #[trigger] final(self).view()[i] == old(self).view()[i],
            forall|i: int| 0 <= i < old(self).view().len() ==> (#[trigger] final(self).view()[i]).spec_key() == old(self).view()[i].spec_key()
                && final(self).view()[i].spec_readers() == old(self).view()[i].spec_readers()
                && final(self).view()[i].spec_writing() == old(self).view()[i].spec_writing(),
            r matches Some(v) ==> *v == old(self).entry(view.spec_key()).spec_value()
                && final(self).view()[old(self).slot(view.spec_key())].spec_value() == *final(v),
            r is None ==> *final(self) == *old(self),
    {
        match self.find(&view.key) {
            Some(i) => {
                if self.data[i].writing {
                    let entry = &mut self.data[i];
                    Some(&mut entry.value)
                } else {
                    None
                }
            },
            None => None,
        }
    }

    /// Aliasing: while a view of an entry is held, a mutable view of the same entry is refused;
    /// holding a view of one entry never stands in the way of a view of another.
    pub proof fn lemma_aliasing(r0: Self, r1: Self, k1: RegistryKey, k2: RegistryKey, readers: nat, writing: bool)
        requires
            r0.wf(),
            r0.has(k1),
            r0.has(k2),
            k1 != k2,
            Self::only_flags_of(r0, r1, k1, readers, writing),
        ensures
            readers > 0 || writing ==> !r1.can_write(k1),
            r1.has(k2),
            r1.can_write(k2) == r0.can_write(k2),
            r1.entry(k2) == r0.entry(k2),
    {
        let i = r0.slot(k2);
        r0.lemma_first(k2);
        r0.lemma_first(k1);
        assert(r1.view()[i] == r0.view()[i]);
        assert forall|m: int| 0 <= m < i implies (#[trigger] r1.view()[m]).spec_key() != k2 by {
            assert(r1.view()[m].spec_key() == r0.view()[m].spec_key());
        }
        r1.lemma_slot(k2, i);
    }

    /// Sets the view count and flag of the entry at position `i`.
    fn set_flags(&mut self, i: usize, readers: usize, writing: bool)
        requires
            i < old(self).view().len(),
            forall|j: int| 0 <= j < i ==> (#[trigger] old(self).view()[j]).spec_key() != old(self).view()[i as int].spec_key(),
        ensures
            Self::only_flags_of(*old(self), *final(self), old(self).view()[i as int].spec_key(), readers as nat, writing),
    {
        let ghost k = self.data@[i as int].key;
        let entry = &mut self.data[i];
        entry.readers = readers;
        entry.writing = writing;
        proof {
            self.lemma_slot(k, i as int);
            old(self).lemma_slot(k, i as int);
        }
    }
}

impl<V> Default for Registry<V> {
    fn default() -> (r: Self)
        ensures
            r.wf(),
            r.view() == Seq::<RegistryEntry<V>>::empty(),
    {
        Self::new()
    }
}

} // verus!
