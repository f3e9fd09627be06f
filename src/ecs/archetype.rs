//! Archetypes: an entity type together with the component types attached to it, torn down as one.

use crate::ecs::entity_component::ComponentStorage;
use crate::ecs::registry::{Registry, RegistryError, RegistryKey};
use crate::genindex::GenIndex;
use vstd::prelude::*;

verus! {

/// Every entry's storage is well formed.
pub open spec fn storages_wf<I: GenIndex, V: ComponentStorage<I>>(r: Registry<V>) -> bool {
    forall|i: int| 0 <= i < r.view().len() ==> (#[trigger] r.view()[i]).spec_value().storage_wf()
}

/// Two registries have the same keys and views, position by position.
pub open spec fn same_shape<V>(a: Registry<V>, b: Registry<V>) -> bool {
    &&& b.view().len() == a.view().len()
    &&& forall|i: int| 0 <= i < a.view().len() ==> {
        &&& (#[trigger] b.view()[i]).spec_key() == a.view()[i].spec_key()
        &&& b.view()[i].spec_readers() == a.view()[i].spec_readers()
        &&& b.view()[i].spec_writing() == a.view()[i].spec_writing()
    }
}

/// `new` differs from `old` only in storages that dropped handle `h`: keys and views are the same,
/// and every storage keeps everything but `h` as it was.
pub open spec fn only_detached<I: GenIndex, V: ComponentStorage<I>>(old: Registry<V>, new: Registry<V>, h: I) -> bool {
    &&& same_shape(old, new)
    &&& forall|i: int, g: I| 0 <= i < old.view().len() && g != h ==> #[trigger] new.view()[i].spec_value().holds(g)
        == old.view()[i].spec_value().holds(g)
}

/// Where `b` keeps `a`'s keys position by position, a key registered in `a` has the same slot in `b`.
proof fn lemma_keys_kept<V>(a: Registry<V>, b: Registry<V>, k: RegistryKey)
    requires
        a.has(k),
        b.view().len() == a.view().len(),
        forall|i: int| 0 <= i < a.view().len() ==> (#[trigger] b.view()[i]).spec_key() == a.view()[i].spec_key(),
    ensures
        b.has(k),
        b.slot(k) == a.slot(k),
        0 <= a.slot(k) < a.view().len(),
{
    a.lemma_first(k);
    let s = a.slot(k);
    assert forall|j: int| 0 <= j < s implies (#[trigger] b.view()[j]).spec_key() != k by {
        assert(a.view()[j].spec_key() != k);
    }
    b.lemma_slot(k, s);
}

/// Registries of the same shape place every key at the same slot, with the same views.
pub proof fn lemma_same_slots<V>(a: Registry<V>, b: Registry<V>, k: RegistryKey)
    requires
        same_shape(a, b),
    ensures
        a.has(k) == b.has(k),
        a.has(k) ==> a.slot(k) == b.slot(k) && a.can_write(k) == b.can_write(k),
{
    if a.has(k) {
        a.lemma_first(k);
        let s = a.slot(k);
        assert forall|j: int| 0 <= j < s implies (#[trigger] b.view()[j]).spec_key() != k by {
            assert(a.view()[j].spec_key() != k);
        }
        b.lemma_slot(k, s);
    }
    if b.has(k) {
        let i = choose|i: int| 0 <= i < b.view().len() && (#[trigger] b.view()[i]).spec_key() == k;
        assert(a.view()[i].spec_key() == k);
    }
}

/// Drops handle `h` from the storage registered under `key`, through a mutable view that is
/// given back at once. Refused, with nothing changed, where `get_mut` would refuse.
fn detach_from<I: GenIndex, V: ComponentStorage<I>>(registry: &mut Registry<V>, key: &RegistryKey, h: &I) -> (r: Result<(), RegistryError>)
    requires
        storages_wf::<I, V>(*old(registry)),
    ensures
        storages_wf::<I, V>(*final(registry)),
        r is Ok <==> old(registry).has(*key) && old(registry).can_write(*key),
        r is Err ==> *final(registry) == *old(registry),
        r is Ok ==> only_detached(*old(registry), *final(registry), *h),
        r is Ok ==> !final(registry).view()[old(registry).slot(*key)].spec_value().holds(*h),
        r is Ok ==> forall|i: int| 0 <= i < old(registry).view().len() && i != old(registry).slot(*key)
            ==> #[trigger] final(registry).view()[i] == old(registry).view()[i],
{
    let view = match registry.get_mut(key) {
        Ok(v) => v,
        Err(e) => {
            return Err(e);
        },
    };
    let ghost mid = *registry;
    let ghost s = old(registry).slot(*key);
    proof {
        old(registry).lemma_first(*key);
        lemma_keys_kept(*old(registry), mid, *key);
    }
    match registry.write(&view) {
        Some(storage) => {
            storage.detach(h);
        },
        None => {
            proof {
                assert(false);
            }
        },
    }
    let ghost mid2 = *registry;
    proof {
        lemma_keys_kept(mid, mid2, *key);
    }
    registry.release_mut(view);
    proof {
        lemma_keys_kept(mid2, *registry, *key);
        assert forall|i: int| 0 <= i < registry.view().len() implies (#[trigger] registry.view()[i]).spec_value().storage_wf() by {
            assert(registry.view()[i].spec_value() == mid2.view()[i].spec_value());
            if i != s {
                assert(mid2.view()[i] == mid.view()[i]);
                assert(mid.view()[i].spec_value() == old(registry).view()[i].spec_value());
            }
        }
        assert forall|i: int| 0 <= i < old(registry).view().len() && i != s implies #[trigger] registry.view()[i] == old(registry).view()[i] by {
            assert(registry.view()[i] == mid2.view()[i]);
            assert(mid2.view()[i] == mid.view()[i]);
            assert(mid.view()[i] == old(registry).view()[i]);
        }
        assert(registry.view()[s].spec_value() == mid2.view()[s].spec_value());
        assert forall|i: int, g: I| 0 <= i < old(registry).view().len() && g != *h implies #[trigger] registry.view()[i].spec_value().holds(g)
            == old(registry).view()[i].spec_value().holds(g) by {
            if i != s {
                assert(registry.view()[i] == old(registry).view()[i]);
            }
        }
    }
    Ok(())
}

/// The teardown record of an entity type: the registry key of its storage and, in registration
/// order, the keys of its component storages.
pub struct Archetype {
    entity: RegistryKey,
    components: Vec<RegistryKey>,
}

impl Archetype {
    /// The key of the entity storage.
    pub closed spec fn spec_entity(&self) -> RegistryKey {
        self.entity
    }

    /// The keys of the component storages, in registration order.
    pub closed spec fn spec_components(&self) -> Seq<RegistryKey> {
        self.components@
    }

    /// Every key that teardown visits: the component storages in order, then the entity storage.
    pub open spec fn teardown_keys(&self) -> Seq<RegistryKey> {
        self.spec_components().push(self.spec_entity())
    }

    /// Creates the record of the entity type whose storage is registered under `entity`.
    pub fn new(entity: RegistryKey) -> (r: Self)
        ensures
            r.spec_entity() == entity,
            r.spec_components() == Seq::<RegistryKey>::empty(),
    {
        Archetype { entity, components: Vec::new() }
    }

    /// Appends the component storage registered under `key`.
    pub fn register_component(&mut self, key: RegistryKey)
        ensures
            final(self).spec_entity() == old(self).spec_entity(),
            final(self).spec_components() == old(self).spec_components().push(key),
    {
        self.components.push(key);
    }

    /// Returns the keys of the component storages.
    pub fn components(&self) -> (r: &Vec<RegistryKey>)
        ensures
            r@ == self.spec_components(),
    {
        &self.components
    }

    /// Removes entity `h` and all of its components: drops `h` from every component storage, in
    /// registration order, then from the entity storage. Refused, at the first storage that is
    /// not registered or is already viewed, with the storages visited before it already done.
    pub fn remove<I: GenIndex, V: ComponentStorage<I>>(&self, registry: &mut Registry<V>, h: &I) -> (r: Result<(), RegistryError>)
        requires
            storages_wf::<I, V>(*old(registry)),
        ensures
            storages_wf::<I, V>(*final(registry)),
            r is Ok <==> forall|n: int| 0 <= n < self.teardown_keys().len() ==> old(registry).has(#[trigger] self.teardown_keys()[n])
                && old(registry).can_write(self.teardown_keys()[n]),
            r is Ok ==> only_detached(*old(registry), *final(registry), *h),
            r is Ok ==> forall|n: int| 0 <= n < self.teardown_keys().len() ==> final(registry).has(#[trigger] self.teardown_keys()[n])
                && !final(registry).entry(self.teardown_keys()[n]).spec_value().holds(*h),
    {
        let keys = self.teardown_key_vec();
        let mut n: usize = 0;
        while n < keys.len()
            invariant
                0 <= n <= keys@.len(),
                keys@ == self.teardown_keys(),
                storages_wf::<I, V>(*registry),
                only_detached(*old(registry), *registry, *h),
                forall|m: int| 0 <= m < n ==> old(registry).has(#[trigger] keys@[m]) && old(registry).can_write(keys@[m]),
                forall|m: int| 0 <= m < n ==> registry.has(#[trigger] keys@[m]) && !registry.entry(keys@[m]).spec_value().holds(*h),
            decreases keys@.len() - n,
        {
            let ghost before = *registry;
            let key = keys[n];
            proof {
                lemma_same_slots(*old(registry), before, key);
            }
            match detach_from(registry, &key, h) {
                Ok(()) => {},
                Err(e) => {
                    proof {
                        assert(!(old(registry).has(keys@[n as int]) && old(registry).can_write(keys@[n as int])));
                    }
                    return Err(e);
                },
            }
            proof {
                assert forall|m: int| 0 <= m < n + 1 implies registry.has(#[trigger] keys@[m]) && !registry.entry(keys@[m]).spec_value().holds(*h) by {
                    lemma_same_slots(before, *registry, keys@[m]);
                    lemma_same_slots(*old(registry), before, keys@[m]);
                    before.lemma_first(keys@[m]);
                    let sm = before.slot(keys@[m]);
                    if sm != before.slot(key) {
                        assert(registry.view()[sm] == before.view()[sm]);
                    }
                }
                assert(same_shape(*old(registry), *registry));
            }
            n = n + 1;
        }
        Ok(())
    }

    /// The teardown keys as a vector.
    fn teardown_key_vec(&self) -> (r: Vec<RegistryKey>)
        ensures
            r@ == self.teardown_keys(),
    {
        let mut keys: Vec<RegistryKey> = Vec::new();
        let mut i: usize = 0;
        while i < self.components.len()
            invariant
                0 <= i <= self.components@.len(),
                keys@ == self.components@.subrange(0, i as int),
            decreases self.components@.len() - i,
        {
            keys.push(self.components[i]);
            i = i + 1;
            proof {
                assert(keys@ =~= self.components@.subrange(0, i as int));
            }
        }
        keys.push(self.entity);
        proof {
            assert(keys@ =~= self.teardown_keys());
        }
        keys
    }
}

/// Registering an entity type and its component types in one call.
pub trait RegisterArchetype<V>: Sized {
    /// Whether key `k` has an entry.
    spec fn archetype_registered(&self, k: RegistryKey) -> bool;

    /// Registers `entity_storage` under `entity`, then each component storage under its key, in
    /// order (the first registration of a key wins), and returns the teardown record.
    fn register_archetype(&mut self, entity: RegistryKey, entity_storage: V, components: Vec<(RegistryKey, V)>) -> (r: Archetype)
        ensures
            r.spec_entity() == entity,
            r.spec_components() == components@.map_values(|c: (RegistryKey, V)| c.0),
            forall|n: int| 0 <= n < r.teardown_keys().len() ==> final(self).archetype_registered(#[trigger] r.teardown_keys()[n]),
            forall|k: RegistryKey| #[trigger] old(self).archetype_registered(k) ==> final(self).archetype_registered(k);
}

impl<V> RegisterArchetype<V> for Registry<V> {
    open spec fn archetype_registered(&self, k: RegistryKey) -> bool {
        self.has(k)
    }

    fn register_archetype(&mut self, entity: RegistryKey, entity_storage: V, components: Vec<(RegistryKey, V)>) -> (r: Archetype) {
        self.register(entity, entity_storage);
        let mut archetype = Archetype::new(entity);
        let ghost all = components@;
        let mut rest = components;
        let ghost mut n: int = 0;
        while rest.len() > 0
            invariant
                n + rest@.len() == all.len(),
                0 <= n <= all.len(),
                rest@ == all.subrange(n, all.len() as int),
                archetype.spec_entity() == entity,
                archetype.spec_components() == all.subrange(0, n).map_values(|c: (RegistryKey, V)| c.0),
                self.has(entity),
                forall|m: int| 0 <= m < n ==> self.has(#[trigger] all[m].0),
                forall|k: RegistryKey| #[trigger] old(self).has(k) ==> self.has(k),
            decreases rest@.len(),
        {
            let (key, storage) = rest.remove(0);
            self.register(key, storage);
            archetype.register_component(key);
            proof {
                assert(all[n].0 == key);
                assert(archetype.spec_components() =~= all.subrange(0, n + 1).map_values(|c: (RegistryKey, V)| c.0));
                assert(rest@ =~= all.subrange(n + 1, all.len() as int));
                n = n + 1;
            }
        }
        proof {
            assert(all.subrange(0, n) =~= all);
            assert forall|m: int| 0 <= m < archetype.teardown_keys().len() implies self.has(#[trigger] archetype.teardown_keys()[m]) by {
                if m < n {
                    assert(archetype.teardown_keys()[m] == all[m].0);
                }
            }
        }
        archetype
    }
}

} // verus!
