//! Entities, components and resources as typed keys into a [Registry].

use crate::collections::arena::GenIndexArena;
use crate::collections::genindexmap::GenIndexMap;
use crate::collections::map::MapMut;
use crate::ecs::registry::{Ref, RefMut, Registry, RegistryError, RegistryKey};
use crate::genindex::{GenIndex, IndexU64, TypedIndex};
use vstd::prelude::*;

verus! {

/// The handle of an entity of type `E`.
pub type EntityId<E> = TypedIndex<E, IndexU64>;

/// An entity type. Its storage is registered under the type's own key.
pub trait Entity: 'static {
}

/// A component type attached to entities of type `E`. Its storage is registered under the key
/// of the pair `(E, Self)`.
pub trait Component<E: Entity>: 'static {
}

/// A storage that keeps something per entity handle and can drop it.
pub trait ComponentStorage<I: GenIndex> {
    /// The storage's invariant.
    spec fn storage_wf(&self) -> bool;

    /// Whether the storage keeps something for handle `h`.
    spec fn holds(&self, h: I) -> bool;

    /// Drops what the storage keeps for `h`, if anything.
    fn detach(&mut self, h: &I)
        requires
            old(self).storage_wf(),
        ensures
            final(self).storage_wf(),
            !final(self).holds(*h),
            forall|g: I| g != *h ==> #[trigger] final(self).holds(g) == old(self).holds(g);
}

/// A storage of entities: it mints the entity handles.
pub trait EntityStorage<I: GenIndex>: ComponentStorage<I> {
    /// Whether another handle can be minted.
    spec fn can_mint(&self) -> bool;

    /// Mints a handle that the storage did not hold, and holds it.
    fn mint(&mut self) -> (h: I)
        requires
            old(self).storage_wf(),
            old(self).can_mint(),
        ensures
            final(self).storage_wf(),
            !old(self).holds(h),
            final(self).holds(h),
            forall|g: I| g != h ==> #[trigger] final(self).holds(g) == old(self).holds(g);
}

impl<T, I: GenIndex> ComponentStorage<I> for GenIndexArena<T, I> {
    open spec fn storage_wf(&self) -> bool {
        self.wf()
    }

    open spec fn holds(&self, h: I) -> bool {
        self.spec_contains(h)
    }

    fn detach(&mut self, h: &I) {
        proof {
            old(self).lemma_live(*h);
        }
        self.remove(h);
        proof {
            assert forall|g: I| g != *h implies #[trigger] final(self).holds(g) == old(self).holds(g) by {
                old(self).lemma_live(g);
                final(self).lemma_live(g);
            }
            final(self).lemma_live(*h);
        }
    }
}

impl<T: Default, I: GenIndex> EntityStorage<I> for GenIndexArena<T, I> {
    open spec fn can_mint(&self) -> bool {
        self.allocator().can_create() && self.allocator().view().len() < usize::MAX
    }

    fn mint(&mut self) -> (h: I) {
        let value = T::default();
        let h = self.insert(value);
        proof {
            final(self).lemma_live(h);
            assert forall|g: I| g != h implies #[trigger] final(self).holds(g) == old(self).holds(g) by {
                old(self).lemma_live(g);
                final(self).lemma_live(g);
            }
        }
        h
    }
}

impl<T, I: GenIndex, M: MapMut<Key = I::Index, Value = (I, T)>> ComponentStorage<I> for GenIndexMap<T, I, M> {
    open spec fn storage_wf(&self) -> bool {
        self.wf()
    }

    open spec fn holds(&self, h: I) -> bool {
        self.spec_get(h) is Some
    }

    fn detach(&mut self, h: &I) {
        self.remove(h);
    }
}

/// Registry of resources: values registered under their own type's key.
pub trait Resources<V> {
    /// Whether key `k` has an entry.
    spec fn resource_registered(&self, k: RegistryKey) -> bool;

    /// Registers `value` as the resource of type `R`; the first registration wins.
    fn register_resource<R: 'static>(&mut self, value: V)
        ensures
            exists|k: RegistryKey| k is Type && #[trigger] final(self).resource_registered(k);

    /// Returns `true` if the resource of type `R` is registered.
    fn has_resource<R: 'static>(&self) -> (r: bool)
        ensures
            exists|k: RegistryKey| k is Type && r == #[trigger] self.resource_registered(k);

    /// Acquires a read-only view of the resource of type `R`.
    fn resource<R: 'static>(&mut self) -> (r: Result<Ref, RegistryError>)
        ensures
            r matches Ok(view) ==> view.spec_key() is Type && final(self).resource_registered(view.spec_key());

    /// Acquires a mutable view of the resource of type `R`.
    fn resource_mut<R: 'static>(&mut self) -> (r: Result<RefMut, RegistryError>)
        ensures
            r matches Ok(view) ==> view.spec_key() is Type && final(self).resource_registered(view.spec_key());
}

/// Registry of entity storages, one per entity type.
pub trait Entities<V> {
    /// Whether key `k` has an entry.
    spec fn entity_registered(&self, k: RegistryKey) -> bool;

    /// Registers `storage` as the storage of entity type `E`; the first registration wins.
    fn register_entity<E: Entity>(&mut self, storage: V)
        ensures
            exists|k: RegistryKey| k is Type && #[trigger] final(self).entity_registered(k);

    /// Returns `true` if entity type `E` is registered.
    fn has_entity<E: Entity>(&self) -> (r: bool)
        ensures
            exists|k: RegistryKey| k is Type && r == #[trigger] self.entity_registered(k);

    /// Acquires a read-only view of the storage of entity type `E`.
    fn entities<E: Entity>(&mut self) -> (r: Result<Ref, RegistryError>)
        ensures
            r matches Ok(view) ==> view.spec_key() is Type && final(self).entity_registered(view.spec_key());

    /// Acquires a mutable view of the storage of entity type `E`.
    fn entities_mut<E: Entity>(&mut self) -> (r: Result<RefMut, RegistryError>)
        ensures
            r matches Ok(view) ==> view.spec_key() is Type && final(self).entity_registered(view.spec_key());
}

/// Registry of component storages, one per pair of entity type and component type.
pub trait Components<V> {
    /// Whether key `k` has an entry.
    spec fn component_registered(&self, k: RegistryKey) -> bool;

    /// Registers `storage` as the storage of component `C` of entity type `E`; the first
    /// registration wins.
    fn register_component<E: Entity, C: Component<E>>(&mut self, storage: V)
        ensures
            exists|k: RegistryKey| k is Type && #[trigger] final(self).component_registered(k);

    /// Returns `true` if component `C` of entity type `E` is registered.
    fn has_component<E: Entity, C: Component<E>>(&self) -> (r: bool)
        ensures
            exists|k: RegistryKey| k is Type && r == #[trigger] self.component_registered(k);

    /// Acquires a read-only view of the storage of component `C` of entity type `E`.
    fn components<E: Entity, C: Component<E>>(&mut self) -> (r: Result<Ref, RegistryError>)
        ensures
            r matches Ok(view) ==> view.spec_key() is Type && final(self).component_registered(view.spec_key());

    /// Acquires a mutable view of the storage of component `C` of entity type `E`.
    fn components_mut<E: Entity, C: Component<E>>(&mut self) -> (r: Result<RefMut, RegistryError>)
        ensures
            r matches Ok(view) ==> view.spec_key() is Type && final(self).component_registered(view.spec_key());
}

impl<V> Resources<V> for Registry<V> {
    open spec fn resource_registered(&self, k: RegistryKey) -> bool {
        self.has(k)
    }

    fn register_resource<R: 'static>(&mut self, value: V) {
        let k = RegistryKey::from_type::<R>();
        self.register(k, value);
        assert(self.resource_registered(k));
    }

    fn has_resource<R: 'static>(&self) -> (r: bool) {
        let k = RegistryKey::from_type::<R>();
        let r = self.contains_key(&k);
        assert(r == self.resource_registered(k));
        r
    }

    fn resource<R: 'static>(&mut self) -> (r: Result<Ref, RegistryError>) {
        let k = RegistryKey::from_type::<R>();
        self.get(&k)
    }

    fn resource_mut<R: 'static>(&mut self) -> (r: Result<RefMut, RegistryError>) {
        let k = RegistryKey::from_type::<R>();
        self.get_mut(&k)
    }
}

impl<V> Entities<V> for Registry<V> {
    open spec fn entity_registered(&self, k: RegistryKey) -> bool {
        self.has(k)
    }

    fn register_entity<E: Entity>(&mut self, storage: V) {
        let k = RegistryKey::from_type::<E>();
        self.register(k, storage);
        assert(self.entity_registered(k));
    }

    fn has_entity<E: Entity>(&self) -> (r: bool) {
        let k = RegistryKey::from_type::<E>();
        let r = self.contains_key(&k);
        assert(r == self.entity_registered(k));
        r
    }

    fn entities<E: Entity>(&mut self) -> (r: Result<Ref, RegistryError>) {
        let k = RegistryKey::from_type::<E>();
        self.get(&k)
    }

    fn entities_mut<E: Entity>(&mut self) -> (r: Result<RefMut, RegistryError>) {
        let k = RegistryKey::from_type::<E>();
        self.get_mut(&k)
    }
}

impl<V> Components<V> for Registry<V> {
    open spec fn component_registered(&self, k: RegistryKey) -> bool {
        self.has(k)
    }

    fn register_component<E: Entity, C: Component<E>>(&mut self, storage: V) {
        let k = RegistryKey::from_type::<(E, C)>();
        self.register(k, storage);
        assert(self.component_registered(k));
    }

    fn has_component<E: Entity, C: Component<E>>(&self) -> (r: bool) {
        let k = RegistryKey::from_type::<(E, C)>();
        let r = self.contains_key(&k);
        assert(r == self.component_registered(k));
        r
    }

    fn components<E: Entity, C: Component<E>>(&mut self) -> (r: Result<Ref, RegistryError>) {
        let k = RegistryKey::from_type::<(E, C)>();
        self.get(&k)
    }

    fn components_mut<E: Entity, C: Component<E>>(&mut self) -> (r: Result<RefMut, RegistryError>) {
        let k = RegistryKey::from_type::<(E, C)>();
        self.get_mut(&k)
    }
}

} // verus!
