//! Entity, component and resource registry.

pub mod archetype;
pub mod entity_component;
pub mod registry;

pub use archetype::{Archetype, RegisterArchetype};
pub use entity_component::{
    Component, ComponentStorage, Components, Entities, Entity, EntityId, EntityStorage, Resources,
};
pub use registry::{Ref, RefMut, Registry, RegistryError, RegistryKey};
