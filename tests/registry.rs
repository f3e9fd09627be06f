use muds::collections::{GenIndexArena, GenIndexVecMap};
use muds::ecs::{
    Archetype, Component, Components, Entities, Entity, RegisterArchetype, Registry, RegistryError,
    RegistryKey, Resources,
};
use muds::IndexU64;

#[test]
fn register_first_wins() {
    let mut registry = Registry::<u32>::new();
    let key = RegistryKey::from_type::<u32>();
    registry.register(key, 1);
    registry.register(key, 2);
    assert!(registry.contains_key(&key));
    assert_eq!(registry.data().len(), 1);
    let view = registry.get(&key).unwrap();
    assert_eq!(*registry.read(&view).unwrap(), 1);
    registry.release(view);
}

#[test]
fn mutable_view_writes_value() {
    let mut registry = Registry::<u32>::new();
    let key = RegistryKey::from_id(7);
    registry.register(key, 1);
    let view = registry.get_mut(&key).unwrap();
    *registry.write(&view).unwrap() = 2;
    registry.release_mut(view);
    let view = registry.get(&key).unwrap();
    assert_eq!(*registry.read(&view).unwrap(), 2);
}

#[test]
fn unregistered_key_is_refused() {
    let mut registry = Registry::<u32>::new();
    let key = RegistryKey::from_type::<i64>();
    assert_eq!(registry.get(&key).err(), Some(RegistryError::NotRegistered));
    assert_eq!(registry.get_mut(&key).err(), Some(RegistryError::NotRegistered));
}

#[test]
fn aliasing_is_enforced_per_entry() {
    let mut registry = Registry::<u32>::new();
    let a = RegistryKey::from_id(1);
    let b = RegistryKey::from_id(2);
    registry.register(a, 10);
    registry.register(b, 20);

    let read_a = registry.get(&a).unwrap();
    assert_eq!(registry.get_mut(&a).err(), Some(RegistryError::AlreadyBorrowed));
    let second_read = registry.get(&a).unwrap();
    let write_b = registry.get_mut(&b).unwrap();
    assert_eq!(registry.get(&b).err(), Some(RegistryError::AlreadyBorrowed));
    assert_eq!(registry.get_mut(&b).err(), Some(RegistryError::AlreadyBorrowed));
    registry.release(read_a);
    registry.release(second_read);
    let write_a = registry.get_mut(&a).unwrap();
    registry.release_mut(write_a);
    registry.release_mut(write_b);
    assert!(registry.get_mut(&b).is_ok());
}

#[test]
fn released_view_reads_nothing() {
    let mut registry = Registry::<u32>::new();
    let a = RegistryKey::from_id(1);
    registry.register(a, 10);
    let view = registry.get(&a).unwrap();
    let again = registry.get(&a).unwrap();
    registry.release(view);
    assert_eq!(registry.read(&again), Some(&10));
    registry.release(again);
    let stale = registry.get(&a).unwrap();
    registry.release(stale);
}

struct Player;
impl Entity for Player {}
struct Pos;
impl Component<Player> for Pos {}
struct Score;
struct Npc;
impl Entity for Npc {}

#[test]
fn typed_facades_use_distinct_keys() {
    let mut registry = Registry::<u32>::new();
    registry.register_resource::<Score>(5);
    registry.register_entity::<Player>(1);
    registry.register_component::<Player, Pos>(2);
    assert!(registry.has_resource::<Score>());
    assert!(registry.has_entity::<Player>());
    assert!(registry.has_component::<Player, Pos>());
    assert!(!registry.has_entity::<Npc>());
    let r = registry.resource::<Score>().unwrap();
    assert_eq!(*registry.read(&r).unwrap(), 5);
    let e = registry.entities::<Player>().unwrap();
    assert_eq!(*registry.read(&e).unwrap(), 1);
    let c = registry.components_mut::<Player, Pos>().unwrap();
    *registry.write(&c).unwrap() = 3;
    assert!(registry.entities_mut::<Player>().is_err());
    assert!(registry.resource_mut::<Score>().is_err());
    assert!(registry.components::<Player, Pos>().is_err());
}

#[test]
fn archetype_teardown_clears_every_component() {
    let mut registry = Registry::<GenIndexVecMap<u32, IndexU64>>::new();
    let mut handles = GenIndexArena::<(), IndexU64>::new();
    let entity_key = RegistryKey::from_id(0);
    let pos_key = RegistryKey::from_id(1);
    let vel_key = RegistryKey::from_id(2);
    let archetype: Archetype = registry.register_archetype(
        entity_key,
        GenIndexVecMap::new(),
        vec![(pos_key, GenIndexVecMap::new()), (vel_key, GenIndexVecMap::new())],
    );
    assert_eq!(archetype.components(), &vec![pos_key, vel_key]);

    let eid = handles.insert(());
    let other = handles.insert(());
    for key in [entity_key, pos_key, vel_key] {
        let view = registry.get_mut(&key).unwrap();
        let storage = registry.write(&view).unwrap();
        storage.insert(eid, 1);
        storage.insert(other, 2);
        registry.release_mut(view);
    }

    assert!(archetype.remove(&mut registry, &eid).is_ok());
    for key in [entity_key, pos_key, vel_key] {
        let view = registry.get(&key).unwrap();
        let storage = registry.read(&view).unwrap();
        assert!(storage.get(&eid).is_none());
        assert_eq!(storage.get(&other), Some(&2));
        registry.release(view);
    }
}

#[test]
fn archetype_teardown_refused_while_viewed() {
    let mut registry = Registry::<GenIndexVecMap<u32, IndexU64>>::new();
    let entity_key = RegistryKey::from_id(0);
    let pos_key = RegistryKey::from_id(1);
    let archetype = registry.register_archetype(entity_key, GenIndexVecMap::new(), vec![(pos_key, GenIndexVecMap::new())]);
    let held = registry.get(&pos_key).unwrap();
    let mut handles = GenIndexArena::<(), IndexU64>::new();
    let eid = handles.insert(());
    assert_eq!(archetype.remove(&mut registry, &eid), Err(RegistryError::AlreadyBorrowed));
    registry.release(held);
    assert!(archetype.remove(&mut registry, &eid).is_ok());
}
