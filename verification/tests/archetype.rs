use lib::component::component_type::{ComponentTypeEntry, ComponentTypeManager};
use lib::component::query::{ComponentGroupQuery, ComponentQueryAccessType, ComponentQueryFilterType};
use lib::component::transform::{EntityModifyBuilder, EntityTransformBuilder};
use lib::component::{ArchetypeManager, Entity};
use lib::data::TVal;
use lib::RuntimeError;

#[test]
fn test_archetype_transform() -> Result<(), RuntimeError> {
    let mut ctymgr = ComponentTypeManager::create();

    let size_u8 = std::mem::size_of::<u8>();
    let size_f32 = std::mem::size_of::<f32>();

    let _comp_u8 = ctymgr.register(ComponentTypeEntry {
        name: "u8".to_string(),
        size: std::mem::size_of::<u8>(),
        hash: 0,
    })?;
    let _comp_f32 = ctymgr.register(ComponentTypeEntry {
        name: "f32".to_string(),
        size: std::mem::size_of::<f32>(),
        hash: 1,
    })?;

    let entity_a = Entity::from_id(10);
    let entity_b = Entity::from_id(24);

    let mut archetype = ArchetypeManager::create();
    archetype.insert_entity(entity_a)?;

    let mut entity_transform =
        EntityTransformBuilder::create(EntityModifyBuilder::Modify(entity_a));
    entity_transform.insert(0, TVal::create(size_u8, &10u8.to_ne_bytes()));
    archetype.transform_entity(entity_transform.build(&ctymgr)?, &ctymgr)?;

    let mut entity_transform =
        EntityTransformBuilder::create(EntityModifyBuilder::Create(Some(entity_b)));
    entity_transform.insert(0, TVal::create(size_u8, &12u8.to_ne_bytes()));
    entity_transform.insert(1, TVal::create(size_f32, &8.5f32.to_ne_bytes()));
    archetype.transform_entity(entity_transform.build(&ctymgr)?, &ctymgr)?;

    let entity_transform = EntityTransformBuilder::create(EntityModifyBuilder::Destroy(entity_b));
    archetype.transform_entity(entity_transform.build(&ctymgr)?, &ctymgr)?;
    let entity_transform = EntityTransformBuilder::create(EntityModifyBuilder::Destroy(entity_b));
    assert!(archetype
        .transform_entity(entity_transform.build(&ctymgr)?, &ctymgr)
        .is_err());

    Ok(())
}

fn two_types() -> ComponentTypeManager {
    let mut ctymgr = ComponentTypeManager::create();
    ctymgr.register(ComponentTypeEntry { name: "x".to_string(), size: 1, hash: 100 }).unwrap();
    ctymgr.register(ComponentTypeEntry { name: "y".to_string(), size: 2, hash: 200 }).unwrap();
    ctymgr
}

#[test]
fn archetype_transform_places_components() {
    let ctymgr = two_types();
    let mut amgr = ArchetypeManager::create();
    let e = Entity::from_id(3);
    let mut t = EntityTransformBuilder::create(EntityModifyBuilder::Create(Some(e)));
    t.insert(200, TVal::create(2, &[4u8, 5u8]));
    t.insert(100, TVal::create(1, &[6u8]));
    amgr.transform_entity(t.build(&ctymgr).unwrap(), &ctymgr).unwrap();
    assert_eq!(amgr.find_component(0, e), &[6u8][..]);
    assert_eq!(amgr.find_component(1, e), &[4u8, 5u8][..]);
}

#[test]
fn archetype_transform_refuses_unknown_entity() {
    let ctymgr = two_types();
    let mut amgr = ArchetypeManager::create();
    let e = Entity::from_id(8);
    let mut t = EntityTransformBuilder::create(EntityModifyBuilder::Modify(e));
    t.insert(100, TVal::create(1, &[1u8]));
    assert_eq!(
        amgr.transform_entity(t.build(&ctymgr).unwrap(), &ctymgr),
        Err(RuntimeError::BadEntity { e })
    );
}

#[test]
fn archetype_transform_refuses_duplicate_component() {
    let ctymgr = two_types();
    let mut amgr = ArchetypeManager::create();
    let e = Entity::from_id(8);
    amgr.insert_entity(e).unwrap();
    let mut t = EntityTransformBuilder::create(EntityModifyBuilder::Modify(e));
    t.insert(100, TVal::create(1, &[1u8]));
    t.insert(100, TVal::create(1, &[2u8]));
    assert_eq!(
        amgr.transform_entity(t.build(&ctymgr).unwrap(), &ctymgr),
        Err(RuntimeError::BadComponentType { ctyid: 0 })
    );
}

#[test]
fn archetype_transform_refuses_missing_remove() {
    let ctymgr = two_types();
    let mut amgr = ArchetypeManager::create();
    let e = Entity::from_id(8);
    amgr.insert_entity(e).unwrap();
    let mut t = EntityTransformBuilder::create(EntityModifyBuilder::Modify(e));
    t.remove(200);
    assert_eq!(
        amgr.transform_entity(t.build(&ctymgr).unwrap(), &ctymgr),
        Err(RuntimeError::BadComponentType { ctyid: 1 })
    );
}

#[test]
fn archetype_transform_without_change_is_refused() {
    let ctymgr = two_types();
    let mut amgr = ArchetypeManager::create();
    let e = Entity::from_id(8);
    amgr.insert_entity(e).unwrap();
    let t = EntityTransformBuilder::create(EntityModifyBuilder::Modify(e));
    assert_eq!(
        amgr.transform_entity(t.build(&ctymgr).unwrap(), &ctymgr),
        Err(RuntimeError::BadEntity { e })
    );
}

#[test]
fn archetype_insert_entity_twice_is_refused() {
    let mut amgr = ArchetypeManager::create();
    let e = Entity::from_id(5);
    assert_eq!(amgr.insert_entity(e), Ok(()));
    assert_eq!(amgr.insert_entity(e), Err(RuntimeError::BadEntity { e }));
    assert_eq!(amgr.remove_entity(e), Ok(()));
    assert_eq!(amgr.remove_entity(e), Err(RuntimeError::BadEntity { e }));
}

#[test]
fn archetype_access_locks_and_releases() {
    let ctymgr = two_types();
    let mut amgr = ArchetypeManager::create();
    let mut q = ComponentGroupQuery::create();
    q.add_access(0, ComponentQueryAccessType::Write);
    let write_key = amgr.create_archetype_access_key(q).unwrap();
    let mut q = ComponentGroupQuery::create();
    q.add_access(0, ComponentQueryAccessType::Read);
    q.add_filter(1, ComponentQueryFilterType::Without);
    let read_key = amgr.create_archetype_access_key(q).unwrap();

    let e = Entity::from_id(1);
    let mut t = EntityTransformBuilder::create(EntityModifyBuilder::Create(Some(e)));
    t.insert(100, TVal::create(1, &[42u8]));
    amgr.transform_entity(t.build(&ctymgr).unwrap(), &ctymgr).unwrap();

    assert_eq!(amgr.get_access_count(write_key), 1);
    assert_eq!(amgr.get_access_count(read_key), 1);
    {
        let access = amgr.try_access(write_key, 0).unwrap().unwrap();
        assert_eq!(access.get_iter_count(), 1);
        assert_eq!(access.get_iter_entity(0), e);
        assert_eq!(access.get_iter(0).unwrap(), Some(&[42u8][..]));
    }
    assert!(amgr.try_access(read_key, 0).unwrap().is_none());
    let t = EntityTransformBuilder::create(EntityModifyBuilder::Destroy(e));
    assert_eq!(
        amgr.transform_entity(t.build(&ctymgr).unwrap(), &ctymgr),
        Err(RuntimeError::ArchetypeStorageLocked)
    );
    amgr.release_access(write_key, 0).unwrap();
    assert!(amgr.try_access(read_key, 0).unwrap().is_some());
    amgr.release_access(read_key, 0).unwrap();
    assert_eq!(
        amgr.try_access(read_key, 1).err(),
        Some(RuntimeError::BadArchetypeManagerAccessIndex { idx: 1, max: 1 })
    );
    assert_eq!(amgr.try_access(9, 0).err(), Some(RuntimeError::BadArchetypeAccessKey { akid: 9 }));
}

#[test]
fn archetype_destroyed_last_entity_stays_gone() {
    let ctymgr = two_types();
    let mut archetype = ArchetypeManager::create();
    let a = Entity::from_id(0);
    let b = Entity::from_id(1);
    let c = Entity::from_id(2);
    archetype.insert_entity(a).unwrap();
    archetype.insert_entity(b).unwrap();
    archetype.remove_entity(b).unwrap();
    archetype.insert_entity(c).unwrap();
    assert_eq!(archetype.remove_entity(b), Err(RuntimeError::BadEntity { e: b }));
    let destroy = EntityTransformBuilder::create(EntityModifyBuilder::Destroy(b));
    assert!(archetype.transform_entity(destroy.build(&ctymgr).unwrap(), &ctymgr).is_err());
    archetype.remove_entity(c).unwrap();
    archetype.remove_entity(a).unwrap();
}

#[test]
fn archetype_modify_keeps_other_entities() {
    let ctymgr = two_types();
    let mut amgr = ArchetypeManager::create();
    let a = Entity::from_id(1);
    let b = Entity::from_id(2);
    let c = Entity::from_id(3);
    for (e, v) in [(a, 10u8), (b, 20u8), (c, 30u8)] {
        let mut t = EntityTransformBuilder::create(EntityModifyBuilder::Create(Some(e)));
        t.insert(100, TVal::create(1, &[v]));
        amgr.transform_entity(t.build(&ctymgr).unwrap(), &ctymgr).unwrap();
    }
    // Move `a` into the group of both types.
    let mut t = EntityTransformBuilder::create(EntityModifyBuilder::Modify(a));
    t.insert(200, TVal::create(2, &[7u8, 8u8]));
    amgr.transform_entity(t.build(&ctymgr).unwrap(), &ctymgr).unwrap();
    assert_eq!(amgr.find_component(0, a), &[10u8][..]);
    assert_eq!(amgr.find_component(1, a), &[7u8, 8u8][..]);
    assert_eq!(amgr.find_component(0, b), &[20u8][..]);
    assert_eq!(amgr.find_component(0, c), &[30u8][..]);
    // And `c` after it.
    let mut t = EntityTransformBuilder::create(EntityModifyBuilder::Modify(c));
    t.insert(200, TVal::create(2, &[9u8, 9u8]));
    amgr.transform_entity(t.build(&ctymgr).unwrap(), &ctymgr).unwrap();
    assert_eq!(amgr.find_component(0, a), &[10u8][..]);
    assert_eq!(amgr.find_component(1, a), &[7u8, 8u8][..]);
    assert_eq!(amgr.find_component(0, b), &[20u8][..]);
    assert_eq!(amgr.find_component(0, c), &[30u8][..]);
    assert_eq!(amgr.find_component(1, c), &[9u8, 9u8][..]);
    // Removing a component moves `a` back, keeping its other one.
    let mut t = EntityTransformBuilder::create(EntityModifyBuilder::Modify(a));
    t.remove(200);
    amgr.transform_entity(t.build(&ctymgr).unwrap(), &ctymgr).unwrap();
    assert_eq!(amgr.find_component(0, a), &[10u8][..]);
    assert_eq!(amgr.find_component(0, c), &[30u8][..]);
    assert_eq!(amgr.find_component(1, c), &[9u8, 9u8][..]);
}

#[test]
fn archetype_create_with_marker_component() {
    let mut ctymgr = ComponentTypeManager::create();
    ctymgr.register(ComponentTypeEntry { name: "marker".to_string(), size: 0, hash: 1 }).unwrap();
    ctymgr.register(ComponentTypeEntry { name: "x".to_string(), size: 1, hash: 2 }).unwrap();
    let mut amgr = ArchetypeManager::create();
    let e = Entity::from_id(9);
    let mut t = EntityTransformBuilder::create(EntityModifyBuilder::Create(Some(e)));
    t.insert(1, TVal::create(0, &[]));
    t.insert(2, TVal::create(1, &[5u8]));
    amgr.transform_entity(t.build(&ctymgr).unwrap(), &ctymgr).unwrap();
    assert_eq!(amgr.entity_types(e), Some(&vec![0usize, 1usize]));
    assert_eq!(amgr.find_component(1, e), &[5u8][..]);
}

#[test]
fn archetype_modify_replacing_a_component_is_refused() {
    let ctymgr = two_types();
    let mut amgr = ArchetypeManager::create();
    let e = Entity::from_id(2);
    let mut t = EntityTransformBuilder::create(EntityModifyBuilder::Create(Some(e)));
    t.insert(100, TVal::create(1, &[1u8]));
    amgr.transform_entity(t.build(&ctymgr).unwrap(), &ctymgr).unwrap();
    let mut t = EntityTransformBuilder::create(EntityModifyBuilder::Modify(e));
    t.remove(100);
    t.insert(100, TVal::create(1, &[2u8]));
    t.insert(200, TVal::create(2, &[3u8, 4u8]));
    assert_eq!(
        amgr.transform_entity(t.build(&ctymgr).unwrap(), &ctymgr),
        Err(RuntimeError::BadComponentType { ctyid: 0 })
    );
}
