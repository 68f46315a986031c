use lib::component::component_type::{ComponentTypeEntry, ComponentTypeManager};
use lib::component::locker::LockState;
use lib::component::storage::ArchetypeStorage;
use lib::component::{ComponentGroup, Entity};
use lib::RuntimeError;

fn usize_of(bytes: &[u8]) -> usize {
    usize::from_ne_bytes(bytes.try_into().unwrap())
}

#[test]
fn test_storage() -> Result<(), RuntimeError> {
    let usize_size = std::mem::size_of::<usize>();
    let u8_size = std::mem::size_of::<u8>();

    let mut ctymgr = ComponentTypeManager::create();
    let usize_id = ctymgr.register(ComponentTypeEntry {
        name: "usize".to_string(),
        size: usize_size,
        hash: 0,
    })?;
    let u8_id = ctymgr.register(ComponentTypeEntry {
        name: "u8_size".to_string(),
        size: u8_size,
        hash: 1,
    })?;

    let entity_a = Entity::from_id(1);
    let entity_b = Entity::from_id(69);

    let mut group = ComponentGroup::builder();
    group.insert(usize_id);
    group.insert(u8_id);
    let group = group.build()?;
    let mut storage = ArchetypeStorage::create(&ctymgr, &group)?;

    let mut insert = storage.insert(entity_b)?;
    let data_b_u8 = 8u8;
    let data_b_usize = 10usize;
    assert!(insert.insert(&mut storage, u8_id, &data_b_u8.to_ne_bytes()).is_ok());
    assert!(insert.insert(&mut storage, u8_id, &1u8.to_ne_bytes()).is_err());
    assert!(insert.done(&storage).is_err());
    assert!(insert.insert(&mut storage, usize_id, &data_b_usize.to_ne_bytes()).is_ok());
    assert!(insert.done(&storage).is_ok());
    assert!(storage.insert(entity_b).is_err());

    let mut insert = storage.insert(entity_a)?;
    let data_a_u8 = 9u8;
    let data_a_usize = 12usize;
    assert!(insert.insert(&mut storage, usize_id, &data_a_usize.to_ne_bytes()).is_ok());
    assert!(insert.insert(&mut storage, u8_id, &data_a_u8.to_ne_bytes()).is_ok());
    assert!(insert.done(&storage).is_ok());

    assert_eq!(storage.get(entity_a, u8_id)?[0], data_a_u8);
    assert_eq!(usize_of(storage.get(entity_a, usize_id)?), data_a_usize);
    assert_eq!(storage.get(entity_b, u8_id)?[0], data_b_u8);
    assert_eq!(usize_of(storage.get(entity_b, usize_id)?), data_b_usize);

    assert!(storage.remove(entity_a).is_ok());

    assert!(storage.get(entity_a, u8_id).is_err());
    assert!(storage.get(entity_a, usize_id).is_err());
    assert_eq!(storage.get(entity_b, u8_id)?[0], data_b_u8);
    assert_eq!(usize_of(storage.get(entity_b, usize_id)?), data_b_usize);

    Ok(())
}

fn two_types() -> (ComponentTypeManager, usize, usize) {
    let mut ctymgr = ComponentTypeManager::create();
    let a = ctymgr
        .register(ComponentTypeEntry { name: "a".to_string(), size: 2, hash: 7 })
        .unwrap();
    let b = ctymgr
        .register(ComponentTypeEntry { name: "b".to_string(), size: 1, hash: 9 })
        .unwrap();
    (ctymgr, a, b)
}

#[test]
fn storage_create_refuses_unknown_type() {
    let ctymgr = ComponentTypeManager::create();
    let mut group = ComponentGroup::builder();
    group.insert(3);
    let group = group.build().unwrap();
    assert_eq!(
        ArchetypeStorage::create(&ctymgr, &group).err(),
        Some(RuntimeError::BadComponentType { ctyid: 3 })
    );
}

#[test]
fn storage_insert_incomplete_names_missing() {
    let (ctymgr, a, b) = two_types();
    let mut group = ComponentGroup::builder();
    group.insert(a);
    group.insert(b);
    let group = group.build().unwrap();
    let mut storage = ArchetypeStorage::create(&ctymgr, &group).unwrap();
    let mut insert = storage.insert(Entity::from_id(4)).unwrap();
    insert.insert(&mut storage, b, &[5u8]).unwrap();
    assert_eq!(
        insert.done(&storage),
        Err(RuntimeError::ArchetypeStorageInsertIncomplete { missing: vec![a] })
    );
}

#[test]
fn storage_remove_moves_last_entity() {
    let (ctymgr, a, _) = two_types();
    let mut group = ComponentGroup::builder();
    group.insert(a);
    let group = group.build().unwrap();
    let mut storage = ArchetypeStorage::create(&ctymgr, &group).unwrap();
    for (id, v) in [(1usize, [1u8, 2u8]), (2, [3, 4]), (3, [5, 6])] {
        let mut ins = storage.insert(Entity::from_id(id)).unwrap();
        ins.insert(&mut storage, a, &v).unwrap();
        ins.done(&storage).unwrap();
    }
    assert_eq!(storage.get_iter_count(), 3);
    storage.remove(Entity::from_id(1)).unwrap();
    assert_eq!(storage.get_iter_count(), 2);
    assert_eq!(storage.get_iter_entity(0), Entity::from_id(3));
    assert_eq!(storage.get_iter_entity(1), Entity::from_id(2));
    assert_eq!(storage.get_iter(a).unwrap().unwrap(), &[5u8, 6, 3, 4][..]);
    assert_eq!(storage.remove(Entity::from_id(1)), Err(RuntimeError::BadEntity { e: Entity::from_id(1) }));
}

#[test]
fn storage_locks_columns() {
    let (ctymgr, a, b) = two_types();
    let mut group = ComponentGroup::builder();
    group.insert(a);
    let group = group.build().unwrap();
    let mut storage = ArchetypeStorage::create(&ctymgr, &group).unwrap();
    assert_eq!(storage.lock_component(a, LockState::Shared), Ok(true));
    assert_eq!(storage.lock_component(a, LockState::Exclusive), Ok(false));
    assert_eq!(storage.unlock_component(a, LockState::Shared), Ok(()));
    assert_eq!(storage.lock_component(a, LockState::Exclusive), Ok(true));
    assert_eq!(storage.lock_component(b, LockState::Shared), Err(RuntimeError::BadComponentType { ctyid: b }));
    assert_eq!(storage.get_iter(b), Ok(None));
}

#[test]
fn storage_copy_entity_moves_components() {
    let (ctymgr, a, b) = two_types();
    let mut g1 = ComponentGroup::builder();
    g1.insert(a);
    let g1 = g1.build().unwrap();
    let mut g2 = ComponentGroup::builder();
    g2.insert(a);
    g2.insert(b);
    let g2 = g2.build().unwrap();
    let mut src = ArchetypeStorage::create(&ctymgr, &g1).unwrap();
    let mut dst = ArchetypeStorage::create(&ctymgr, &g2).unwrap();
    let e = Entity::from_id(11);
    let mut ins = src.insert(e).unwrap();
    ins.insert(&mut src, a, &[7u8, 8u8]).unwrap();
    ins.done(&src).unwrap();

    let mut ins = ArchetypeStorage::copy_entity(&mut src, &mut dst, e).unwrap();
    assert!(ins.done(&dst).is_err());
    ins.insert(&mut dst, b, &[9u8]).unwrap();
    assert!(ins.done(&dst).is_ok());
    assert_eq!(dst.get(e, a).unwrap(), &[7u8, 8u8][..]);
    assert_eq!(dst.get(e, b).unwrap(), &[9u8][..]);
    // The source keeps the entity and its components until it is removed there.
    assert_eq!(src.get_iter(a).unwrap().unwrap(), &[7u8, 8u8][..]);
    assert_eq!(src.get_iter_count(), 1);
    src.remove(e).unwrap();
    assert_eq!(src.get_iter(a).unwrap().unwrap().len(), 0);
    assert_eq!(src.get_iter_count(), 0);
}

#[test]
fn storage_copy_entity_leaves_types_the_destination_lacks() {
    let (ctymgr, a, b) = two_types();
    let mut g1 = ComponentGroup::builder();
    g1.insert(a);
    g1.insert(b);
    let g1 = g1.build().unwrap();
    let mut g2 = ComponentGroup::builder();
    g2.insert(a);
    let g2 = g2.build().unwrap();
    let mut src = ArchetypeStorage::create(&ctymgr, &g1).unwrap();
    let mut dst = ArchetypeStorage::create(&ctymgr, &g2).unwrap();
    let e = Entity::from_id(4);
    let mut ins = src.insert(e).unwrap();
    ins.insert(&mut src, a, &[1u8, 2u8]).unwrap();
    ins.insert(&mut src, b, &[3u8]).unwrap();
    ins.done(&src).unwrap();
    let ins = ArchetypeStorage::copy_entity(&mut src, &mut dst, e).unwrap();
    assert!(ins.done(&dst).is_ok());
    assert_eq!(dst.get(e, a).unwrap(), &[1u8, 2u8][..]);
    assert_eq!(dst.get(e, b), Err(RuntimeError::BadComponentType { ctyid: b }));
}
