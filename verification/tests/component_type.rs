use lib::component::component_type::{ComponentTypeEntry, ComponentTypeManager};
use lib::RuntimeError;

#[test]
fn component_type_ids_are_stable() {
    let mut ctymgr = ComponentTypeManager::create();
    assert_eq!(ctymgr.register(ComponentTypeEntry { name: "a".to_string(), size: 1, hash: 5 }), Ok(0));
    assert_eq!(ctymgr.get_id_with_hash(5), Ok(0));
    assert_eq!(ctymgr.register(ComponentTypeEntry { name: "b".to_string(), size: 2, hash: 3 }), Ok(1));
    assert_eq!(ctymgr.get_id_with_hash(5), Ok(0));
    assert_eq!(ctymgr.get_id_with_hash(3), Ok(1));
    assert_eq!(ctymgr.len(), 2);
    assert_eq!(ctymgr.get(1).unwrap().size, 2);
    assert_eq!(ctymgr.get(2).err(), Some(RuntimeError::BadComponentType { ctyid: 2 }));
    assert_eq!(ctymgr.get_id_with_hash(4), Err(RuntimeError::BadComponentTypeHash { hash: 4 }));
    assert_eq!(
        ctymgr.register(ComponentTypeEntry { name: "c".to_string(), size: 1, hash: 5 }),
        Err(RuntimeError::DuplicateComponentTypeHash { hash: 5 })
    );
    assert_eq!(ctymgr.len(), 2);
}
