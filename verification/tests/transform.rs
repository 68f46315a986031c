use lib::component::component_type::{ComponentTypeEntry, ComponentTypeManager};
use lib::component::transform::{EntityModify, EntityModifyBuilder, EntityTransformBuilder, EntityTransformer};
use lib::component::Entity;
use lib::data::TVal;
use lib::RuntimeError;

#[test]
fn transform_build_resolves_hashes() {
    let mut ctymgr = ComponentTypeManager::create();
    ctymgr.register(ComponentTypeEntry { name: "a".to_string(), size: 1, hash: 11 }).unwrap();
    ctymgr.register(ComponentTypeEntry { name: "b".to_string(), size: 1, hash: 22 }).unwrap();
    let e = Entity::from_id(2);
    let mut b = EntityTransformBuilder::create(EntityModifyBuilder::Modify(e));
    b.insert(22, TVal::create(1, &[7u8]));
    b.remove(11);
    let t = b.build(&ctymgr).unwrap();
    assert_eq!(t.get_modify(), EntityModify::Modify(e));
    assert_eq!(t.get_inserts().len(), 1);
    assert_eq!(t.get_inserts()[0].0, 1);
    assert_eq!(t.get_inserts()[0].1.get(), &[7u8][..]);
    assert_eq!(t.get_removes(), &vec![0usize]);

    let mut b = EntityTransformBuilder::create(EntityModifyBuilder::Destroy(e));
    b.remove(33);
    assert_eq!(b.build(&ctymgr).err(), Some(RuntimeError::BadComponentTypeHash { hash: 33 }));
}

#[test]
fn transform_builder_modify_can_be_filled_in() {
    let ctymgr = ComponentTypeManager::create();
    let mut b = EntityTransformBuilder::create(EntityModifyBuilder::Create(None));
    *b.get_mut_modify() = EntityModifyBuilder::Create(Some(Entity::from_id(9)));
    let t = b.build(&ctymgr).unwrap();
    assert_eq!(t.get_modify(), EntityModify::Create(Entity::from_id(9)));
}

#[test]
fn transformer_hands_out_transforms() {
    let mut tr = EntityTransformer::create();
    assert!(tr.get().is_none());
    tr.insert(EntityTransformBuilder::create(EntityModifyBuilder::Destroy(Entity::from_id(1))));
    tr.insert(EntityTransformBuilder::create(EntityModifyBuilder::Destroy(Entity::from_id(2))));
    assert!(tr.get().is_some());
    assert!(tr.get().is_some());
    assert!(tr.get().is_none());
}
