use lib::component::component_group::ComponentGroupManager;
use lib::component::ComponentGroup;
use lib::RuntimeError;

#[test]
fn test_component_group() {
    let group = ComponentGroup::create();
    assert!(group.find(0).is_none());
    let mut modify = group.modify();
    assert!(modify.remove(1).is_err());
    modify.insert(1);
    modify.insert(5);
    modify.insert(2);
    modify.insert(3);

    let group = modify.build().unwrap();
    assert!(group.has(1));
    assert!(group.has(2));
    assert!(group.has(3));
    assert!(group.has(5));
    let mut modify = group.modify();
    assert!(modify.remove(3).is_ok());

    let group = modify.build().unwrap();
    assert!(group.has(1));
    assert!(group.has(2));
    assert!(group.has(5));
}

#[test]
fn component_group_build_sorts() {
    let mut modify = ComponentGroup::builder();
    for id in [9usize, 4, 7, 1] {
        modify.insert(id);
    }
    let group = modify.build().unwrap();
    assert_eq!(group.get(), &vec![1usize, 4, 7, 9]);
    assert_eq!(group.find(7), Some(2));
    assert_eq!(group.find(5), None);
    assert!(!group.has(0));
}

#[test]
fn component_group_build_refuses_repeat() {
    let mut modify = ComponentGroup::builder();
    for id in [6usize, 2, 6, 2] {
        modify.insert(id);
    }
    assert_eq!(modify.build().err(), Some(RuntimeError::BadComponentType { ctyid: 2 }));
}

#[test]
fn component_group_compare() {
    let mut a = ComponentGroup::builder();
    a.insert(3);
    a.insert(1);
    let a = a.build().unwrap();
    let mut b = ComponentGroup::builder();
    b.insert(1);
    b.insert(3);
    let b = b.build().unwrap();
    assert!(a.compare(&b));
    assert!(!a.compare(&ComponentGroup::create()));
}

#[test]
fn component_group_manager_registers_once() {
    let mut mgr = ComponentGroupManager::create();
    assert_eq!(mgr.get_null_group_id(), 0);
    let mut m = ComponentGroup::builder();
    m.insert(4);
    let g = m.build().unwrap();
    assert_eq!(mgr.register(g.clone()), Ok(1));
    assert_eq!(mgr.register(g.clone()), Err(RuntimeError::BadComponentGroup { gid: 1 }));
    assert_eq!(mgr.get_id_from_group(&g), Some(1));
    assert_eq!(mgr.get_id_from_group(&ComponentGroup::create()), Some(0));
    assert!(mgr.get(1).unwrap().compare(&g));
    assert_eq!(mgr.get(2).err(), Some(RuntimeError::BadComponentGroup { gid: 2 }));
}

#[test]
fn component_group_build_names_smallest_repeat() {
    let mut modify = ComponentGroup::builder();
    for id in [9usize, 5, 3, 9, 5, 3, 7] {
        modify.insert(id);
    }
    assert_eq!(modify.build().err(), Some(RuntimeError::BadComponentType { ctyid: 3 }));
}
