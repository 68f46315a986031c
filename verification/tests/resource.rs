use lib::data::TVal;
use lib::resource::{ResourceManager, ResourceTypeEntry};
use lib::RuntimeError;

#[test]
fn resource_register_set_get() {
    let mut rcmgr = ResourceManager::create();
    rcmgr.register(ResourceTypeEntry { name: "r".to_string(), hash: 77 }).unwrap();
    assert_eq!(
        rcmgr.register(ResourceTypeEntry { name: "r".to_string(), hash: 77 }),
        Err(RuntimeError::DuplicateResourceTypeHash { hash: 77 })
    );
    assert!(rcmgr.locked_get(77).unwrap().is_none());
    *rcmgr.locked_get_mut(77).unwrap() = Some(TVal::create(1, &[3u8]));
    assert_eq!(rcmgr.locked_get(77).unwrap().as_ref().unwrap().get(), &[3u8][..]);
    assert_eq!(rcmgr.get_type(77).unwrap().name, "r");
    assert!(rcmgr.get_type(1).is_err());
    assert!(rcmgr.locked_get(1).is_err());
    assert!(rcmgr.locked_get_mut(1).is_err());
}
