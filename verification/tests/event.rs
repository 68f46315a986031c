use lib::data::TVal;
use lib::event::{EventInsert, EventManager, EventStorage, EventTypeEntry};
use lib::RuntimeError;

#[test]
fn event_flush_queues_inserted_events() {
    let mut evmgr = EventManager::create();
    evmgr.register(EventTypeEntry { size: 2, name: "ev".to_string(), hash: 5 }).unwrap();
    assert_eq!(
        evmgr.register(EventTypeEntry { size: 2, name: "ev".to_string(), hash: 5 }),
        Err(RuntimeError::DuplicateEventTypeHash { hash: 5 })
    );
    let mut ins = EventInsert::create();
    ins.insert(5, TVal::create(2, &[1u8, 2u8]));
    ins.insert(5, TVal::create(2, &[3u8, 4u8]));
    assert_eq!(evmgr.get_event_count(5), Ok(0));
    evmgr.flush(&mut ins).unwrap();
    assert_eq!(evmgr.get_event_count(5), Ok(2));
    assert_eq!(evmgr.get_event(5, 1), Ok(&[3u8, 4u8][..]));
    assert_eq!(evmgr.get_event(5, 2), Err(RuntimeError::BadEventStorageGetIndex { idx: 2 }));
    let mut empty = EventInsert::create();
    evmgr.flush(&mut empty).unwrap();
    assert_eq!(evmgr.get_event_count(5), Ok(0));
}

#[test]
fn event_flush_stops_at_unknown_type() {
    let mut evmgr = EventManager::create();
    evmgr.register(EventTypeEntry { size: 1, name: "a".to_string(), hash: 1 }).unwrap();
    let mut ins = EventInsert::create();
    ins.insert(1, TVal::create(1, &[9u8]));
    ins.insert(2, TVal::create(1, &[8u8]));
    assert_eq!(evmgr.flush(&mut ins), Err(RuntimeError::BadEventTypeHash { hash: 2 }));
    assert_eq!(evmgr.get_event_count(1), Ok(1));
    assert_eq!(evmgr.get_event_count(2), Err(RuntimeError::BadEventTypeHash { hash: 2 }));
    assert_eq!(evmgr.get(1).unwrap().name, "a");
    assert!(evmgr.get(3).is_err());
    assert_eq!(evmgr.get_event(3, 0), Err(RuntimeError::BadEventTypeHash { hash: 3 }));
}

#[test]
fn event_storage_push_get_flush() {
    let mut st = EventStorage::create(3);
    st.push(&[1u8, 2, 3, 4]);
    st.push(&[5u8, 6, 7]);
    assert_eq!(st.len(), 2);
    assert_eq!(st.get(0), Ok(&[1u8, 2, 3][..]));
    st.flush();
    assert_eq!(st.len(), 0);
    assert_eq!(st.get(0), Err(RuntimeError::BadEventStorageGetIndex { idx: 0 }));
}

#[test]
fn event_flush_keeps_each_type_in_order() {
    let mut evmgr = EventManager::create();
    evmgr.register(EventTypeEntry { size: 1, name: "a".to_string(), hash: 10 }).unwrap();
    evmgr.register(EventTypeEntry { size: 2, name: "b".to_string(), hash: 20 }).unwrap();
    let mut ins = EventInsert::create();
    ins.insert(10, TVal::create(1, &[1u8]));
    ins.insert(20, TVal::create(2, &[2u8, 3u8]));
    ins.insert(10, TVal::create(1, &[4u8]));
    evmgr.flush(&mut ins).unwrap();
    assert_eq!(evmgr.get_event_count(10), Ok(2));
    assert_eq!(evmgr.get_event(10, 0), Ok(&[1u8][..]));
    assert_eq!(evmgr.get_event(10, 1), Ok(&[4u8][..]));
    assert_eq!(evmgr.get_event_count(20), Ok(1));
    assert_eq!(evmgr.get_event(20, 0), Ok(&[2u8, 3u8][..]));
}

#[test]
fn event_of_size_zero_counts_none() {
    let mut evmgr = EventManager::create();
    evmgr.register(EventTypeEntry { size: 0, name: "marker".to_string(), hash: 7 }).unwrap();
    let mut ins = EventInsert::create();
    ins.insert(7, TVal::create(0, &[]));
    evmgr.flush(&mut ins).unwrap();
    assert_eq!(evmgr.get_event_count(7), Ok(0));
    let st = EventStorage::create(0);
    assert_eq!(st.len(), 0);
}
