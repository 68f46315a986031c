use lib::component::locker::{LockState, Locker, EXCLUSIVE_STATE, OPEN_STATE};

#[test]
fn test_locker() {
    let mut locker = Locker::create();

    assert_eq!(locker.try_obtain_lock(LockState::Exclusive), true);
    assert_eq!(locker.try_obtain_lock(LockState::Exclusive), false);
    assert_eq!(locker.try_obtain_lock(LockState::Shared), false);
    locker.release_lock(LockState::Exclusive);
    assert_eq!(locker.get_state(), OPEN_STATE);

    assert_eq!(locker.try_obtain_lock(LockState::Shared), true);
    assert_eq!(locker.try_obtain_lock(LockState::Shared), true);
    assert_eq!(locker.try_obtain_lock(LockState::Shared), true);
    assert_eq!(locker.try_obtain_lock(LockState::Exclusive), false);
    assert_eq!(locker.get_state(), 3u8);
    locker.release_lock(LockState::Shared);
    locker.release_lock(LockState::Shared);
    locker.release_lock(LockState::Shared);
    assert_eq!(locker.get_state(), OPEN_STATE);
}

#[test]
fn locker_exclusive_state_value() {
    let mut locker = Locker::create();
    assert!(locker.try_obtain_lock(LockState::Exclusive));
    assert_eq!(locker.get_state(), EXCLUSIVE_STATE);
}

#[test]
fn locker_release_undoes_obtain() {
    let mut locker = Locker::create();
    assert!(locker.try_obtain_lock(LockState::Shared));
    let before = locker.get_state();
    assert!(locker.try_obtain_lock(LockState::Shared));
    locker.release_lock(LockState::Shared);
    assert_eq!(locker.get_state(), before);
}

#[test]
fn locker_refused_obtain_changes_nothing() {
    let mut locker = Locker::create();
    assert!(locker.try_obtain_lock(LockState::Shared));
    assert!(!locker.try_obtain_lock(LockState::Exclusive));
    assert_eq!(locker.get_state(), 1u8);
}

#[test]
fn locker_shared_count_stops_below_exclusive() {
    let mut locker = Locker::create();
    for _ in 0..254 {
        assert!(locker.try_obtain_lock(LockState::Shared));
    }
    assert_eq!(locker.get_state(), 254u8);
    assert!(!locker.try_obtain_lock(LockState::Shared));
    assert_eq!(locker.get_state(), 254u8);
    assert!(!locker.try_obtain_lock(LockState::Exclusive));
}
