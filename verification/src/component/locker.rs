use vstd::prelude::*;

verus! {

/// How a component column is held: shared by readers or held by one writer.
#[derive(Debug, Clone, Copy, PartialEq, Eq, PartialOrd, Ord, Structural)]
pub enum LockState {
    Shared,
    Exclusive,
}

/// The state of an open lock.
pub const OPEN_STATE: u8 = 0u8;

/// The state of a lock held by one writer.
pub const EXCLUSIVE_STATE: u8 = 255u8;

/// A reader-writer lock state: 0 is open, 255 is held exclusively, and any
/// other value counts the readers sharing it.
#[derive(Debug)]
pub struct Locker {
    lock: u8,
}

/// The state after trying to take the lock in `state`, and whether it was taken.
/// A shared take is refused while a writer holds the lock, and also when the
/// count of readers would reach the value that stands for a writer.
pub open spec fn obtain(lock: u8, state: LockState) -> (u8, bool) {
    match state {
        LockState::Exclusive => if lock == OPEN_STATE {
            (EXCLUSIVE_STATE, true)
        } else {
            (lock, false)
        },
        LockState::Shared => if lock >= EXCLUSIVE_STATE - 1 {
            (lock, false)
        } else {
            ((lock + 1) as u8, true)
        },
    }
}

/// The state after releasing a hold in `state`: a reader leaves, or the
/// writer's 255 wraps around to open. Counts wrap modulo 256.
pub open spec fn release(lock: u8, state: LockState) -> u8 {
    match state {
        LockState::Shared => ((lock as int - 1) % 256) as u8,
        LockState::Exclusive => ((lock as int + 1) % 256) as u8,
    }
}

impl Locker {
    /// The current state of the lock.
    pub closed spec fn state(&self) -> u8 {
        self.lock
    }

    pub fn create() -> (l: Self)
        ensures
            l.state() == OPEN_STATE,
    {
        Locker { lock: OPEN_STATE }
    }

    /// Takes the lock in `state` if it can be had now.
    pub fn try_obtain_lock(&mut self, state: LockState) -> (r: bool)
        ensures
            (final(self).state(), r) == obtain(old(self).state(), state),
    {
        match state {
            LockState::Exclusive => {
                if self.lock == OPEN_STATE {
                    self.lock = EXCLUSIVE_STATE;
                    true
                } else {
                    false
                }
            },
            LockState::Shared => {
                let val = self.lock;
                if val >= EXCLUSIVE_STATE - 1 {
                    return false;
                }
                self.lock = val + 1;
                true
            },
        }
    }

    /// Gives up a hold taken in `lock_state`. The caller must have taken it:
    /// releasing an untaken hold garbles the state.
    pub fn release_lock(&mut self, lock_state: LockState)
        ensures
            final(self).state() == release(old(self).state(), lock_state),
    {
        match lock_state {
            LockState::Shared => {
                self.lock = self.lock.wrapping_sub(1);
            },
            LockState::Exclusive => {
                self.lock = self.lock.wrapping_add(1);
            },
        }
    }

    /// The current state of the lock.
    pub fn get_state(&self) -> (r: u8)
        ensures
            r == self.state(),
    {
        self.lock
    }
}

/// Releasing a hold that was just taken gives back the state from before.
pub proof fn law_release_undoes_obtain(lock: u8, state: LockState)
    requires
        obtain(lock, state).1,
    ensures
        release(obtain(lock, state).0, state) == lock,
{
}

/// An exclusive hold shuts out every other hold until it is released.
pub proof fn law_exclusive_excludes(lock: u8, other: LockState)
    requires
        obtain(lock, LockState::Exclusive).1,
    ensures
        !obtain(obtain(lock, LockState::Exclusive).0, other).1,
{
}

/// Shared holds can be taken together, but not while a writer holds the lock.
pub proof fn law_shared_excludes_exclusive(lock: u8)
    requires
        obtain(lock, LockState::Shared).1,
    ensures
        !obtain(obtain(lock, LockState::Shared).0, LockState::Exclusive).1,
{
}

/// A shared take never leaves the lock in the state that stands for a writer.
pub proof fn law_shared_never_exclusive(lock: u8)
    requires
        obtain(lock, LockState::Shared).1,
    ensures
        obtain(lock, LockState::Shared).0 != EXCLUSIVE_STATE,
{
}

} // verus!
