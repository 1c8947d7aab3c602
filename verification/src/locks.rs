//! The mutual-exclusion capabilities that serialize access to shared kernel
//! state.
//!
//! Concurrency itself lives outside this library: on the machine a spin lock
//! spins on an atomic flag with interrupts masked on the owning core, and a
//! sleep lock parks the process instead of spinning. Both guarantee that at
//! most one execution context observes or mutates the guarded data at a
//! time, so each critical section is a sequential program. These types model
//! exactly that guarantee: the lock owns its data, acquiring demands that
//! the lock be free — re-entrant acquisition on one core would deadlock, so
//! it is a caller contract violation — and the data is reachable only while
//! the lock is held.

use vstd::prelude::*;

verus! {

/// Witness that a `SpinLock` is held; returned by `acquire`, handed back at
/// `release`.
pub struct SpinLockGuard;

/// A lock that makes a contender wait in a loop while repeatedly checking
/// whether the lock is available. Interrupts stay disabled on the owning
/// core between acquisition and release, so the critical section is short
/// and cannot be re-entered from an interrupt handler.
pub struct SpinLock<T> {
    data: T,
    isAcquired: bool,
}

impl<T> SpinLock<T> {
    /// Whether some execution context currently holds the lock.
    pub closed spec fn is_acquired(&self) -> bool {
        self.isAcquired
    }

    /// The guarded data.
    pub closed spec fn view(&self) -> T {
        self.data
    }

    pub fn new(data: T) -> (r: SpinLock<T>)
        ensures
            !r.is_acquired(),
            r.view() == data,
    {
        SpinLock { data, isAcquired: false }
    }

    /// Takes the lock. The caller must not already hold it: re-entrant
    /// acquisition would deadlock the core.
    pub fn acquire(&mut self) -> (g: SpinLockGuard)
        requires
            !old(self).is_acquired(),
        ensures
            final(self).is_acquired(),
            final(self).view() == old(self).view(),
    {
        self.isAcquired = true;
        SpinLockGuard
    }

    /// Reads the guarded data; only the lock holder may look.
    pub fn data(&self) -> (r: &T)
        requires
            self.is_acquired(),
        ensures
            *r == self.view(),
    {
        &self.data
    }

    /// Mutable access to the guarded data; only the lock holder may touch.
    pub fn data_mut(&mut self) -> (r: &mut T)
        requires
            old(self).is_acquired(),
        ensures
            *r == old(self).view(),
            final(self).view() == *final(r),
            final(self).is_acquired(),
    {
        &mut self.data
    }

    /// Releases the lock, consuming the witness of acquisition.
    pub fn release(&mut self, guard: SpinLockGuard) -> (r: ())
        requires
            old(self).is_acquired(),
        ensures
            !final(self).is_acquired(),
            final(self).view() == old(self).view(),
    {
        let SpinLockGuard = guard;
        self.isAcquired = false;
    }
}

/// Witness that a `SleepLock` is held; returned by `acquire`, handed back
/// at `release`.
pub struct SleepLockGuard;

/// Unlike a spin lock, a sleep lock may be held for a long time: a
/// contender goes to sleep and is woken at release instead of spinning.
pub struct SleepLock<T> {
    data: T,
    isAcquired: bool,
}

impl<T> SleepLock<T> {
    /// Whether some process currently holds the lock.
    pub closed spec fn is_acquired(&self) -> bool {
        self.isAcquired
    }

    /// The guarded data.
    pub closed spec fn view(&self) -> T {
        self.data
    }

    pub fn new(data: T) -> (r: SleepLock<T>)
        ensures
            !r.is_acquired(),
            r.view() == data,
    {
        SleepLock { data, isAcquired: false }
    }

    /// Takes the lock once no other process holds it (the platform layer
    /// sleeps and retries until then, so the lock is free by the time the
    /// acquisition goes through).
    pub fn acquire(&mut self) -> (g: SleepLockGuard)
        requires
            !old(self).is_acquired(),
        ensures
            final(self).is_acquired(),
            final(self).view() == old(self).view(),
    {
        self.isAcquired = true;
        SleepLockGuard
    }

    /// Reads the guarded data; only the lock holder may look.
    pub fn data(&self) -> (r: &T)
        requires
            self.is_acquired(),
        ensures
            *r == self.view(),
    {
        &self.data
    }

    /// Mutable access to the guarded data; only the lock holder may touch.
    pub fn data_mut(&mut self) -> (r: &mut T)
        requires
            old(self).is_acquired(),
        ensures
            *r == old(self).view(),
            final(self).view() == *final(r),
            final(self).is_acquired(),
    {
        &mut self.data
    }

    /// Releases the lock and lets the sleeping contenders retry.
    pub fn release(&mut self, guard: SleepLockGuard) -> (r: ())
        requires
            old(self).is_acquired(),
        ensures
            !final(self).is_acquired(),
            final(self).view() == old(self).view(),
    {
        let SleepLockGuard = guard;
        self.isAcquired = false;
    }
}

} // verus!
