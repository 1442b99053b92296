//! Concurrency limiter: bounds how many probes run at any instant,
//! independent of how many targets are queued.
//!
//! The accounting is a verified state machine; the caller acquires a
//! slot before each probe and releases it on every exit path.  A
//! high-water mark records the largest number of probes that were ever
//! in flight together.

use vstd::prelude::*;

verus! {

/// Concurrent reachability probes allowed during a sweep.
pub const PING_CONCURRENCY: usize = 50;

/// Concurrent hostname resolutions allowed in a batch.
pub const RESOLVE_CONCURRENCY: usize = 10;

/// Slot accounting for one scan: how many probes are in flight, against
/// a fixed capacity.
pub struct Limiter {
    pub capacity: usize,
    pub in_flight: usize,
    pub high_water: usize,
}

impl Limiter {
    /// The limiter's invariant: the probes in flight never exceed the
    /// capacity, and the high-water mark records their largest count.
    pub open spec fn wf(self) -> bool {
        self.in_flight <= self.high_water <= self.capacity
    }

    /// A fresh limiter with nothing in flight.
    pub fn new(capacity: usize) -> (r: Limiter)
        ensures
            r.wf(),
            r.capacity == capacity,
            r.in_flight == 0,
            r.high_water == 0,
    {
        Limiter { capacity, in_flight: 0, high_water: 0 }
    }

    /// The capacity used for a sweep over `target_count` hosts: the
    /// configured maximum, or fewer when fewer targets are queued.
    pub fn for_targets(configured_max: usize, target_count: usize) -> (r: Limiter)
        ensures
            r.wf(),
            r.capacity == (if configured_max <= target_count {
                configured_max as int
            } else {
                target_count as int
            }),
            r.in_flight == 0,
            r.high_water == 0,
    {
        let cap = if configured_max <= target_count {
            configured_max
        } else {
            target_count
        };
        Limiter::new(cap)
    }

    /// Take a slot if one is free.  A full limiter is left unchanged, so
    /// the caller must wait and try again.
    pub fn try_acquire(&mut self) -> (granted: bool)
        requires
            old(self).wf(),
        ensures
            final(self).wf(),
            final(self).capacity == old(self).capacity,
            granted == (old(self).in_flight < old(self).capacity),
            granted ==> final(self).in_flight == old(self).in_flight + 1,
            !granted ==> *final(self) == *old(self),
            final(self).in_flight <= final(self).capacity,
            final(self).high_water >= old(self).high_water,
    {
        if self.in_flight < self.capacity {
            self.in_flight = self.in_flight + 1;
            if self.in_flight > self.high_water {
                self.high_water = self.in_flight;
            }
            true
        } else {
            false
        }
    }

    /// Give a slot back; every acquisition must be paired with exactly
    /// one release, on every exit path of the probe.
    pub fn release(&mut self)
        requires
            old(self).wf(),
            old(self).in_flight > 0,
        ensures
            final(self).wf(),
            final(self).capacity == old(self).capacity,
            final(self).high_water == old(self).high_water,
            final(self).in_flight == old(self).in_flight - 1,
    {
        self.in_flight = self.in_flight - 1;
    }
}

/// LAW: however many probes are queued, a well-formed limiter never has
/// more probes in flight than its capacity, and its high-water mark —
/// the most that were ever simultaneously in flight — never exceeds the
/// capacity either.
pub proof fn lemma_limiter_bounded(l: Limiter)
    requires
        l.wf(),
    ensures
        l.in_flight <= l.capacity,
        l.high_water <= l.capacity,
{
}

} // verus!
