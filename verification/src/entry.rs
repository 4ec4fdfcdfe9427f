//! A pooled entry: one stored object together with its creation time.
//!
//! The creation time is set once, when the object is first constructed, and is
//! preserved across detach and re-attach cycles: an object's expiration clock
//! starts at first construction and keeps ticking through any number of
//! pull/return round trips. Time is carried as milliseconds on whatever clock
//! drives the pool.

use vstd::prelude::*;

verus! {

/// Whether an entry created at `start_time` counts as dead at `now`: strictly
/// older than the `expiration` allowance, in milliseconds. A clock that went
/// backwards reads as no elapsed time at all.
pub open spec fn is_expired(start_time: u64, expiration: u64, now: u64) -> bool {
    (if now >= start_time {
        now - start_time
    } else {
        0
    }) > expiration
}

/// One stored object plus the moment it was first constructed.
///
/// The view of an entry is the pair of the object and its creation time.
pub struct Inner<T> {
    object: T,
    start_time: u64,
}

impl<T> View for Inner<T> {
    type V = (T, u64);

    closed spec fn view(&self) -> (T, u64) {
        (self.object, self.start_time)
    }
}

impl<T> Inner<T> {
    pub fn new(object: T, start_time: u64) -> (e: Self)
        ensures
            e@ == (object, start_time),
    {
        Inner { object, start_time }
    }

    /// The lazy expiration test: how the pool decides, on access at `now`,
    /// whether this entry is dead.
    pub fn expired(&self, expiration: u64, now: u64) -> (r: bool)
        ensures
            r == is_expired(self@.1, expiration, now),
    {
        let elapsed: u64 = if now >= self.start_time {
            now - self.start_time
        } else {
            0
        };
        elapsed > expiration
    }

    pub fn start_time(&self) -> (t: u64)
        ensures
            t == self@.1,
    {
        self.start_time
    }

    /// Surrenders the stored object, dissolving the entry.
    pub fn into_object(self) -> (t: T)
        ensures
            t == self@.0,
    {
        self.object
    }
}

} // verus!
