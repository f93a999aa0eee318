//! The heartbeat record kept for each peer: a monotonically non-decreasing
//! counter paired with the time the peer was last seen.

use vstd::prelude::*;

use crate::timestamp::now_seconds;
use crate::timestamp::TimeStamp;

verus! {

/// One step of a heartbeat counter. It saturates at the top of its range, so
/// a counter never moves backwards.
pub open spec fn bumped(c: u64) -> u64 {
    if c < u64::MAX {
        (c + 1) as u64
    } else {
        c
    }
}

/// A heartbeat counter paired with the last time the peer was seen.
#[derive(Clone, Copy, PartialEq, Eq, Structural, Debug)]
pub struct BeatCount(pub u64, pub TimeStamp);

impl BeatCount {
    /// A fresh record: counter zero, seen now.
    pub fn new() -> (r: Self)
        ensures
            r.0 == 0,
    {
        Self(0, TimeStamp::now())
    }

    /// A record with the given counter and last-seen time.
    pub fn from_parts(count: u64, time: i64) -> (r: Self)
        ensures
            r.0 == count,
            r.1.0 == time,
    {
        Self(count, TimeStamp::from_seconds(time))
    }

    pub fn get_count(&self) -> (r: u64)
        ensures
            r == self.0,
    {
        self.0
    }

    pub fn get_timestamp(&self) -> (r: i64)
        ensures
            r == self.1.0,
    {
        self.1.get_timestamp()
    }

    /// Advance the counter one step and record the given time as last seen.
    pub fn increment_and_touch_at(&mut self, now: i64)
        ensures
            final(self).0 == bumped(old(self).0),
            final(self).1.0 == now,
    {
        if self.0 < u64::MAX {
            self.0 = self.0 + 1;
        }
        self.1.touch_at(now);
    }

    /// Advance the counter one step and record the current wall-clock time.
    pub fn increment_and_touch(&mut self)
        ensures
            final(self).0 == bumped(old(self).0),
    {
        let now = now_seconds();
        self.increment_and_touch_at(now);
    }

    /// Advance the counter one step; the last-seen time is unchanged.
    pub fn increment(&mut self)
        ensures
            final(self).0 == bumped(old(self).0),
            final(self).1 == old(self).1,
    {
        if self.0 < u64::MAX {
            self.0 = self.0 + 1;
        }
    }

    /// Record the given time as last seen; the counter is unchanged.
    pub fn touch_at(&mut self, now: i64)
        ensures
            final(self).0 == old(self).0,
            final(self).1.0 == now,
    {
        self.1.touch_at(now);
    }

    /// Record the current wall-clock time as last seen; the counter is
    /// unchanged.
    pub fn just_touch(&mut self)
        ensures
            final(self).0 == old(self).0,
    {
        self.1.touch();
    }
}

impl Default for BeatCount {
    /// The same record as [`BeatCount::new`]: counter zero, seen now.
    fn default() -> (r: Self)
        ensures
            r.0 == 0,
    {
        Self::new()
    }
}

} // verus!
