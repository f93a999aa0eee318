//! Wall-clock timestamps with seconds resolution.

use vstd::prelude::*;

verus! {

/// A wall-clock timestamp: seconds since the Unix epoch. It is only ever set
/// forward (to "now") and never rolled back by the membership algorithms.
#[derive(Clone, Copy, PartialEq, Eq, Structural, Debug)]
pub struct TimeStamp(pub i64);

/// Relies on chrono: `Local::now().timestamp()` returns the current wall-clock
/// time as whole seconds since the Unix epoch. Nothing is assumed of the value
/// itself, so every caller is verified for every possible reading of the clock.
#[verifier::external_body]
pub fn now_seconds() -> i64 {
    chrono::Local::now().timestamp()
}

impl TimeStamp {
    /// A timestamp holding the current wall-clock time.
    pub fn now() -> Self {
        Self(now_seconds())
    }

    /// A timestamp holding the given number of seconds.
    pub fn from_seconds(secs: i64) -> (r: Self)
        ensures
            r.0 == secs,
    {
        Self(secs)
    }

    /// Set the timestamp to the given time.
    pub fn touch_at(&mut self, now: i64)
        ensures
            final(self).0 == now,
    {
        self.0 = now;
    }

    /// Set the timestamp to the current wall-clock time.
    pub fn touch(&mut self) {
        self.0 = now_seconds();
    }

    pub fn get_timestamp(&self) -> (r: i64)
        ensures
            r == self.0,
    {
        self.0
    }
}

} // verus!
