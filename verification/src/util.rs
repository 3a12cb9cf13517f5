//! Small timing helpers shared by the surrounding loop.
//!
//! Wall-clock time reaches the core only as microsecond counts taken from
//! a monotonic clock outside; nothing here reads the clock itself.

use vstd::prelude::*;

verus! {

/// A repeating interval timer: `tick` reports whether more than `interval`
/// microseconds have passed since it last fired, and re-arms when it has.
pub struct Timer {
    pub last: u64,
    pub interval: u64,
}

impl Timer {
    pub fn new(interval_us: u64, now_us: u64) -> (t: Timer)
        ensures
            t == (Timer { last: now_us, interval: interval_us }),
    {
        Timer { last: now_us, interval: interval_us }
    }

    /// Fires when more than one interval has passed since the last firing;
    /// firing moves the reference point to `now_us`.
    pub fn tick(&mut self, now_us: u64) -> (fired: bool)
        requires
            old(self).last <= now_us,
        ensures
            fired == (now_us - old(self).last > old(self).interval),
            final(self).interval == old(self).interval,
            final(self).last == if fired { now_us } else { old(self).last },
    {
        if now_us - self.last > self.interval {
            self.last = now_us;
            return true;
        }
        false
    }
}

} // verus!
