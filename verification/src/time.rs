//! The simulation clock: start instant, instant of the previous tick,
//! cumulative elapsed time, and the most recent tick's duration.
//!
//! Instants are integer nanosecond counts on a monotonic timeline whose
//! origin the caller chooses; the caller reads them from whatever clock it
//! trusts (or injects fixed values, which makes a run reproducible).

use vstd::prelude::*;

verus! {

/// The clock resource, mutated exactly once per tick by [`UpdateTime`].
pub struct Time {
    beginning: u64,
    last: u64,
    total: u64,
    delta: u64,
}

impl Time {
    /// The instant the simulation started, in nanoseconds.
    pub closed spec fn beginning(&self) -> nat {
        self.beginning as nat
    }

    /// The instant of the most recent tick, in nanoseconds.
    pub closed spec fn last(&self) -> nat {
        self.last as nat
    }

    /// Nanoseconds elapsed from the start to the most recent tick.
    pub closed spec fn total(&self) -> nat {
        self.total as nat
    }

    /// Duration of the most recent tick, in nanoseconds.
    pub closed spec fn delta(&self) -> nat {
        self.delta as nat
    }

    /// The clock never runs backwards, and the cumulative total is exactly
    /// the span from the start to the most recent tick.
    pub open spec fn wf(&self) -> bool {
        &&& self.beginning() <= self.last()
        &&& self.total() == self.last() - self.beginning()
        &&& self.delta() <= self.total()
    }

    pub fn new(start: u64) -> (r: Self)
        ensures
            r.beginning() == start,
            r.last() == start,
            r.total() == 0,
            r.delta() == 0,
            r.wf(),
    {
        Time { beginning: start, last: start, total: 0, delta: 0 }
    }

    /// Advances the clock to `now`: the tick's duration is the span since
    /// the previous tick, the total is the span since the start, and `now`
    /// becomes the new previous-tick instant.
    pub fn update(&mut self, now: u64)
        requires
            old(self).wf(),
            old(self).last() <= now,
        ensures
            final(self).delta() == now - old(self).last(),
            final(self).total() == now - old(self).beginning(),
            final(self).last() == now,
            final(self).beginning() == old(self).beginning(),
            final(self).wf(),
    {
        self.delta = now - self.last;
        self.total = now - self.beginning;
        self.last = now;
    }

    /// Duration of the most recent tick, in nanoseconds.
    pub fn delta_ns(&self) -> (r: u64)
        ensures
            r as nat == self.delta(),
    {
        self.delta
    }

    /// Nanoseconds elapsed from the start to the most recent tick.
    pub fn total_ns(&self) -> (r: u64)
        ensures
            r as nat == self.total(),
    {
        self.total
    }

    /// The instant of the most recent tick, in nanoseconds.
    pub fn last_ns(&self) -> (r: u64)
        ensures
            r as nat == self.last(),
    {
        self.last
    }
}

/// The clock-update stage: exclusive writer of the [`Time`] resource. It has
/// no prerequisites and runs before any stage that reads the clock.
pub struct UpdateTime;

impl UpdateTime {
    /// One tick's clock work: reads the current instant (supplied by the
    /// caller) and advances the clock to it.
    pub fn run(&self, time: &mut Time, now: u64)
        requires
            old(time).wf(),
            old(time).last() <= now,
        ensures
            final(time).delta() == now - old(time).last(),
            final(time).total() == now - old(time).beginning(),
            final(time).last() == now,
            final(time).beginning() == old(time).beginning(),
            final(time).wf(),
    {
        time.update(now);
    }
}

} // verus!
