use vstd::prelude::*;

verus! {

/// The world clock, in microseconds. The driver owns real time and hands each
/// tick's length in; the clock only accumulates it.
pub struct EonForge {
    delta_time: u64,
    time_elapsed_since_start: u64,
}

/// `a + b`, or the largest `u64` when the sum does not fit.
pub open spec fn saturated_sum(a: u64, b: u64) -> u64 {
    if a + b <= u64::MAX {
        (a + b) as u64
    } else {
        u64::MAX
    }
}

impl EonForge {
    /// The length of the last tick.
    pub closed spec fn delta(&self) -> u64 {
        self.delta_time
    }

    /// The time accumulated since `start`.
    pub closed spec fn elapsed(&self) -> u64 {
        self.time_elapsed_since_start
    }

    pub fn new() -> (r: Self)
        ensures
            r.delta() == 0,
            r.elapsed() == 0,
    {
        EonForge { delta_time: 0, time_elapsed_since_start: 0 }
    }

    /// Restarts the count of elapsed time.
    pub fn start(&mut self)
        ensures
            final(self).delta() == old(self).delta(),
            final(self).elapsed() == 0,
    {
        self.time_elapsed_since_start = 0;
    }

    /// Records a tick of `delta`; the elapsed time stops at the largest `u64`.
    pub fn update(&mut self, delta: u64)
        ensures
            final(self).delta() == delta,
            final(self).elapsed() == saturated_sum(old(self).elapsed(), delta),
    {
        self.delta_time = delta;
        if self.time_elapsed_since_start <= u64::MAX - delta {
            self.time_elapsed_since_start = self.time_elapsed_since_start + delta;
        } else {
            self.time_elapsed_since_start = u64::MAX;
        }
    }

    pub fn get_delta_time(&self) -> (r: u64)
        ensures
            r == self.delta(),
    {
        self.delta_time
    }

    pub fn get_time_elapsed_since_start(&self) -> (r: u64)
        ensures
            r == self.elapsed(),
    {
        self.time_elapsed_since_start
    }
}

impl Default for EonForge {
    fn default() -> (r: Self)
        ensures
            r.delta() == 0,
            r.elapsed() == 0,
    {
        EonForge::new()
    }
}

} // verus!
