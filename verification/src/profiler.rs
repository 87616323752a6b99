use vstd::prelude::*;

verus! {

#[verifier::external_type_specification]
#[verifier::external_body]
pub struct ExInstant(std::time::Instant);

/// Calls `std::time::Instant::now`. Nothing is claimed of the instant it
/// returns: it is the machine's clock.
#[verifier::external_body]
fn clock_now() -> std::time::Instant {
    std::time::Instant::now()
}

/// Calls `std::time::Instant::elapsed` on `start` and gives the duration
/// in whole nanoseconds (`Duration::as_nanos`). Nothing is claimed of the
/// value: it depends on the clock.
#[verifier::external_body]
fn nanos_since(start: &std::time::Instant) -> u128 {
    start.elapsed().as_nanos()
}

/// Running timing statistics of one named scope, in nanoseconds.
pub struct Stats {
    pub total: u128,
    pub count: u128,
    pub max: u128,
    pub last: u128,
}

impl Stats {
    /// No sample yet.
    pub fn new() -> (s: Self)
        ensures
            s.total == 0,
            s.count == 0,
            s.max == 0,
            s.last == 0,
    {
        Stats { total: 0, count: 0, max: 0, last: 0 }
    }

    /// A sample of `elapsed` nanoseconds still fits in the counters.
    pub open spec fn can_take(self, elapsed: u128) -> bool {
        self.total + elapsed <= u128::MAX && self.count + 1 <= u128::MAX
    }

    /// The statistics after one more sample of `elapsed` nanoseconds.
    pub open spec fn with_sample(self, elapsed: u128) -> Stats {
        Stats {
            total: (self.total + elapsed) as u128,
            count: (self.count + 1) as u128,
            max: if elapsed > self.max {
                elapsed
            } else {
                self.max
            },
            last: elapsed,
        }
    }

    /// Add one sample of `elapsed` nanoseconds.
    pub fn update(&mut self, elapsed: u128)
        requires
            old(self).can_take(elapsed),
        ensures
            final(self).total == old(self).total + elapsed,
            final(self).count == old(self).count + 1,
            final(self).max == (if elapsed > old(self).max {
                elapsed
            } else {
                old(self).max
            }),
            final(self).last == elapsed,
    {
        self.total = self.total + elapsed;
        self.count = self.count + 1;
        if elapsed > self.max {
            self.max = elapsed;
        }
        self.last = elapsed;
    }

    /// Mean sample in nanoseconds, cut to 64 bits; zero before any sample.
    pub fn avg(&self) -> (r: u64)
        ensures
            r == (if self.count == 0 {
                0
            } else {
                (self.total / self.count) as u64
            }),
    {
        if self.count == 0 {
            return 0;
        }
        #[verifier::truncate]
        ((self.total / self.count) as u64)
    }
}

/// Measures the time spent in a named scope.
pub struct ScopeTimer {
    name: &'static str,
    start: std::time::Instant,
    enabled: bool,
}

impl ScopeTimer {
    pub closed spec fn spec_name(self) -> &'static str {
        self.name
    }

    pub closed spec fn spec_enabled(self) -> bool {
        self.enabled
    }

    /// Start timing the scope `name`. Timing is switched off: a timer
    /// records nothing.
    pub fn new(name: &'static str) -> (t: Self)
        ensures
            t.spec_name() == name,
            !t.spec_enabled(),
    {
        let enable: bool = false;
        ScopeTimer { name, start: clock_now(), enabled: enable }
    }

    pub fn name(&self) -> (r: &'static str)
        ensures
            r == self.spec_name(),
    {
        self.name
    }

    pub fn enabled(&self) -> (r: bool)
        ensures
            r == self.spec_enabled(),
    {
        self.enabled
    }

    /// What ending the scope does when `elapsed` nanoseconds have passed
    /// since the timer started: a switched-on timer adds that sample to the
    /// statistics when it fits in the counters, and reports whether it did;
    /// otherwise the statistics stay as they were.
    pub open spec fn records(self, before: Stats, after: Stats, added: bool, elapsed: u128) -> bool {
        &&& added == (self.spec_enabled() && before.can_take(elapsed))
        &&& after == (if added {
            before.with_sample(elapsed)
        } else {
            before
        })
    }

    /// Add a sample of `elapsed` nanoseconds to `stats` as the end of this
    /// timer's scope would.
    pub fn add_sample(&self, stats: &mut Stats, elapsed: u128) -> (added: bool)
        ensures
            self.records(*old(stats), *final(stats), added, elapsed),
    {
        if !self.enabled {
            return false;
        }
        if elapsed > u128::MAX - stats.total || stats.count == u128::MAX {
            return false;
        }
        stats.update(elapsed);
        let _ = stats.avg();
        true
    }

    /// End of the scope: the time elapsed since the timer started is read
    /// from the clock and added as `add_sample` does. Returns whether a
    /// sample was added.
    pub fn record(&self, stats: &mut Stats) -> (added: bool)
        ensures
            exists|elapsed: u128| #[trigger] self.records(*old(stats), *final(stats), added, elapsed),
    {
        if !self.enabled {
            proof {
                assert(self.records(*old(stats), *final(stats), false, 0));
            }
            return false;
        }
        let elapsed = nanos_since(&self.start);
        let added = self.add_sample(stats, elapsed);
        proof {
            assert(self.records(*old(stats), *final(stats), added, elapsed));
        }
        added
    }
}

} // verus!
