use std::time::{Duration, Instant};
use vstd::prelude::*;

verus! {

/// A point in time of the standard library's monotonic clock; nothing is
/// known of its contents.
#[verifier::external_type_specification]
#[verifier::external_body]
pub struct ExInstant(Instant);

/// Reads the clock with the standard library's `Instant::now`. Nothing is
/// known of the outcome.
#[verifier::external_body]
fn now() -> (r: Instant) {
    Instant::now()
}

/// Time passed since `since`, by the standard library's `Instant::elapsed`.
/// Nothing is known of the outcome.
#[verifier::external_body]
fn elapsed(since: &Instant) -> (r: Duration) {
    since.elapsed()
}

/// The length of `span` in whole nanoseconds, by the standard library's
/// `Duration::as_nanos`. The contract says nothing of the outcome.
#[verifier::external_body]
fn nanos(span: &Duration) -> (r: u128) {
    span.as_nanos()
}

/// Smallest and largest size of the ejection pool seen so far.
pub struct HeapSize {
    pub min: usize,
    pub max: usize,
}

impl HeapSize {
    /// Nothing seen yet.
    pub fn new() -> (r: Self)
        ensures
            r.min == usize::MAX,
            r.max == 0,
    {
        Self { min: usize::MAX, max: usize::MIN }
    }

    /// Takes one more size into account.
    pub fn change(&mut self, heap_size: usize)
        ensures
            final(self).min == if heap_size < old(self).min {
                heap_size
            } else {
                old(self).min
            },
            final(self).max == if heap_size > old(self).max {
                heap_size
            } else {
                old(self).max
            },
    {
        if heap_size < self.min {
            self.min = heap_size;
        }
        if heap_size > self.max {
            self.max = heap_size;
        }
    }
}

/// Number of iterations, in all and for the route being dissolved.
pub struct Iterations {
    pub total: usize,
    pub current: usize,
}

impl Default for Iterations {
    fn default() -> (r: Self)
        ensures
            r.total == 0,
            r.current == 0,
    {
        Self { total: 0, current: 0 }
    }
}

impl Iterations {
    /// Counts one iteration.
    pub fn inc(&mut self)
        requires
            old(self).total < usize::MAX,
            old(self).current < usize::MAX,
        ensures
            final(self).total == old(self).total + 1,
            final(self).current == old(self).current + 1,
    {
        self.total += 1;
        self.current += 1;
    }

    /// Iterations spent on the route being dissolved.
    pub fn current(&self) -> (r: usize)
        ensures
            r == self.current,
    {
        self.current
    }
}

/// When the search started and when the current route was dissolved.
pub struct Time {
    pub start: Instant,
    pub route_start: Instant,
}

impl Time {
    /// Both times set to now: one reading of the clock serves for both.
    pub fn new() -> (r: Self)
        ensures
            r.start == r.route_start,
    {
        let at = now();
        Self { start: at, route_start: at }
    }
}

/// Accounting of the search: times, iterations and pool sizes.
pub struct Stats {
    pub time: Time,
    pub iterations: Iterations,
    pub heap_size: HeapSize,
}

impl Stats {
    /// Fresh accounting, started now.
    pub fn new() -> (r: Self)
        ensures
            r.iterations.total == 0,
            r.iterations.current == 0,
            r.heap_size.min == usize::MAX,
            r.heap_size.max == 0,
            r.time.start == r.time.route_start,
    {
        Self { time: Time::new(), iterations: Iterations::default(), heap_size: HeapSize::new() }
    }

    /// Starts the accounting of a new route; the totals stay.
    pub fn reset(&mut self)
        ensures
            final(self).iterations.total == old(self).iterations.total,
            final(self).iterations.current == 0,
            final(self).heap_size.min == usize::MAX,
            final(self).heap_size.max == 0,
            final(self).time.start == old(self).time.start,
    {
        self.heap_size = HeapSize::new();
        self.iterations.current = 0;
        self.time.route_start = now();
    }

    /// Counts one iteration that left the pool with `heap_size` pickups.
    pub fn add_iteration(&mut self, heap_size: usize)
        requires
            old(self).iterations.total < usize::MAX,
            old(self).iterations.current < usize::MAX,
        ensures
            final(self).time == old(self).time,
            final(self).iterations.total == old(self).iterations.total + 1,
            final(self).iterations.current == old(self).iterations.current + 1,
            final(self).heap_size.min == if heap_size < old(self).heap_size.min {
                heap_size
            } else {
                old(self).heap_size.min
            },
            final(self).heap_size.max == if heap_size > old(self).heap_size.max {
                heap_size
            } else {
                old(self).heap_size.max
            },
    {
        self.heap_size.change(heap_size);
        self.iterations.inc();
    }

    /// The iteration counters.
    pub fn iterations(&self) -> (r: &Iterations)
        ensures
            *r == self.iterations,
    {
        &self.iterations
    }

    /// Time passed since the search started.
    pub fn total_time(&self) -> (r: Duration) {
        elapsed(&self.time.start)
    }

    /// Time passed since the current route was dissolved.
    pub fn route_time(&self) -> (r: Duration) {
        elapsed(&self.time.route_start)
    }

    /// Whether a search that has run for `spent` nanoseconds has used up a
    /// limit of `limit` nanoseconds: it has once the two are equal.
    pub fn overdue(spent: u128, limit: u128) -> (r: bool)
        ensures
            r == (spent >= limit),
    {
        spent >= limit
    }

    /// Whether the search has run for at least `limit`: reads the clock and
    /// compares, in whole nanoseconds, the time passed since the start with
    /// the limit. The clock decides; [`Stats::overdue`] says what comes back
    /// for each reading.
    pub fn out_of_time(&self, limit: &Duration) -> (r: bool) {
        let spent = elapsed(&self.time.start);
        Self::overdue(nanos(&spent), nanos(limit))
    }
}

} // verus!
