//! Counters that many threads may bump at once.

use std::sync::atomic::AtomicUsize;
use std::sync::atomic::Ordering;
use vstd::prelude::*;

verus! {

/// A count shared between threads.  What a read returns depends on what the
/// other threads did in the meantime, so no contract speaks of the value.
pub struct Counter {
    val: AtomicUsize,
}

impl Counter {
    /// A counter at zero.
    pub fn new() -> Self {
        Counter { val: AtomicUsize::new(0) }
    }

    /// The current count.
    pub fn load(&self) -> usize {
        self.val.load(Ordering::Acquire)
    }

    /// Sets the count.
    pub fn store(&self, val: usize) {
        self.val.store(val, Ordering::Release);
    }

    /// Adds `inc`, wrapping around, and returns the count before.
    pub fn fetch_add(&self, inc: usize) -> usize {
        self.val.fetch_add(inc, Ordering::AcqRel)
    }

    /// Subtracts `inc`, wrapping around, and returns the count before.
    pub fn fetch_sub(&self, inc: usize) -> usize {
        self.val.fetch_sub(inc, Ordering::AcqRel)
    }
}

impl Default for Counter {
    fn default() -> Self {
        Counter::new()
    }
}

/// How far a job has come: units in total, processed and skipped.
pub struct DetailCounter {
    pub total: Counter,
    pub processed: Counter,
    pub skipped: Counter,
    name: &'static str,
}

/// What a progress line shows: the counts read at one moment.
pub struct Snapshot {
    pub total: usize,
    pub processed: usize,
    pub skipped: usize,
}

impl Snapshot {
    /// The snapshot of three counts that were read.
    pub fn new(total: usize, processed: usize, skipped: usize) -> (s: Self)
        ensures
            s.total == total,
            s.processed == processed,
            s.skipped == skipped,
    {
        Snapshot { total, processed, skipped }
    }
}

impl DetailCounter {
    /// What the units are called.
    pub closed spec fn label(&self) -> &'static str {
        self.name
    }

    /// Counters at zero for units called `name`.
    pub fn new(name: &'static str) -> (c: Self)
        ensures
            c.label() == name,
    {
        DetailCounter {
            total: Counter::new(),
            processed: Counter::new(),
            skipped: Counter::new(),
            name,
        }
    }

    /// What the units are called.
    pub fn name(&self) -> (n: &'static str)
        ensures
            n == self.label(),
    {
        self.name
    }

    /// Reads the three counts, one after the other, and puts what was read
    /// into a snapshot.  The counters are shared, so what is read is whatever
    /// the threads have left there, and nothing is promised of it.
    pub fn snapshot(&self) -> Snapshot {
        let total = self.total.load();
        let processed = self.processed.load();
        let skipped = self.skipped.load();
        Snapshot::new(total, processed, skipped)
    }
}

} // verus!
