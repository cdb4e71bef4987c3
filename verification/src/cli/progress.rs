//! The flag by which a job tells its progress reporter to stop.

use std::sync::atomic::AtomicBool;
use std::sync::atomic::Ordering;
use vstd::prelude::*;

verus! {

/// A boolean shared between threads.
pub struct Flag {
    val: AtomicBool,
}

impl Flag {
    /// A flag that is not set.
    pub fn new() -> Self {
        Flag { val: AtomicBool::new(false) }
    }

    /// Whether the flag is set.
    pub fn load(&self) -> bool {
        self.val.load(Ordering::Acquire)
    }

    /// Sets or clears the flag.
    pub fn store(&self, val: bool) {
        self.val.store(val, Ordering::Release);
    }
}

impl Default for Flag {
    fn default() -> Self {
        Flag::new()
    }
}

} // verus!
