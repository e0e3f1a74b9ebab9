//! Measuring how long a piece of work takes.

use vstd::prelude::*;

verus! {

/// How many nanoseconds a millisecond has.
pub const NANOS_PER_MILLI: u128 = 1_000_000;

/// A measured piece of work, which is logged where it took long enough.
pub struct Probe {
    pub name: &'static str,
    pub min_ms: u64,
}

impl Probe {
    /// Measures the work with a name, which is logged from `min_ms` milliseconds on.
    pub fn new(name: &'static str, min_ms: u64) -> (r: Probe)
        ensures
            r.name@ == name@,
            r.min_ms == min_ms,
    {
        Probe { name, min_ms }
    }

    /// Whether work that took so many nanoseconds is logged.
    pub fn due(&self, elapsed: u128) -> (r: bool)
        ensures
            r == (elapsed >= self.min_ms * NANOS_PER_MILLI),
    {
        elapsed >= self.min_ms as u128 * NANOS_PER_MILLI
    }
}

} // verus!
