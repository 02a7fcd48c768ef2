//! Wall-clock durations with nanosecond resolution.

use vstd::prelude::*;

use crate::number::Number;

verus! {

/// A non-negative span of time, counted in nanoseconds.
#[derive(Clone, Copy, Debug, PartialEq, Eq, Structural)]
pub struct Duration {
    nanos: u64,
}

pub const NANOS_PER_MILLI: u64 = 1_000_000;

impl Duration {
    pub closed spec fn spec_nanos(self) -> u64 {
        self.nanos
    }

    pub fn from_nanos(nanos: u64) -> (r: Duration)
        ensures
            r.spec_nanos() == nanos,
    {
        Duration { nanos }
    }

    pub fn from_millis(millis: u64) -> (r: Duration)
        requires
            millis * NANOS_PER_MILLI <= u64::MAX,
        ensures
            r.spec_nanos() == millis * NANOS_PER_MILLI,
    {
        Duration { nanos: millis * NANOS_PER_MILLI }
    }

    pub fn nanos(&self) -> (r: u64)
        ensures
            r == self.spec_nanos(),
    {
        self.nanos
    }

    pub fn millis(&self) -> (r: u64)
        ensures
            r == self.spec_nanos() / NANOS_PER_MILLI,
    {
        self.nanos / NANOS_PER_MILLI
    }

    /// Checked addition; adding beyond the representable range is a caller error.
    pub fn add(self, rhs: Duration) -> (r: Duration)
        requires
            self.spec_nanos() + rhs.spec_nanos() <= u64::MAX,
        ensures
            r.spec_nanos() == self.spec_nanos() + rhs.spec_nanos(),
    {
        Duration { nanos: self.nanos + rhs.nanos }
    }

    /// Checked subtraction; subtracting a larger duration is a caller error.
    pub fn sub(self, rhs: Duration) -> (r: Duration)
        requires
            self.spec_nanos() >= rhs.spec_nanos(),
        ensures
            r.spec_nanos() == self.spec_nanos() - rhs.spec_nanos(),
    {
        Duration { nanos: self.nanos - rhs.nanos }
    }

    pub fn div_usize(&self, rhs: usize) -> (r: Duration)
        requires
            rhs > 0,
        ensures
            r.spec_nanos() == self.spec_nanos() / rhs as u64,
    {
        Duration { nanos: self.nanos / rhs as u64 }
    }
}

impl Default for Duration {
    /// The zero duration.
    fn default() -> (r: Duration)
        ensures
            r.spec_nanos() == 0,
    {
        Duration { nanos: 0 }
    }
}

impl Number for Duration {
    open spec fn units(self) -> u64 {
        self.spec_nanos()
    }

    fn from_units(u: u64) -> (r: Self) {
        Duration { nanos: u }
    }

    fn to_units(&self) -> (r: u64) {
        self.nanos
    }

    proof fn lemma_units_injective(a: Self, b: Self) {
    }
}

} // verus!
