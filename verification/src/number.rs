//! The numeric capability that every measured quantity provides: each value
//! stands for a whole number of base units (nanoseconds, bytes), and all
//! statistics are computed on those units.

use vstd::prelude::*;

verus! {

/// A measured quantity: a value carrying a whole number of base units.
pub trait Number: Sized + Copy {
    /// The number of base units this value stands for.
    spec fn units(self) -> u64;

    /// Build a value from a number of base units.
    fn from_units(u: u64) -> (r: Self)
        ensures
            r.units() == u,
    ;

    /// The number of base units as an executable value.
    fn to_units(&self) -> (r: u64)
        ensures
            r == self.units(),
    ;

    /// Two values with the same number of base units are the same value.
    proof fn lemma_units_injective(a: Self, b: Self)
        requires
            a.units() == b.units(),
        ensures
            a == b,
    ;
}

impl Number for u64 {
    open spec fn units(self) -> u64 {
        self
    }

    fn from_units(u: u64) -> (r: Self) {
        u
    }

    fn to_units(&self) -> (r: u64) {
        *self
    }

    proof fn lemma_units_injective(a: Self, b: Self) {
    }
}

} // verus!
