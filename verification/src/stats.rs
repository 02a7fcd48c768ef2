//! Summary statistics: a snapshot of one sample collection.

use vstd::prelude::*;

use crate::arith::is_sqrt_floor;
use crate::arith::isqrt_u128;
use crate::arith::lemma_sqrt_floor_unique;
use crate::arith::seq_sum;
use crate::arith::sqrt_floor;
use crate::number::Number;
use crate::numbers::mean_spec;
use crate::numbers::med_fits;
use crate::numbers::med_spec;
use crate::numbers::var_spec;
use crate::numbers::Numbers;

verus! {

/// Count, mean, median, extremes and standard deviation of one collection at
/// one point in time.
pub struct Stats<T: Number> {
    pub count: u64,
    pub mean: T,
    pub med: T,
    pub min: T,
    pub max: T,
    pub std_dev: T,
}

impl<T: Number> Stats<T> {
    /// Standard error of the mean: the standard deviation divided by the
    /// square root of `count - 1`, truncated to whole units.
    pub fn se(&self) -> (r: T)
        requires
            self.count >= 2,
        ensures
            r.units() == sqrt_floor(
                self.std_dev.units() * self.std_dev.units() / (self.count - 1)),
    {
        let sd = self.std_dev.to_units();
        proof {
            assert((sd as u128) * (sd as u128) <= (0xFFFF_FFFF_FFFF_FFFFu128) * (
                0xFFFF_FFFF_FFFF_FFFFu128)) by (nonlinear_arith)
                requires sd <= 0xFFFF_FFFF_FFFF_FFFFu64;
            assert((0xFFFF_FFFF_FFFF_FFFFu128) * (0xFFFF_FFFF_FFFF_FFFFu128) < u128::MAX);
        }
        let q = (sd as u128) * (sd as u128) / ((self.count - 1) as u128);
        let r = isqrt_u128(q);
        proof {
            let x = self.std_dev.units() * self.std_dev.units() / (self.count - 1);
            assert(exists|w: int| is_sqrt_floor(w, x)) by {
                assert(is_sqrt_floor(r as int, x));
            }
            lemma_sqrt_floor_unique(r as int, sqrt_floor(x), x);
        }
        T::from_units(r)
    }
}

/// Take the statistics snapshot of a collection with at least two samples.
pub fn stats<T: Number>(numbers: &Numbers<T>) -> (r: Stats<T>)
    requires
        numbers.well_formed(),
        numbers.raw_seq().len() >= 2,
        numbers.raw_seq().len() <= u64::MAX,
        seq_sum(numbers.raw_units()) <= u64::MAX,
        med_fits(numbers.sorted_units_seq()),
    ensures
        r.count == numbers.raw_seq().len(),
        r.mean.units() == mean_spec(numbers.raw_units()),
        r.med.units() == med_spec(numbers.sorted_units_seq()),
        numbers.raw_seq().contains(r.min),
        forall|i: int| 0 <= i < numbers.raw_units().len() ==> r.min.units()
            <= numbers.raw_units()[i],
        numbers.raw_seq().contains(r.max),
        forall|i: int| 0 <= i < numbers.raw_units().len() ==> r.max.units()
            >= numbers.raw_units()[i],
        r.std_dev.units() == sqrt_floor(var_spec(numbers.raw_units())),
        is_sqrt_floor(r.std_dev.units() as int, var_spec(numbers.raw_units())),
{
    proof {
        numbers.lemma_len_eq();
    }
    Stats {
        count: numbers.len() as u64,
        mean: numbers.mean(),
        med: numbers.med(),
        min: numbers.min(),
        max: numbers.max(),
        std_dev: numbers.std_dev(),
    }
}

impl<T: Number> Numbers<T> {
    /// The statistics snapshot of this collection.
    pub fn stats(&self) -> (r: Stats<T>)
        requires
            self.well_formed(),
            self.raw_seq().len() >= 2,
            self.raw_seq().len() <= u64::MAX,
            seq_sum(self.raw_units()) <= u64::MAX,
            med_fits(self.sorted_units_seq()),
        ensures
            r.count == self.raw_seq().len(),
            r.mean.units() == mean_spec(self.raw_units()),
            r.med.units() == med_spec(self.sorted_units_seq()),
            self.raw_seq().contains(r.min),
            forall|i: int| 0 <= i < self.raw_units().len() ==> r.min.units()
                <= self.raw_units()[i],
            self.raw_seq().contains(r.max),
            forall|i: int| 0 <= i < self.raw_units().len() ==> r.max.units()
                >= self.raw_units()[i],
            r.std_dev.units() == sqrt_floor(var_spec(self.raw_units())),
            is_sqrt_floor(r.std_dev.units() as int, var_spec(self.raw_units())),
    {
        stats(self)
    }
}

} // verus!
