//! The sample collection specialised to wall-clock durations.

use vstd::prelude::*;

use crate::arith::is_sqrt_floor;
use crate::arith::seq_sum;
use crate::arith::sqrt_floor;
use crate::duration::Duration;
use crate::number::Number;
use crate::numbers::mean_spec;
use crate::numbers::med_spec;
use crate::numbers::units_of;
use crate::numbers::var_spec;
use crate::numbers::Distr;
use crate::numbers::Numbers;

verus! {

/// All measured durations of one variant.
pub struct Durations {
    numbers: Numbers<Duration>,
}

impl Durations {
    pub closed spec fn inner(self) -> Numbers<Duration> {
        self.numbers
    }

    pub open spec fn raw_seq(self) -> Seq<Duration> {
        self.inner().raw_seq()
    }

    pub open spec fn raw_units(self) -> Seq<u64> {
        self.inner().raw_units()
    }

    pub open spec fn well_formed(self) -> bool {
        self.inner().well_formed()
    }

    pub fn new() -> (r: Durations)
        ensures
            r.well_formed(),
            r.raw_seq() == Seq::<Duration>::empty(),
    {
        Durations { numbers: Numbers::new() }
    }

    pub fn push(&mut self, d: Duration)
        requires
            old(self).well_formed(),
        ensures
            final(self).well_formed(),
            final(self).raw_seq() == old(self).raw_seq().push(d),
    {
        self.numbers.push(d)
    }

    pub fn clear(&mut self)
        ensures
            final(self).well_formed(),
            final(self).raw_seq() == Seq::<Duration>::empty(),
    {
        self.numbers.clear()
    }

    pub fn raw(&self) -> (r: &[Duration])
        ensures
            r@ == self.raw_seq(),
    {
        self.numbers.raw()
    }

    pub fn len(&self) -> (r: usize)
        ensures
            r == self.raw_seq().len(),
    {
        self.numbers.len()
    }

    pub fn med(&self) -> (r: Duration)
        requires
            self.well_formed(),
            self.raw_seq().len() > 0,
            self.raw_seq().len() % 2 == 0 ==> self.inner().sorted_units_seq()[
                self.raw_seq().len() as int / 2 - 1] + self.inner().sorted_units_seq()[
                self.raw_seq().len() as int / 2] <= u64::MAX,
        ensures
            r.units() == med_spec(self.inner().sorted_units_seq()),
    {
        proof {
            self.numbers.lemma_len_eq();
        }
        self.numbers.med()
    }

    pub fn min(&self) -> (r: Duration)
        requires
            self.well_formed(),
            self.raw_seq().len() > 0,
        ensures
            self.raw_seq().contains(r),
            forall|i: int| 0 <= i < self.raw_units().len() ==> r.units() <= self.raw_units()[i],
    {
        self.numbers.min()
    }

    pub fn max(&self) -> (r: Duration)
        requires
            self.well_formed(),
            self.raw_seq().len() > 0,
        ensures
            self.raw_seq().contains(r),
            forall|i: int| 0 <= i < self.raw_units().len() ==> r.units() >= self.raw_units()[i],
    {
        self.numbers.max()
    }

    pub fn sum(&self) -> (r: Duration)
        requires
            seq_sum(self.raw_units()) <= u64::MAX,
        ensures
            r.units() == seq_sum(self.raw_units()),
    {
        self.numbers.sum()
    }

    pub fn mean(&self) -> (r: Duration)
        requires
            seq_sum(self.raw_units()) <= u64::MAX,
        ensures
            r.units() == mean_spec(self.raw_units()),
    {
        self.numbers.mean()
    }

    pub fn std_dev(&self) -> (r: Duration)
        requires
            self.raw_seq().len() >= 2,
            seq_sum(self.raw_units()) <= u64::MAX,
        ensures
            is_sqrt_floor(r.units() as int, var_spec(self.raw_units())),
            r.units() == sqrt_floor(var_spec(self.raw_units())),
    {
        self.numbers.std_dev()
    }

    pub fn distr(&self, n: usize, min: Duration, max: Duration) -> (r: Distr)
        requires
            1 <= n <= 0xFFFF_FFFF,
            min.units() < max.units() ==> forall|i: int|
                0 <= i < self.raw_units().len() ==> self.raw_units()[i] >= min.units(),
            min.units() <= max.units(),
        ensures
            r.counts@.len() == n,
            min.units() == max.units() ==> forall|b: int| 0 <= b < n ==> r.counts@[b] == 0,
            min.units() < max.units() ==> forall|b: int|
                0 <= b < n ==> r.counts@[b] == crate::numbers::distr_spec(
                    self.raw_units(), n as int, min.units(), max.units())[b],
    {
        proof {
            if min.units() < max.units() {
                assert forall|i: int| 0 <= i < self.numbers.raw_units().len()
                    implies self.numbers.raw_units()[i] >= min.units() by {
                    assert(self.numbers.raw_units() == self.raw_units());
                    assert(self.raw_units()[i] >= min.units());
                }
            }
        }
        self.numbers.distr(n, min, max)
    }
}

impl Default for Durations {
    /// The empty collection.
    fn default() -> (r: Durations)
        ensures
            r.well_formed(),
            r.raw_seq() == Seq::<Duration>::empty(),
    {
        Durations::new()
    }
}

} // verus!
