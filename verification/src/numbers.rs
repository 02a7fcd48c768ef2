//! The ordered sample collection: all observations for one variant and one
//! measure, kept both in insertion order and in sorted order.

use vstd::prelude::*;
use vstd::multiset::Multiset;
use vstd::pervasive::VecAdditionalExecFns;

use crate::arith::is_sqrt_floor;
use crate::arith::isqrt_u128;
use crate::arith::lemma_seq_sum_nonneg;
use crate::arith::lemma_sq_dev_sum_le_sum_sq;
use crate::arith::lemma_sq_dev_sum_nonneg;
use crate::arith::lemma_sq_dev_sum_push;
use crate::arith::lemma_sqrt_floor_unique;
use crate::arith::seq_sum;
use crate::arith::sq_dev_sum;
use crate::arith::sqrt_floor;
use crate::number::Number;

verus! {

/// The base units of every value in a sequence of measurements.
pub open spec fn units_of<T: Number>(s: Seq<T>) -> Seq<u64> {
    s.map_values(|t: T| t.units())
}

/// The sequence is in non-decreasing order of base units.
pub open spec fn sorted_units(s: Seq<u64>) -> bool {
    forall|i: int, j: int| 0 <= i < j < s.len() ==> s[i] <= s[j]
}

/// Integer mean: the sum of the units divided by their number, zero when empty.
pub open spec fn mean_spec(s: Seq<u64>) -> int {
    if s.len() == 0 {
        0
    } else {
        seq_sum(s) / s.len() as int
    }
}

/// The median of a sorted sequence: the middle element, or the integer mean of
/// the two middle elements when the length is even.
pub open spec fn med_spec(s: Seq<u64>) -> int {
    if s.len() % 2 == 0 {
        (s[s.len() as int / 2 - 1] + s[s.len() as int / 2]) / 2
    } else {
        s[s.len() as int / 2] as int
    }
}

/// Sample variance with Bessel's correction, truncated to an integer.
pub open spec fn var_spec(s: Seq<u64>) -> int {
    sq_dev_sum(s, mean_spec(s)) / (s.len() - 1)
}

/// The histogram bucket of value `v` over `[min, max]` with `n` buckets:
/// `round((v - min) / (max - min) * (n - 1))`, clamped to the last bucket.
/// Meaningful only when `min < max`, `v >= min` and `n >= 1`.
pub open spec fn distr_bucket(v: u64, min: u64, max: u64, n: int) -> int {
    let q = (2 * (v - min) * (n - 1) + (max - min)) / (2 * (max - min));
    if q < 0 {
        0
    } else if q > n - 1 {
        n - 1
    } else {
        q
    }
}

/// Bucket counts of a sequence of measurements, built one observation at a time.
pub open spec fn distr_spec(s: Seq<u64>, n: int, min: u64, max: u64) -> Seq<int>
    decreases s.len(),
{
    if s.len() == 0 {
        Seq::new(n as nat, |i: int| 0)
    } else {
        let prev = distr_spec(s.drop_last(), n, min, max);
        let b = distr_bucket(s.last(), min, max, n);
        prev.update(b, prev[b] + 1)
    }
}

/// A histogram: one count per bucket.
pub struct Distr {
    pub counts: Vec<u64>,
}

/// Maximum of a sequence of counts, zero when empty.
pub open spec fn seq_max(s: Seq<u64>) -> u64
    decreases s.len(),
{
    if s.len() == 0 {
        0
    } else if s.last() >= seq_max(s.drop_last()) {
        s.last()
    } else {
        seq_max(s.drop_last())
    }
}

impl Distr {
    /// The tallest bucket.
    pub fn max(&self) -> (r: u64)
        ensures
            r == seq_max(self.counts@),
    {
        let mut r: u64 = 0;
        let mut i: usize = 0;
        while i < self.counts.len()
            invariant
                i <= self.counts.len(),
                r == seq_max(self.counts@.take(i as int)),
            decreases self.counts.len() - i,
        {
            proof {
                assert(self.counts@.take(i + 1).drop_last() =~= self.counts@.take(i as int));
                assert(self.counts@.take(i + 1).last() == self.counts@[i as int]);
            }
            if self.counts[i] > r {
                r = self.counts[i];
            }
            i += 1;
        }
        proof {
            assert(self.counts@.take(self.counts@.len() as int) =~= self.counts@);
        }
        r
    }
}

/// Whether the median of the sorted units can be computed without overflow.
pub open spec fn med_fits(sorted: Seq<u64>) -> bool {
    sorted.len() % 2 == 0 && sorted.len() > 0 ==> sorted[sorted.len() as int / 2 - 1]
        + sorted[sorted.len() as int / 2] <= u64::MAX
}

/// Minimum of a sequence of units; the largest unit when empty.
pub open spec fn seq_min_u64(s: Seq<u64>) -> u64
    decreases s.len(),
{
    if s.len() == 0 {
        u64::MAX
    } else if s.last() <= seq_min_u64(s.drop_last()) {
        s.last()
    } else {
        seq_min_u64(s.drop_last())
    }
}

/// The minimum is an element and a lower bound.
pub proof fn lemma_seq_min_bounds(s: Seq<u64>)
    ensures
        s.len() > 0 ==> s.contains(seq_min_u64(s)),
        forall|i: int| 0 <= i < s.len() ==> seq_min_u64(s) <= s[i],
    decreases s.len(),
{
    if s.len() > 0 {
        lemma_seq_min_bounds(s.drop_last());
        if s.len() > 1 && s.last() > seq_min_u64(s.drop_last()) {
            assert(s.drop_last().contains(seq_min_u64(s.drop_last())));
            let j = choose|j: int| 0 <= j < s.drop_last().len() && s.drop_last()[j]
                == seq_min_u64(s.drop_last());
            assert(s[j] == seq_min_u64(s));
        }
        assert forall|i: int| 0 <= i < s.len() implies seq_min_u64(s) <= s[i] by {
            if i < s.len() - 1 {
                assert(s.drop_last()[i] == s[i]);
            }
        }
    }
}

/// The maximum is an element and an upper bound.
pub proof fn lemma_seq_max_bounds(s: Seq<u64>)
    ensures
        s.len() > 0 ==> s.contains(seq_max(s)),
        forall|i: int| 0 <= i < s.len() ==> s[i] <= seq_max(s),
    decreases s.len(),
{
    if s.len() > 0 {
        lemma_seq_max_bounds(s.drop_last());
        if s.len() > 1 && s.last() < seq_max(s.drop_last()) {
            assert(s.drop_last().contains(seq_max(s.drop_last())));
            let j = choose|j: int| 0 <= j < s.drop_last().len() && s.drop_last()[j]
                == seq_max(s.drop_last());
            assert(s[j] == seq_max(s));
        }
        assert forall|i: int| 0 <= i < s.len() implies s[i] <= seq_max(s) by {
            if i < s.len() - 1 {
                assert(s.drop_last()[i] == s[i]);
            }
        }
    }
}

/// All observations for one variant and one measure, in insertion order and
/// in sorted order.
pub struct Numbers<T: Number> {
    raw: Vec<T>,
    sorted: Vec<T>,
}

impl<T: Number> Numbers<T> {
    /// The observations in insertion order.
    pub closed spec fn raw_seq(self) -> Seq<T> {
        self.raw@
    }

    /// The observations in sorted order.
    pub closed spec fn sorted_seq(self) -> Seq<T> {
        self.sorted@
    }

    pub open spec fn raw_units(self) -> Seq<u64> {
        units_of(self.raw_seq())
    }

    pub open spec fn sorted_units_seq(self) -> Seq<u64> {
        units_of(self.sorted_seq())
    }

    /// The sorted sequence is a permutation of the raw sequence, in
    /// non-decreasing order of units.
    pub open spec fn well_formed(self) -> bool {
        &&& self.sorted_seq().to_multiset() == self.raw_seq().to_multiset()
        &&& sorted_units(self.sorted_units_seq())
    }

    pub fn new() -> (r: Numbers<T>)
        ensures
            r.well_formed(),
            r.raw_seq() == Seq::<T>::empty(),
    {
        let r = Numbers { raw: Vec::new(), sorted: Vec::new() };
        proof {
            r.raw@.to_multiset_ensures();
            assert(r.raw@ =~= Seq::<T>::empty());
            assert(r.sorted@ =~= Seq::<T>::empty());
        }
        r
    }

    /// Record one observation: append to the raw sequence and insert into the
    /// sorted sequence at its binary-searched position.
    pub fn push(&mut self, d: T)
        requires
            old(self).well_formed(),
        ensures
            final(self).well_formed(),
            final(self).raw_seq() == old(self).raw_seq().push(d),
    {
        let du = d.to_units();
        proof {
            self.raw@.to_multiset_ensures();
        }
        self.raw.push(d);

        let mut lo: usize = 0;
        let mut hi: usize = self.sorted.len();
        while lo < hi
            invariant
                lo <= hi <= self.sorted@.len(),
                forall|k: int| 0 <= k < lo ==> self.sorted@[k].units() < du,
                forall|k: int| hi <= k < self.sorted@.len() ==> self.sorted@[k].units() >= du,
                sorted_units(units_of(self.sorted@)),
            decreases hi - lo,
        {
            let mid = lo + (hi - lo) / 2;
            if self.sorted[mid].to_units() < du {
                proof {
                    assert forall|k: int| 0 <= k < mid + 1 implies self.sorted@[k].units()
                        < du by {
                        assert(units_of(self.sorted@)[k] <= units_of(self.sorted@)[mid as int]);
                    }
                }
                lo = mid + 1;
            } else {
                proof {
                    assert forall|k: int| mid <= k < self.sorted@.len() implies self.sorted@[
                        k].units() >= du by {
                        if k > mid {
                            assert(units_of(self.sorted@)[mid as int] <= units_of(
                                self.sorted@)[k]);
                        }
                    }
                }
                hi = mid;
            }
        }

        let ghost old_sorted = self.sorted@;
        proof {
            self.sorted@.to_multiset_ensures();
        }
        self.sorted.insert(lo, d);
        proof {
            let ns = self.sorted@;
            ns.to_multiset_ensures();
            // sortedness of the new sequence
            assert forall|i: int, j: int| 0 <= i < j < units_of(ns).len() implies units_of(ns)[i]
                <= units_of(ns)[j] by {
                let l = lo as int;
                if i < l && j < l {
                    assert(ns[i] == old_sorted[i] && ns[j] == old_sorted[j]);
                    assert(units_of(old_sorted)[i] <= units_of(old_sorted)[j]);
                } else if i < l && j == l {
                    assert(ns[i] == old_sorted[i]);
                } else if i < l && j > l {
                    assert(ns[i] == old_sorted[i] && ns[j] == old_sorted[j - 1]);
                    if j - 1 >= l {
                        assert(old_sorted[j - 1].units() >= du);
                        assert(units_of(old_sorted)[i] < du);
                    } else {
                        assert(units_of(old_sorted)[i] <= units_of(old_sorted)[j - 1]);
                    }
                } else if i == l && j > l {
                    assert(ns[j] == old_sorted[j - 1]);
                    assert(old_sorted[j - 1].units() >= du);
                } else if i > l && j > l {
                    assert(ns[i] == old_sorted[i - 1] && ns[j] == old_sorted[j - 1]);
                    assert(units_of(old_sorted)[i - 1] <= units_of(old_sorted)[j - 1]);
                }
            }
            // the new sorted sequence is a permutation of the new raw sequence
            assert(ns.remove(lo as int) =~= old_sorted);
            assert(ns.to_multiset().remove(d) =~= old_sorted.to_multiset());
            assert(ns.to_multiset().count(d) > 0) by {
                assert(ns[lo as int] == d);
                assert(ns.contains(d));
            }
            assert(ns.to_multiset() =~= old_sorted.to_multiset().insert(d));
        }
    }

    /// Forget every observation.
    pub fn clear(&mut self)
        ensures
            final(self).well_formed(),
            final(self).raw_seq() == Seq::<T>::empty(),
    {
        self.raw.clear();
        self.sorted.clear();
        proof {
            self.raw@.to_multiset_ensures();
            assert(self.raw@ =~= Seq::<T>::empty());
            assert(self.sorted@ =~= Seq::<T>::empty());
        }
    }

    /// The observations in insertion order.
    pub fn raw(&self) -> (r: &[T])
        ensures
            r@ == self.raw_seq(),
    {
        self.raw.as_slice()
    }

    pub fn len(&self) -> (r: usize)
        ensures
            r == self.raw_seq().len(),
    {
        self.raw.len()
    }

    /// The smallest observation.
    pub fn min(&self) -> (r: T)
        requires
            self.well_formed(),
            self.raw_seq().len() > 0,
        ensures
            self.raw_seq().contains(r),
            forall|i: int| 0 <= i < self.raw_units().len() ==> r.units() <= self.raw_units()[i],
    {
        proof {
            self.lemma_len_eq();
            self.lemma_sorted_index_in_raw(0);
        }
        let r = self.sorted[0];
        proof {
            assert forall|i: int| 0 <= i < self.raw_units().len() implies r.units()
                <= self.raw_units()[i] by {
                self.lemma_raw_index_in_sorted(i);
                let j = choose|j: int| 0 <= j < self.sorted_seq().len() && self.sorted_seq()[j]
                    == self.raw_seq()[i];
                if j > 0 {
                    assert(self.sorted_units_seq()[0] <= self.sorted_units_seq()[j]);
                }
            }
        }
        r
    }

    /// The largest observation.
    pub fn max(&self) -> (r: T)
        requires
            self.well_formed(),
            self.raw_seq().len() > 0,
        ensures
            self.raw_seq().contains(r),
            forall|i: int| 0 <= i < self.raw_units().len() ==> r.units() >= self.raw_units()[i],
    {
        proof {
            self.lemma_len_eq();
            self.lemma_sorted_index_in_raw(self.sorted_seq().len() - 1);
        }
        let r = self.sorted[self.sorted.len() - 1];
        proof {
            let last = self.sorted_seq().len() - 1;
            assert forall|i: int| 0 <= i < self.raw_units().len() implies r.units()
                >= self.raw_units()[i] by {
                self.lemma_raw_index_in_sorted(i);
                let j = choose|j: int| 0 <= j < self.sorted_seq().len() && self.sorted_seq()[j]
                    == self.raw_seq()[i];
                if j < last {
                    assert(self.sorted_units_seq()[j] <= self.sorted_units_seq()[last]);
                }
            }
        }
        r
    }

    /// The median: the middle of the sorted sequence, or the integer mean of
    /// the two middle elements when the length is even.
    pub fn med(&self) -> (r: T)
        requires
            self.well_formed(),
            self.raw_seq().len() > 0,
            self.raw_seq().len() % 2 == 0 ==> self.sorted_units_seq()[
                self.raw_seq().len() as int / 2 - 1] + self.sorted_units_seq()[
                self.raw_seq().len() as int / 2] <= u64::MAX,
        ensures
            r.units() == med_spec(self.sorted_units_seq()),
    {
        proof {
            self.lemma_len_eq();
        }
        let n = self.sorted.len();
        if n % 2 == 0 {
            let x = self.sorted[n / 2 - 1].to_units();
            let y = self.sorted[n / 2].to_units();
            T::from_units((x + y) / 2)
        } else {
            let r = self.sorted[n / 2];
            proof {
                T::lemma_units_injective(r, r);
            }
            T::from_units(r.to_units())
        }
    }

    /// The sum of all observations.
    pub fn sum(&self) -> (r: T)
        requires
            seq_sum(self.raw_units()) <= u64::MAX,
        ensures
            r.units() == seq_sum(self.raw_units()),
    {
        let mut acc: u64 = 0;
        let mut i: usize = 0;
        while i < self.raw.len()
            invariant
                i <= self.raw@.len(),
                acc == seq_sum(self.raw_units().take(i as int)),
                seq_sum(self.raw_units()) <= u64::MAX,
            decreases self.raw@.len() - i,
        {
            proof {
                assert(self.raw_units().take(i + 1).drop_last() =~= self.raw_units().take(
                    i as int));
                assert(self.raw_units().take(i + 1).last() == self.raw_units()[i as int]);
                self.lemma_prefix_sum_le(i + 1);
                lemma_seq_sum_nonneg(self.raw_units().take(i as int));
            }
            acc = acc + self.raw[i].to_units();
            i += 1;
        }
        proof {
            assert(self.raw_units().take(self.raw_units().len() as int) =~= self.raw_units());
        }
        T::from_units(acc)
    }

    /// The mean: the sum divided by the count, or the zero value when empty.
    pub fn mean(&self) -> (r: T)
        requires
            seq_sum(self.raw_units()) <= u64::MAX,
        ensures
            r.units() == mean_spec(self.raw_units()),
    {
        if self.raw.len() == 0 {
            T::from_units(0)
        } else {
            let s = self.sum().to_units();
            T::from_units(s / self.raw.len() as u64)
        }
    }

    /// Sample standard deviation with Bessel's correction, truncated to whole
    /// units.
    pub fn std_dev(&self) -> (r: T)
        requires
            self.raw_seq().len() >= 2,
            seq_sum(self.raw_units()) <= u64::MAX,
        ensures
            is_sqrt_floor(r.units() as int, var_spec(self.raw_units())),
            r.units() == sqrt_floor(var_spec(self.raw_units())),
    {
        let m = self.mean().to_units();
        let ghost s = self.raw_units();
        proof {
            lemma_sq_dev_sum_le_sum_sq(s, m as int);
            lemma_seq_sum_nonneg(s);
        }
        let mut acc: u128 = 0;
        let mut i: usize = 0;
        while i < self.raw.len()
            invariant
                i <= self.raw@.len(),
                s == self.raw_units(),
                m == mean_spec(s),
                seq_sum(s) <= u64::MAX,
                acc == sq_dev_sum(s.take(i as int), m as int),
            decreases self.raw@.len() - i,
        {
            let u = self.raw[i].to_units();
            let diff: u64 = if u >= m {
                u - m
            } else {
                m - u
            };
            proof {
                lemma_seq_sum_nonneg(s);
                lemma_sq_dev_sum_le_sum_sq(s, m as int);
                assert(s.take(i + 1).drop_last() =~= s.take(i as int));
                assert(s.take(i + 1).last() == s[i as int]);
                lemma_sq_dev_sum_push(s.take(i as int), m as int, s[i as int]);
                assert(s.take(i as int).push(s[i as int]) =~= s.take(i + 1));
                assert((diff as int) * (diff as int) == (s[i as int] - m) * (s[i as int] - m))
                    by (nonlinear_arith)
                    requires
                        diff == if s[i as int] >= m { s[i as int] - m } else { m - s[i as int] },
                ;
                self.lemma_sq_dev_prefix_le(i + 1, m as int);
                lemma_sq_dev_sum_nonneg(s.take(i as int), m as int);
                assert(seq_sum(s) * seq_sum(s) <= (0xFFFF_FFFF_FFFF_FFFF as int) * (
                    0xFFFF_FFFF_FFFF_FFFF as int)) by (nonlinear_arith)
                    requires 0 <= seq_sum(s) <= 0xFFFF_FFFF_FFFF_FFFF;
                assert((0xFFFF_FFFF_FFFF_FFFF as int) * (0xFFFF_FFFF_FFFF_FFFF as int)
                    < u128::MAX);
            }
            acc = acc + (diff as u128) * (diff as u128);
            i += 1;
        }
        proof {
            assert(s.take(s.len() as int) =~= s);
            lemma_sq_dev_sum_nonneg(s, m as int);
        }
        let var = acc / ((self.raw.len() - 1) as u128);
        let r = isqrt_u128(var);
        proof {
            let x = var_spec(self.raw_units());
            assert(exists|w: int| is_sqrt_floor(w, x)) by {
                assert(is_sqrt_floor(r as int, x));
            }
            lemma_sqrt_floor_unique(r as int, sqrt_floor(x), x);
        }
        T::from_units(r)
    }

    /// Bucket counts of the observations over `[min, max]`, as the
    /// distribution plot uses them: `round((v - min) / (max - min) * (n - 1))`
    /// selects the bucket of each observation, clamped into range; a
    /// degenerate range (`min == max`) leaves every bucket at zero.
    pub fn distr(&self, n: usize, min: T, max: T) -> (r: Distr)
        requires
            1 <= n <= 0xFFFF_FFFF,
            min.units() < max.units() ==> forall|i: int|
                0 <= i < self.raw_units().len() ==> self.raw_units()[i] >= min.units(),
            min.units() <= max.units(),
        ensures
            r.counts@.len() == n,
            min.units() == max.units() ==> forall|b: int| 0 <= b < n ==> r.counts@[b] == 0,
            min.units() < max.units() ==> forall|b: int|
                0 <= b < n ==> r.counts@[b] == distr_spec(
                    self.raw_units(), n as int, min.units(), max.units())[b],
    {
        let minu = min.to_units();
        let maxu = max.to_units();
        let mut counts: Vec<u64> = Vec::new();
        let mut k: usize = 0;
        while k < n
            invariant
                k <= n,
                counts@.len() == k,
                forall|b: int| 0 <= b < k ==> counts@[b] == 0,
            decreases n - k,
        {
            counts.push(0);
            k += 1;
        }
        if minu == maxu {
            return Distr { counts };
        }
        let ghost s = self.raw_units();
        proof {
            self.lemma_distr_spec_len(0, n as int, minu, maxu);
            assert forall|b: int| 0 <= b < n implies distr_spec(s.take(0), n as int, minu, maxu)[b]
                == 0 by {
                assert(s.take(0) =~= Seq::<u64>::empty());
            }
        }
        let mut i: usize = 0;
        while i < self.raw.len()
            invariant
                i <= self.raw@.len(),
                s == self.raw_units(),
                1 <= n <= 0xFFFF_FFFF,
                minu == min.units() && maxu == max.units(),
                minu < maxu,
                forall|j: int| 0 <= j < s.len() ==> s[j] >= minu,
                counts@.len() == n,
                distr_spec(s.take(i as int), n as int, minu, maxu).len() == n,
                forall|b: int| 0 <= b < n ==> counts@[b] == distr_spec(
                    s.take(i as int), n as int, minu, maxu)[b],
            decreases self.raw@.len() - i,
        {
            let u = self.raw[i].to_units();
            proof {
                assert(s[i as int] == self.raw_seq()[i as int].units());
                assert(u >= minu);
            }
            let nu = (u - minu) as u128;
            let n1 = (n - 1) as u128;
            let den = (maxu - minu) as u128;
            proof {
                assert(2 * nu * n1 + den <= u128::MAX) by (nonlinear_arith)
                    requires
                        nu <= 0xFFFF_FFFF_FFFF_FFFFu128,
                        den <= 0xFFFF_FFFF_FFFF_FFFFu128,
                        n1 <= 0xFFFF_FFFEu128,
                ;
            }
            let q128 = (2 * nu * n1 + den) / (2 * den);
            let b: usize = if q128 > n1 {
                n - 1
            } else {
                q128 as usize
            };
            proof {
                assert(b == distr_bucket(u, minu, maxu, n as int));
                assert(s.take(i + 1).drop_last() =~= s.take(i as int));
                assert(s.take(i + 1).last() == s[i as int]);
                self.lemma_distr_spec_len(i + 1, n as int, minu, maxu);
                self.lemma_distr_counts_bounded(i as int, n as int, minu, maxu);
                assert(0 <= b < n);
            }
            let c = counts[b];
            counts.set(b, c + 1);
            i += 1;
        }
        proof {
            assert(s.take(s.len() as int) =~= s);
        }
        Distr { counts }
    }

    /// Whether the sum of all observations fits the unit type.
    pub fn sum_fits(&self) -> (r: bool)
        ensures
            r == (seq_sum(self.raw_units()) <= u64::MAX),
    {
        let mut acc: u64 = 0;
        let mut i: usize = 0;
        while i < self.raw.len()
            invariant
                i <= self.raw@.len(),
                acc == seq_sum(self.raw_units().take(i as int)),
                seq_sum(self.raw_units().take(i as int)) <= u64::MAX,
            decreases self.raw@.len() - i,
        {
            proof {
                assert(self.raw_units().take(i + 1).drop_last() =~= self.raw_units().take(
                    i as int));
                assert(self.raw_units().take(i + 1).last() == self.raw_units()[i as int]);
                lemma_seq_sum_nonneg(self.raw_units().take(i as int));
            }
            let u = self.raw[i].to_units();
            if acc as u128 + u as u128 > u64::MAX as u128 {
                proof {
                    self.lemma_suffix_sum_ge(i + 1);
                }
                return false;
            }
            acc = acc + u;
            i += 1;
        }
        proof {
            assert(self.raw_units().take(self.raw_units().len() as int) =~= self.raw_units());
        }
        true
    }

    /// Whether the median can be computed without overflow.
    pub fn med_fits_check(&self) -> (r: bool)
        requires
            self.well_formed(),
        ensures
            r == med_fits(self.sorted_units_seq()),
    {
        proof {
            self.lemma_len_eq();
        }
        let n = self.sorted.len();
        if n == 0 || n % 2 != 0 {
            true
        } else {
            let x = self.sorted[n / 2 - 1].to_units();
            let y = self.sorted[n / 2].to_units();
            (x as u128) + (y as u128) <= u64::MAX as u128
        }
    }

    /// A partial sum never exceeds the total.
    proof fn lemma_suffix_sum_ge(self, i: int)
        requires
            0 <= i <= self.raw_units().len(),
        ensures
            seq_sum(self.raw_units()) >= seq_sum(self.raw_units().take(i)),
        decreases self.raw_units().len() - i,
    {
        let s = self.raw_units();
        if i == s.len() {
            assert(s.take(i) =~= s);
        } else {
            self.lemma_suffix_sum_ge(i + 1);
            assert(s.take(i + 1).drop_last() =~= s.take(i));
        }
    }

    /// Every index of the sorted sequence holds an element of the raw sequence.
    proof fn lemma_sorted_index_in_raw(self, j: int)
        requires
            self.well_formed(),
            0 <= j < self.sorted_seq().len(),
        ensures
            self.raw_seq().contains(self.sorted_seq()[j]),
    {
        self.sorted_seq().to_multiset_ensures();
        self.raw_seq().to_multiset_ensures();
        assert(self.sorted_seq().contains(self.sorted_seq()[j]));
        assert(self.sorted_seq().to_multiset().count(self.sorted_seq()[j]) > 0);
        assert(self.raw_seq().to_multiset().count(self.sorted_seq()[j]) > 0);
    }

    /// Every element of the raw sequence appears somewhere in the sorted one.
    proof fn lemma_raw_index_in_sorted(self, i: int)
        requires
            self.well_formed(),
            0 <= i < self.raw_seq().len(),
        ensures
            exists|j: int| 0 <= j < self.sorted_seq().len() && self.sorted_seq()[j]
                == self.raw_seq()[i],
    {
        self.sorted_seq().to_multiset_ensures();
        self.raw_seq().to_multiset_ensures();
        assert(self.raw_seq().contains(self.raw_seq()[i]));
        assert(self.raw_seq().to_multiset().count(self.raw_seq()[i]) > 0);
        assert(self.sorted_seq().to_multiset().count(self.raw_seq()[i]) > 0);
        assert(self.sorted_seq().contains(self.raw_seq()[i]));
        let j = choose|j: int| 0 <= j < self.sorted_seq().len() && self.sorted_seq()[j]
            == self.raw_seq()[i];
        assert(self.sorted_seq()[j] == self.raw_seq()[i]);
    }

    /// Both orders hold the same number of observations.
    pub proof fn lemma_len_eq(self)
        requires
            self.well_formed(),
        ensures
            self.sorted_seq().len() == self.raw_seq().len(),
            self.sorted_units_seq().len() == self.raw_units().len(),
    {
        self.sorted_seq().to_multiset_ensures();
        self.raw_seq().to_multiset_ensures();
    }

    proof fn lemma_prefix_sum_le(self, i: int)
        requires
            0 <= i <= self.raw_units().len(),
        ensures
            seq_sum(self.raw_units().take(i)) <= seq_sum(self.raw_units()),
        decreases self.raw_units().len() - i,
    {
        let s = self.raw_units();
        if i == s.len() {
            assert(s.take(i) =~= s);
        } else {
            self.lemma_prefix_sum_le(i + 1);
            assert(s.take(i + 1).drop_last() =~= s.take(i));
        }
    }

    proof fn lemma_sq_dev_prefix_le(self, i: int, m: int)
        requires
            0 <= i <= self.raw_units().len(),
        ensures
            sq_dev_sum(self.raw_units().take(i), m) <= sq_dev_sum(self.raw_units(), m),
        decreases self.raw_units().len() - i,
    {
        let s = self.raw_units();
        if i == s.len() {
            assert(s.take(i) =~= s);
        } else {
            self.lemma_sq_dev_prefix_le(i + 1, m);
            assert(s.take(i + 1).drop_last() =~= s.take(i));
            assert((s.take(i + 1).last() - m) * (s.take(i + 1).last() - m) >= 0)
                by (nonlinear_arith);
        }
    }

    proof fn lemma_distr_spec_len(self, i: int, n: int, min: u64, max: u64)
        requires
            0 <= i <= self.raw_units().len(),
            n >= 1,
        ensures
            distr_spec(self.raw_units().take(i), n, min, max).len() == n,
    {
        lemma_distr_spec_len_general(self.raw_units().take(i), n, min, max);
    }

    proof fn lemma_distr_counts_bounded(self, i: int, n: int, min: u64, max: u64)
        requires
            0 <= i <= self.raw_units().len(),
            n >= 1,
        ensures
            forall|b: int| 0 <= b < n ==> 0 <= #[trigger] distr_spec(
                self.raw_units().take(i), n, min, max)[b] <= i,
    {
        lemma_distr_spec_bounded(self.raw_units().take(i), n, min, max);
    }
}

impl<T: Number> Default for Numbers<T> {
    /// The empty collection.
    fn default() -> (r: Numbers<T>)
        ensures
            r.well_formed(),
            r.raw_seq() == Seq::<T>::empty(),
    {
        Numbers::new()
    }
}

/// The bucket-count sequence always has one entry per bucket.
pub proof fn lemma_distr_spec_len_general(s: Seq<u64>, n: int, min: u64, max: u64)
    requires
        n >= 1,
    ensures
        distr_spec(s, n, min, max).len() == n,
    decreases s.len(),
{
    if s.len() > 0 {
        lemma_distr_spec_len_general(s.drop_last(), n, min, max);
    }
}

/// How many observations of the multiset fall into bucket `b`.
pub open spec fn bucket_count(ms: Multiset<u64>, b: int, n: int, min: u64, max: u64) -> nat {
    ms.filter(|v: u64| distr_bucket(v, min, max, n) == b).len()
}

/// Each entry of the bucket-count sequence counts exactly the observations
/// that fall into that bucket, as a function of the multiset of observations.
pub proof fn lemma_distr_spec_counts_multiset(s: Seq<u64>, n: int, min: u64, max: u64, b: int)
    requires
        n >= 1,
        0 <= b < n,
    ensures
        distr_spec(s, n, min, max)[b] == bucket_count(s.to_multiset(), b, n, min, max),
    decreases s.len(),
{
    broadcast use vstd::multiset::group_multiset_axioms;

    s.to_multiset_ensures();
    let f = |v: u64| distr_bucket(v, min, max, n) == b;
    if s.len() == 0 {
        assert(s =~= Seq::<u64>::empty());
        assert(s.to_multiset().len() == 0) by {
            vstd::multiset::lemma_multiset_empty_len(s.to_multiset());
        }
        assert(s.to_multiset() =~= Multiset::<u64>::empty());
        assert(s.to_multiset().filter(f) =~= Multiset::<u64>::empty());
        vstd::multiset::lemma_multiset_empty_len(s.to_multiset().filter(f));
    } else {
        let d = s.drop_last();
        let v = s.last();
        lemma_distr_spec_counts_multiset(d, n, min, max, b);
        lemma_distr_spec_len_general(d, n, min, max);
        d.to_multiset_ensures();
        assert(d.push(v) =~= s);
        assert(s.to_multiset() == d.to_multiset().insert(v));
        if f(v) {
            assert(s.to_multiset().filter(f) =~= d.to_multiset().filter(f).insert(v));
            vstd::multiset::lemma_insert_len(d.to_multiset().filter(f), v);
        } else {
            assert(s.to_multiset().filter(f) =~= d.to_multiset().filter(f));
        }
    }
}

/// The bucket counts depend only on the multiset of observations, never on
/// the order in which they were inserted.
pub proof fn lemma_distr_insertion_order(s1: Seq<u64>, s2: Seq<u64>, n: int, min: u64, max: u64)
    requires
        n >= 1,
        s1.to_multiset() == s2.to_multiset(),
    ensures
        distr_spec(s1, n, min, max) == distr_spec(s2, n, min, max),
{
    lemma_distr_spec_len_general(s1, n, min, max);
    lemma_distr_spec_len_general(s2, n, min, max);
    assert forall|b: int| 0 <= b < n implies distr_spec(s1, n, min, max)[b] == distr_spec(
        s2, n, min, max)[b] by {
        lemma_distr_spec_counts_multiset(s1, n, min, max, b);
        lemma_distr_spec_counts_multiset(s2, n, min, max, b);
    }
    assert(distr_spec(s1, n, min, max) =~= distr_spec(s2, n, min, max));
}

/// Total of a sequence of bucket counts.
pub open spec fn seq_total(q: Seq<int>) -> int
    decreases q.len(),
{
    if q.len() == 0 {
        0
    } else {
        seq_total(q.drop_last()) + q.last()
    }
}

proof fn lemma_seq_total_update(q: Seq<int>, b: int, v: int)
    requires
        0 <= b < q.len(),
    ensures
        seq_total(q.update(b, v)) == seq_total(q) - q[b] + v,
    decreases q.len(),
{
    if b == q.len() - 1 {
        assert(q.update(b, v).drop_last() =~= q.drop_last());
    } else {
        assert(q.update(b, v).drop_last() =~= q.drop_last().update(b, v));
        lemma_seq_total_update(q.drop_last(), b, v);
    }
}

proof fn lemma_seq_total_zeros(n: int)
    requires
        n >= 0,
    ensures
        seq_total(Seq::new(n as nat, |i: int| 0)) == 0,
    decreases n,
{
    if n > 0 {
        assert(Seq::new(n as nat, |i: int| 0int).drop_last() =~= Seq::new(
            (n - 1) as nat, |i: int| 0int));
        lemma_seq_total_zeros(n - 1);
    }
}

/// Every observation lands in exactly one bucket: the bucket counts add up to
/// the number of observations.
pub proof fn lemma_distr_total(s: Seq<u64>, n: int, min: u64, max: u64)
    requires
        n >= 1,
    ensures
        seq_total(distr_spec(s, n, min, max)) == s.len(),
    decreases s.len(),
{
    if s.len() == 0 {
        lemma_seq_total_zeros(n);
    } else {
        lemma_distr_total(s.drop_last(), n, min, max);
        lemma_distr_spec_len_general(s.drop_last(), n, min, max);
        let prev = distr_spec(s.drop_last(), n, min, max);
        let b = distr_bucket(s.last(), min, max, n);
        lemma_seq_total_update(prev, b, prev[b] + 1);
    }
}

/// No bucket can count more observations than there are.
pub proof fn lemma_distr_spec_bounded(s: Seq<u64>, n: int, min: u64, max: u64)
    requires
        n >= 1,
    ensures
        forall|b: int| 0 <= b < n ==> 0 <= #[trigger] distr_spec(s, n, min, max)[b] <= s.len(),
    decreases s.len(),
{
    lemma_distr_spec_len_general(s, n, min, max);
    if s.len() > 0 {
        lemma_distr_spec_bounded(s.drop_last(), n, min, max);
        lemma_distr_spec_len_general(s.drop_last(), n, min, max);
    }
}

} // verus!
