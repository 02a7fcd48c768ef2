//! Order statistics over an already-sorted slice of measurements, and
//! range filtering by binary search.

use vstd::prelude::*;

use crate::arith::is_sqrt_floor;
use crate::arith::isqrt_u128;
use crate::arith::lemma_seq_sum_nonneg;
use crate::arith::lemma_sq_dev_sum_le_sum_sq;
use crate::arith::lemma_sq_dev_sum_nonneg;
use crate::arith::lemma_sq_dev_sum_push;
use crate::arith::lemma_sqrt_floor_unique;
use crate::arith::seq_sum;
use crate::arith::sq_dev_sum;
use crate::arith::sqrt_floor;
use crate::numbers::mean_spec;
use crate::numbers::med_spec;
use crate::numbers::sorted_units;
use crate::numbers::var_spec;

verus! {

/// A view over a slice of measurements that is sorted in non-decreasing order.
#[derive(Clone, Copy, Debug, PartialEq, Eq)]
pub struct NumbersSorted<'a>(pub &'a [u64]);

/// Which side of a threshold `filter` keeps.
#[derive(Clone, Copy, Debug)]
pub enum FilterCond {
    Lt,
    Le,
    Ge,
    Gt,
}

/// Whether `x` is on the kept side of `val`.
pub open spec fn cond_holds(cond: FilterCond, x: u64, val: u64) -> bool {
    match cond {
        FilterCond::Lt => x < val,
        FilterCond::Le => x <= val,
        FilterCond::Ge => x >= val,
        FilterCond::Gt => x > val,
    }
}

/// A prefix whose elements all satisfy `pred`, followed only by elements that
/// do not, is exactly the filtered sequence.
proof fn lemma_split_is_filter(s: Seq<u64>, pred: spec_fn(u64) -> bool, i: int)
    requires
        0 <= i <= s.len(),
        forall|k: int| 0 <= k < i ==> pred(s[k]),
        forall|k: int| i <= k < s.len() ==> !pred(s[k]),
    ensures
        s.filter(pred) == s.take(i),
    decreases s.len(),
{
    reveal(Seq::filter);
    if s.len() == 0 {
        assert(s.take(i) =~= s);
    } else if i == s.len() {
        assert(pred(s[s.len() - 1]));
        assert(s.last() == s[s.len() - 1]);
        lemma_split_is_filter(s.drop_last(), pred, i - 1);
        assert(s.drop_last().take(i - 1) =~= s.drop_last());
        assert(s.filter(pred) == s.drop_last().filter(pred).push(s.last()));
        assert(s.drop_last().push(s.last()) =~= s);
        assert(s.take(i) =~= s);
    } else {
        assert(!pred(s[s.len() - 1]));
        assert(s.last() == s[s.len() - 1]);
        assert(s.filter(pred) == s.drop_last().filter(pred));
        lemma_split_is_filter(s.drop_last(), pred, i);
        assert(s.drop_last().take(i) =~= s.take(i));
    }
}

/// The mirrored fact: the suffix from `i` on is the filter by the negated side.
proof fn lemma_split_is_filter_suffix(s: Seq<u64>, pred: spec_fn(u64) -> bool, i: int)
    requires
        0 <= i <= s.len(),
        forall|k: int| 0 <= k < i ==> !pred(s[k]),
        forall|k: int| i <= k < s.len() ==> pred(s[k]),
    ensures
        s.filter(pred) == s.skip(i),
    decreases s.len(),
{
    reveal(Seq::filter);
    if s.len() == 0 {
        assert(s.skip(i) =~= s);
    } else if i == s.len() {
        assert(!pred(s[s.len() - 1]));
        assert(s.last() == s[s.len() - 1]);
        assert(s.filter(pred) == s.drop_last().filter(pred));
        lemma_split_is_filter_suffix(s.drop_last(), pred, i - 1);
        assert(s.skip(i) =~= Seq::<u64>::empty());
        assert(s.drop_last().skip(i - 1) =~= Seq::<u64>::empty());
    } else {
        assert(pred(s[s.len() - 1]));
        assert(s.last() == s[s.len() - 1]);
        assert(s.filter(pred) == s.drop_last().filter(pred).push(s.last()));
        lemma_split_is_filter_suffix(s.drop_last(), pred, i);
        assert(s.drop_last().skip(i) =~= s.skip(i).drop_last());
        assert(s.skip(i).drop_last().push(s.last()) =~= s.skip(i));
    }
}

impl<'a> NumbersSorted<'a> {
    pub open spec fn view(self) -> Seq<u64> {
        self.0@
    }

    pub open spec fn wf(self) -> bool {
        sorted_units(self@)
    }

    pub fn len(&self) -> (r: usize)
        ensures
            r == self@.len(),
    {
        self.0.len()
    }

    pub fn is_empty(&self) -> (r: bool)
        ensures
            r == (self@.len() == 0),
    {
        self.0.len() == 0
    }

    /// The smallest element: the first, since the slice is sorted.
    pub fn min(&self) -> (r: Option<u64>)
        ensures
            self@.len() == 0 ==> r is None,
            self@.len() > 0 ==> r == Some(self@[0]),
    {
        if self.0.len() == 0 {
            None
        } else {
            Some(self.0[0])
        }
    }

    /// The largest element: the last, since the slice is sorted.
    pub fn max(&self) -> (r: Option<u64>)
        ensures
            self@.len() == 0 ==> r is None,
            self@.len() > 0 ==> r == Some(self@[self@.len() - 1]),
    {
        if self.0.len() == 0 {
            None
        } else {
            Some(self.0[self.0.len() - 1])
        }
    }

    /// The median: the middle element, or the integer mean of the two middle
    /// elements when the length is even.
    pub fn med(&self) -> (r: Option<u64>)
        requires
            self@.len() % 2 == 0 && self@.len() > 0 ==> self@[self@.len() as int / 2 - 1]
                + self@[self@.len() as int / 2] <= u64::MAX,
        ensures
            self@.len() == 0 ==> r is None,
            self@.len() > 0 ==> r == Some((med_spec(self@) as u64)),
    {
        let n = self.0.len();
        if n == 0 {
            None
        } else if n % 2 == 0 {
            let xy = self.0[n / 2 - 1] + self.0[n / 2];
            Some(xy / 2)
        } else {
            Some(self.0[n / 2])
        }
    }

    /// The sum of all elements.
    pub fn sum(&self) -> (r: u64)
        requires
            seq_sum(self@) <= u64::MAX,
        ensures
            r == seq_sum(self@),
    {
        let mut acc: u64 = 0;
        let mut i: usize = 0;
        while i < self.0.len()
            invariant
                i <= self@.len(),
                acc == seq_sum(self@.take(i as int)),
                seq_sum(self@) <= u64::MAX,
            decreases self@.len() - i,
        {
            proof {
                assert(self@.take(i + 1).drop_last() =~= self@.take(i as int));
                assert(self@.take(i + 1).last() == self@[i as int]);
                lemma_prefix_sum_le(self@, i + 1);
                lemma_seq_sum_nonneg(self@.take(i as int));
            }
            acc = acc + self.0[i];
            i += 1;
        }
        proof {
            assert(self@.take(self@.len() as int) =~= self@);
        }
        acc
    }

    /// The integer mean, or nothing when empty.
    pub fn mean(&self) -> (r: Option<u64>)
        requires
            seq_sum(self@) <= u64::MAX,
        ensures
            self@.len() == 0 ==> r is None,
            self@.len() > 0 ==> r == Some((mean_spec(self@) as u64)),
    {
        if self.0.len() == 0 {
            None
        } else {
            proof {
                lemma_seq_sum_nonneg(self@);
            }
            Some(self.sum() / self.0.len() as u64)
        }
    }

    /// Sample standard deviation with Bessel's correction, truncated to a
    /// whole number of units; nothing when fewer than two elements.
    pub fn std_dev(&self) -> (r: Option<u64>)
        requires
            seq_sum(self@) <= u64::MAX,
        ensures
            self@.len() < 2 ==> r is None,
            self@.len() >= 2 ==> match r {
                Some(v) => is_sqrt_floor(v as int, var_spec(self@)) && v == sqrt_floor(
                    var_spec(self@)),
                None => false,
            },
    {
        if self.0.len() < 2 {
            return None;
        }
        let s_len = self.0.len();
        let m = self.sum() / s_len as u64;
        let ghost s = self@;
        proof {
            lemma_seq_sum_nonneg(s);
        }
        let mut acc: u128 = 0;
        let mut i: usize = 0;
        while i < self.0.len()
            invariant
                i <= s.len(),
                s == self@,
                s.len() >= 2,
                m == mean_spec(s),
                seq_sum(s) <= u64::MAX,
                acc == sq_dev_sum(s.take(i as int), m as int),
            decreases s.len() - i,
        {
            let u = self.0[i];
            let diff: u64 = if u >= m {
                u - m
            } else {
                m - u
            };
            proof {
                lemma_seq_sum_nonneg(s);
                lemma_sq_dev_sum_le_sum_sq(s, m as int);
                assert(s.take(i + 1).drop_last() =~= s.take(i as int));
                assert(s.take(i + 1).last() == s[i as int]);
                lemma_sq_dev_sum_push(s.take(i as int), m as int, s[i as int]);
                assert(s.take(i as int).push(s[i as int]) =~= s.take(i + 1));
                assert((diff as int) * (diff as int) == (s[i as int] - m) * (s[i as int] - m))
                    by (nonlinear_arith)
                    requires
                        diff == if s[i as int] >= m { s[i as int] - m } else { m - s[i as int] },
                ;
                lemma_sq_dev_prefix_le(s, i + 1, m as int);
                lemma_sq_dev_sum_nonneg(s.take(i as int), m as int);
                assert(seq_sum(s) * seq_sum(s) <= (0xFFFF_FFFF_FFFF_FFFF as int) * (
                    0xFFFF_FFFF_FFFF_FFFF as int)) by (nonlinear_arith)
                    requires 0 <= seq_sum(s) <= 0xFFFF_FFFF_FFFF_FFFF;
                assert((0xFFFF_FFFF_FFFF_FFFF as int) * (0xFFFF_FFFF_FFFF_FFFF as int)
                    < u128::MAX);
            }
            acc = acc + (diff as u128) * (diff as u128);
            i += 1;
        }
        proof {
            assert(s.take(s.len() as int) =~= s);
            lemma_sq_dev_sum_nonneg(s, m as int);
        }
        let var = acc / ((s_len - 1) as u128);
        let r = isqrt_u128(var);
        proof {
            assert(var == var_spec(s));
            assert(exists|q: int| is_sqrt_floor(q, var_spec(s))) by {
                assert(is_sqrt_floor(r as int, var_spec(s)));
            }
            lemma_sqrt_floor_unique(r as int, sqrt_floor(var_spec(s)), var_spec(s));
        }
        Some(r)
    }

    /// The number of leading elements strictly below `val`.
    fn partition_lt(&self, val: u64) -> (r: usize)
        requires
            self.wf(),
        ensures
            r <= self@.len(),
            forall|k: int| 0 <= k < r ==> self@[k] < val,
            forall|k: int| r <= k < self@.len() ==> self@[k] >= val,
    {
        let mut lo: usize = 0;
        let mut hi: usize = self.0.len();
        while lo < hi
            invariant
                lo <= hi <= self@.len(),
                self.wf(),
                forall|k: int| 0 <= k < lo ==> self@[k] < val,
                forall|k: int| hi <= k < self@.len() ==> self@[k] >= val,
            decreases hi - lo,
        {
            let mid = lo + (hi - lo) / 2;
            if self.0[mid] < val {
                lo = mid + 1;
            } else {
                hi = mid;
            }
        }
        lo
    }

    /// The number of leading elements at or below `val`.
    fn partition_le(&self, val: u64) -> (r: usize)
        requires
            self.wf(),
        ensures
            r <= self@.len(),
            forall|k: int| 0 <= k < r ==> self@[k] <= val,
            forall|k: int| r <= k < self@.len() ==> self@[k] > val,
    {
        let mut lo: usize = 0;
        let mut hi: usize = self.0.len();
        while lo < hi
            invariant
                lo <= hi <= self@.len(),
                self.wf(),
                forall|k: int| 0 <= k < lo ==> self@[k] <= val,
                forall|k: int| hi <= k < self@.len() ==> self@[k] > val,
            decreases hi - lo,
        {
            let mid = lo + (hi - lo) / 2;
            if self.0[mid] <= val {
                lo = mid + 1;
            } else {
                hi = mid;
            }
        }
        lo
    }

    /// The elements on the kept side of `val`: a prefix or a suffix of the
    /// sorted slice, found by binary search.
    pub fn filter(&self, cond: FilterCond, val: u64) -> (r: NumbersSorted<'a>)
        requires
            self.wf(),
        ensures
            r@ == self@.filter(|x: u64| cond_holds(cond, x, val)),
            r.wf(),
    {
        match cond {
            FilterCond::Lt => {
                let i = self.partition_lt(val);
                proof {
                    lemma_split_is_filter(self@, |x: u64| cond_holds(cond, x, val), i as int);
                }
                let r = NumbersSorted(&self.0[0..i]);
                proof {
                    assert(r@ =~= self@.take(i as int));
                }
                r
            },
            FilterCond::Le => {
                let i = self.partition_le(val);
                proof {
                    lemma_split_is_filter(self@, |x: u64| cond_holds(cond, x, val), i as int);
                }
                let r = NumbersSorted(&self.0[0..i]);
                proof {
                    assert(r@ =~= self@.take(i as int));
                }
                r
            },
            FilterCond::Ge => {
                let i = self.partition_lt(val);
                proof {
                    lemma_split_is_filter_suffix(
                        self@, |x: u64| cond_holds(cond, x, val), i as int);
                }
                let r = NumbersSorted(&self.0[i..self.0.len()]);
                proof {
                    assert(r@ =~= self@.skip(i as int));
                }
                r
            },
            FilterCond::Gt => {
                let i = self.partition_le(val);
                proof {
                    lemma_split_is_filter_suffix(
                        self@, |x: u64| cond_holds(cond, x, val), i as int);
                }
                let r = NumbersSorted(&self.0[i..self.0.len()]);
                proof {
                    assert(r@ =~= self@.skip(i as int));
                }
                r
            },
        }
    }

    /// Keep only the elements within three standard deviations of the mean;
    /// with fewer than two elements there is nothing to trim.
    fn filter_3_sigma_inner(&self) -> (r: Option<NumbersSorted<'a>>)
        requires
            self.wf(),
            seq_sum(self@) <= u64::MAX,
            self@.len() >= 2 ==> {
                let m = mean_spec(self@);
                let sd = sqrt_floor(var_spec(self@));
                3 * sd <= m && m + 3 * sd <= u64::MAX
            },
        ensures
            self@.len() < 2 ==> r is None,
            self@.len() >= 2 ==> {
                let m = mean_spec(self@);
                let sd = sqrt_floor(var_spec(self@));
                &&& r is Some
                &&& r->0@ == self@.filter(
                    |x: u64| cond_holds(FilterCond::Ge, x, (m - 3 * sd) as u64)).filter(
                    |x: u64| cond_holds(FilterCond::Le, x, (m + 3 * sd) as u64))
                &&& r->0.wf()
            },
    {
        let sd = match self.std_dev() {
            Some(sd) => sd,
            None => {
                return None;
            },
        };
        let mean = match self.mean() {
            Some(m) => m,
            None => {
                return None;
            },
        };
        proof {
            lemma_seq_sum_nonneg(self@);
            lemma_sq_dev_sum_nonneg(self@, mean_spec(self@));
            vstd::arithmetic::div_mod::lemma_div_pos_is_pos(
                sq_dev_sum(self@, mean_spec(self@)), self@.len() - 1);
        }
        let min = mean - sd * 3;
        let max = mean + sd * 3;
        let nums = self.filter(FilterCond::Ge, min);
        let nums = nums.filter(FilterCond::Le, max);
        Some(nums)
    }

    /// Keep only the elements within three standard deviations of the mean;
    /// the collection itself when it is too small to trim.
    pub fn filter_3_sigma(&self) -> (r: NumbersSorted<'a>)
        requires
            self.wf(),
            seq_sum(self@) <= u64::MAX,
            self@.len() >= 2 ==> {
                let m = mean_spec(self@);
                let sd = sqrt_floor(var_spec(self@));
                3 * sd <= m && m + 3 * sd <= u64::MAX
            },
        ensures
            r.wf(),
            self@.len() < 2 ==> r@ == self@,
            self@.len() >= 2 ==> {
                let m = mean_spec(self@);
                let sd = sqrt_floor(var_spec(self@));
                r@ == self@.filter(
                    |x: u64| cond_holds(FilterCond::Ge, x, (m - 3 * sd) as u64)).filter(
                    |x: u64| cond_holds(FilterCond::Le, x, (m + 3 * sd) as u64))
            },
    {
        match self.filter_3_sigma_inner() {
            Some(r) => r,
            None => *self,
        }
    }
}

proof fn lemma_prefix_sum_le(s: Seq<u64>, i: int)
    requires
        0 <= i <= s.len(),
    ensures
        seq_sum(s.take(i)) <= seq_sum(s),
    decreases s.len() - i,
{
    if i == s.len() {
        assert(s.take(i) =~= s);
    } else {
        lemma_prefix_sum_le(s, i + 1);
        assert(s.take(i + 1).drop_last() =~= s.take(i));
    }
}

proof fn lemma_sq_dev_prefix_le(s: Seq<u64>, i: int, m: int)
    requires
        0 <= i <= s.len(),
    ensures
        sq_dev_sum(s.take(i), m) <= sq_dev_sum(s, m),
    decreases s.len() - i,
{
    if i == s.len() {
        assert(s.take(i) =~= s);
    } else {
        lemma_sq_dev_prefix_le(s, i + 1, m);
        assert(s.take(i + 1).drop_last() =~= s.take(i));
        assert((s.take(i + 1).last() - m) * (s.take(i + 1).last() - m) >= 0) by (nonlinear_arith);
    }
}

} // verus!
