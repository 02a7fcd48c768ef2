//! Integer arithmetic used by the statistics: sums over sequences of
//! measurement units and a flooring square root.

use vstd::prelude::*;

verus! {

/// Sum of a sequence of measurement units, as a mathematical integer.
pub open spec fn seq_sum(s: Seq<u64>) -> int
    decreases s.len(),
{
    if s.len() == 0 {
        0
    } else {
        seq_sum(s.drop_last()) + s.last()
    }
}

/// Sum of squared deviations from `m`.
pub open spec fn sq_dev_sum(s: Seq<u64>, m: int) -> int
    decreases s.len(),
{
    if s.len() == 0 {
        0
    } else {
        sq_dev_sum(s.drop_last(), m) + (s.last() - m) * (s.last() - m)
    }
}

/// Sum of squares of the elements.
pub open spec fn sum_sq(s: Seq<u64>) -> int
    decreases s.len(),
{
    if s.len() == 0 {
        0
    } else {
        sum_sq(s.drop_last()) + s.last() * s.last()
    }
}

/// `r` is the floor of the real square root of `x`.
pub open spec fn is_sqrt_floor(r: int, x: int) -> bool {
    0 <= r && r * r <= x < (r + 1) * (r + 1)
}

pub proof fn lemma_seq_sum_nonneg(s: Seq<u64>)
    ensures
        seq_sum(s) >= 0,
    decreases s.len(),
{
    if s.len() > 0 {
        lemma_seq_sum_nonneg(s.drop_last());
    }
}

pub proof fn lemma_sq_dev_sum_push(s: Seq<u64>, m: int, v: u64)
    ensures
        sq_dev_sum(s.push(v), m) == sq_dev_sum(s, m) + (v - m) * (v - m),
{
    assert(s.push(v).drop_last() =~= s);
}

/// Every element is bounded by the sum of all elements.
pub proof fn lemma_elem_le_seq_sum(s: Seq<u64>, i: int)
    requires
        0 <= i < s.len(),
    ensures
        s[i] <= seq_sum(s),
    decreases s.len(),
{
    lemma_seq_sum_nonneg(s.drop_last());
    if i < s.len() - 1 {
        lemma_elem_le_seq_sum(s.drop_last(), i);
    }
}

pub proof fn lemma_sq_dev_sum_nonneg(s: Seq<u64>, m: int)
    ensures
        sq_dev_sum(s, m) >= 0,
    decreases s.len(),
{
    if s.len() > 0 {
        lemma_sq_dev_sum_nonneg(s.drop_last(), m);
        assert((s.last() - m) * (s.last() - m) >= 0) by (nonlinear_arith);
    }
}

/// The algebraic expansion of the sum of squared deviations.
pub proof fn lemma_sq_dev_sum_expand(s: Seq<u64>, m: int)
    ensures
        sq_dev_sum(s, m) == sum_sq(s) - 2 * m * seq_sum(s) + s.len() * m * m,
    decreases s.len(),
{
    if s.len() > 0 {
        lemma_sq_dev_sum_expand(s.drop_last(), m);
        let v = s.last() as int;
        assert((v - m) * (v - m) == v * v - 2 * m * v + m * m) by (nonlinear_arith);
        assert(s.len() * m * m == s.drop_last().len() * m * m + m * m) by (nonlinear_arith)
            requires s.len() == s.drop_last().len() + 1;
        assert(2 * m * (seq_sum(s.drop_last()) + v) == 2 * m * seq_sum(s.drop_last()) + 2 * m * v)
            by (nonlinear_arith);
    }
}

/// Squares of elements are bounded by the total sum times the element.
pub proof fn lemma_sum_sq_le_sum_times_bound(s: Seq<u64>, b: int)
    requires
        forall|i: int| 0 <= i < s.len() ==> s[i] <= b,
        b >= 0,
    ensures
        sum_sq(s) <= seq_sum(s) * b,
    decreases s.len(),
{
    if s.len() > 0 {
        lemma_sum_sq_le_sum_times_bound(s.drop_last(), b);
        let v = s.last() as int;
        assert(v * v <= v * b) by (nonlinear_arith)
            requires 0 <= v <= b;
        assert((seq_sum(s.drop_last()) + v) * b == seq_sum(s.drop_last()) * b + v * b)
            by (nonlinear_arith);
    }
}

/// With `m` the integer mean of `s`, the sum of squared deviations is at most
/// the square of the sum of the elements.
pub proof fn lemma_sq_dev_sum_le_sum_sq(s: Seq<u64>, m: int)
    requires
        s.len() > 0,
        m == seq_sum(s) / s.len() as int,
    ensures
        sq_dev_sum(s, m) <= seq_sum(s) * seq_sum(s),
{
    let n = s.len() as int;
    let total = seq_sum(s);
    lemma_seq_sum_nonneg(s);
    lemma_sq_dev_sum_expand(s, m);
    assert(n * m <= total && m >= 0) by (nonlinear_arith)
        requires n > 0 && total >= 0 && m == total / n;
    // n*m*m <= 2*m*total, since n*m <= total and m >= 0
    assert(n * m * m <= 2 * m * total) by (nonlinear_arith)
        requires n * m <= total && m >= 0 && n > 0;
    // sum_sq(s) <= total * total since each element <= total
    assert forall|i: int| 0 <= i < s.len() implies s[i] <= total by {
        lemma_elem_le_seq_sum(s, i);
    }
    lemma_sum_sq_le_sum_times_bound(s, total);
}

/// Flooring square root of a 128-bit integer.
pub fn isqrt_u128(x: u128) -> (r: u64)
    ensures
        is_sqrt_floor(r as int, x as int),
{
    let mut lo: u128 = 0;
    let mut hi: u128 = 0x1_0000_0000_0000_0000;
    // invariant: lo*lo <= x < hi*hi
    proof {
        assert(hi * hi > x) by (nonlinear_arith)
            requires hi == 0x1_0000_0000_0000_0000u128 && x <= u128::MAX;
    }
    while lo + 1 < hi
        invariant
            lo < hi <= 0x1_0000_0000_0000_0000,
            lo * lo <= x,
            x < hi * hi,
        decreases hi - lo,
    {
        let mid = lo + (hi - lo) / 2;
        assert(lo < mid < hi);
        proof {
            assert(mid * mid <= (0x1_0000_0000_0000_0000u128 - 1) * (0x1_0000_0000_0000_0000u128
                - 1)) by (nonlinear_arith)
                requires mid <= 0x1_0000_0000_0000_0000u128 - 1;
        }
        let sq = mid * mid;
        if sq <= x {
            lo = mid;
        } else {
            hi = mid;
        }
    }
    proof {
        assert((lo + 1) * (lo + 1) == hi * hi) by (nonlinear_arith)
            requires lo + 1 == hi;
    }
    lo as u64
}

/// The floor of the real square root of `x`, as a value.
pub open spec fn sqrt_floor(x: int) -> int {
    choose|r: int| is_sqrt_floor(r, x)
}

/// Every non-negative integer has a floor square root.
pub proof fn lemma_sqrt_floor_exists(x: int)
    requires
        x >= 0,
    ensures
        is_sqrt_floor(sqrt_floor(x), x),
    decreases x,
{
    if x == 0 {
        assert(is_sqrt_floor(0, 0));
    } else {
        lemma_sqrt_floor_exists(x - 1);
        let r = sqrt_floor(x - 1);
        if (r + 1) * (r + 1) <= x {
            assert((r + 1) * (r + 1) < (r + 2) * (r + 2)) by (nonlinear_arith)
                requires r >= 0;
            assert(is_sqrt_floor(r + 1, x));
        } else {
            assert(is_sqrt_floor(r, x));
        }
    }
}

/// The floor square root is unique.
pub proof fn lemma_sqrt_floor_unique(r1: int, r2: int, x: int)
    requires
        is_sqrt_floor(r1, x),
        is_sqrt_floor(r2, x),
    ensures
        r1 == r2,
{
    if r1 < r2 {
        assert((r1 + 1) * (r1 + 1) <= r2 * r2) by (nonlinear_arith)
            requires 0 <= r1 && r1 + 1 <= r2;
    }
    if r2 < r1 {
        assert((r2 + 1) * (r2 + 1) <= r1 * r1) by (nonlinear_arith)
            requires 0 <= r2 && r2 + 1 <= r1;
    }
}

} // verus!
