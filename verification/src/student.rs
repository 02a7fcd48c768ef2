//! Student's t-distribution: the fixed table of two-sided 95% critical
//! values by degrees of freedom, converging to the normal-distribution limit
//! for large samples. Values are carried in thousandths, since the library
//! computes in integers.

use vstd::prelude::*;

verus! {

/// One unit of critical value is a thousandth.
pub const T_SCALE: u64 = 1000;

/// Two-sided 95% critical value for `df` degrees of freedom, in thousandths.
pub open spec fn t_table_spec(df: u64) -> u64 {
    if df <= 1 {
        12706
    } else if df == 2 {
        4303
    } else if df == 3 {
        3182
    } else if df == 4 {
        2776
    } else if df == 5 {
        2571
    } else if df == 6 {
        2447
    } else if df == 7 {
        2365
    } else if df == 8 {
        2306
    } else if df == 9 {
        2262
    } else if df == 10 {
        2228
    } else if df == 11 {
        2201
    } else if df == 12 {
        2179
    } else if df == 13 {
        2160
    } else if df == 14 {
        2145
    } else if df == 15 {
        2131
    } else if df == 16 {
        2120
    } else if df == 17 {
        2110
    } else if df == 18 {
        2101
    } else if df == 19 {
        2093
    } else if df == 20 {
        2086
    } else if df == 21 {
        2080
    } else if df == 22 {
        2074
    } else if df == 23 {
        2069
    } else if df == 24 {
        2064
    } else if df == 25 {
        2060
    } else if df == 26 {
        2056
    } else if df == 27 {
        2052
    } else if df == 28 {
        2048
    } else if df == 29 {
        2045
    } else if df == 30 {
        2042
    } else {
        1960
    }
}

/// Look up the two-sided 95% critical value for `df` degrees of freedom,
/// in thousandths.
pub fn t_table(df: u64) -> (r: u64)
    ensures
        r == t_table_spec(df),
        1960 <= r <= 12706,
{
    if df <= 1 {
        12706
    } else if df <= 30 {
        let small: [u64; 29] = [
            4303, 3182, 2776, 2571, 2447, 2365, 2306, 2262, 2228, 2201, 2179, 2160, 2145, 2131,
            2120, 2110, 2101, 2093, 2086, 2080, 2074, 2069, 2064, 2060, 2056, 2052, 2048, 2045,
            2042,
        ];
        small[(df - 2) as usize]
    } else {
        1960
    }
}

/// The table never rises as the degrees of freedom grow, and never falls
/// below the normal-distribution limit.
pub proof fn lemma_t_table_antitone(d1: u64, d2: u64)
    requires
        d1 <= d2,
    ensures
        t_table_spec(d1) >= t_table_spec(d2),
        t_table_spec(d2) >= 1960,
{
}

} // verus!

