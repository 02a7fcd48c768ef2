//! The report: per-variant statistics rows, distribution plots, and the
//! ratio-of-means confidence interval against the baseline variant.

use vstd::prelude::*;
use vstd::string::StrSliceExecFns;

use crate::ansi;
use crate::ansi::strip_csi_spec;
use crate::arith::is_sqrt_floor;
use crate::arith::isqrt_u128;
use crate::arith::lemma_sqrt_floor_unique;
use crate::arith::sqrt_floor;
use crate::frag::flatten;
use crate::frag::flatten_spec;
use crate::frag::frags_wf;
use crate::frag::lemma_strip_flatten;
use crate::frag::push_frag;
use crate::frag::Frag;
use crate::experiment::Experiment;
use crate::experiment_map::ExperimentMap;
use crate::experiment_name::ExperimentName;
use crate::measure::measure_number_text;
use crate::measure_key::MeasureKey;
use crate::stats::Stats;
use crate::student::t_table;
use crate::student::t_table_spec;
use crate::text::dec_spec;
use crate::text::repeat_char;
use crate::text::spaces;
use crate::text::digit_spec;
use crate::text::u64_to_dec;

verus! {

/// A rendered report: styled fragments that can be written with colors to a
/// terminal or without colors to a log file.
pub struct Report {
    pub frags: Vec<Frag>,
}

impl Report {
    /// Every fragment is visible text or exactly one color-control sequence.
    pub open spec fn well_formed(self) -> bool {
        frags_wf(self.frags@)
    }

    /// The report's text, with or without its colors.
    pub fn to_text(&self, colored: bool) -> (r: String)
        ensures
            r@ == flatten_spec(self.frags@, colored),
    {
        flatten(&self.frags, colored)
    }
}

/// Stripping the color-control sequences from a report rendered with colors
/// yields exactly the report rendered without colors.
pub proof fn lemma_report_color_strip(report: Report)
    requires
        report.well_formed(),
    ensures
        strip_csi_spec(flatten_spec(report.frags@, true)) == flatten_spec(report.frags@, false),
{
    lemma_strip_flatten(report.frags@);
}

/// The quarter-width of the confidence interval: half of
/// `t* . sqrt(var_a / (count_a - 1) + var_b / (count_b - 1))`, where the
/// critical value is carried in thousandths.
pub open spec fn conf_q_spec(ca: int, sa: int, cb: int, sb: int) -> int {
    let df = if ca <= cb { ca - 1 } else { cb - 1 };
    let inner = sa * sa / (ca - 1) + sb * sb / (cb - 1);
    t_table_spec((if df > 0xFFFF_FFFF_FFFF_FFFF { 0xFFFF_FFFF_FFFF_FFFF } else if df < 0 {
        0
    } else {
        df
    }) as u64) * sqrt_floor(inner) / 2000
}

/// A possibly negative ratio in thousandths: the numerator times a thousand
/// over the denominator, rounded to the nearest thousandth, halves away from
/// zero.
pub open spec fn signed_ratio_spec(num: int, den: int) -> int {
    if num >= 0 {
        (2 * num * 1000 + den) / (2 * den)
    } else {
        -((2 * (-num) * 1000 + den) / (2 * den))
    }
}

/// The quarter-width both corners move by.
pub open spec fn cmp_q(a: Stats<u64>, b: Stats<u64>) -> int {
    conf_q_spec(a.count as int, a.std_dev as int, b.count as int, b.std_dev as int)
}

/// The ratio of means in thousandths; nothing when the baseline mean is zero.
pub open spec fn cmp_ratio_opt(a: Stats<u64>, b: Stats<u64>) -> Option<int> {
    if a.mean > 0 {
        Some(signed_ratio_spec(b.mean as int, a.mean as int))
    } else {
        None
    }
}

/// The lower corner `(mean_b - q) / (mean_a + q)` in thousandths; nothing
/// when its denominator vanishes.
pub open spec fn cmp_lo_opt(a: Stats<u64>, b: Stats<u64>) -> Option<int> {
    let q = cmp_q(a, b);
    if a.mean + q > 0 {
        Some(signed_ratio_spec(b.mean - q, a.mean + q))
    } else {
        None
    }
}

/// The upper corner `(mean_b + q) / (mean_a - q)` in thousandths; nothing
/// when its denominator vanishes, which reads as an infinite corner.
pub open spec fn cmp_hi_opt(a: Stats<u64>, b: Stats<u64>) -> Option<int> {
    let q = cmp_q(a, b);
    if a.mean > q {
        Some(signed_ratio_spec(b.mean + q, a.mean - q))
    } else if a.mean < q {
        Some(-signed_ratio_spec(b.mean + q, q - a.mean))
    } else {
        None
    }
}

/// The comparison of one variant against the baseline: the ratio of means
/// and the two conservative corners of its confidence interval, each in
/// thousandths, or nothing where the corner's denominator vanishes; an
/// absent upper corner reads as infinite.
pub struct Comparison {
    pub ratio_millis: Option<i128>,
    pub lo_millis: Option<i128>,
    pub hi_millis: Option<i128>,
}

/// Compare variant `b` against baseline `a`: the interval for
/// `mean_b / mean_a` is evaluated at the corners `(mean_b - q)/(mean_a + q)`
/// and `(mean_b + q)/(mean_a - q)`, with `q` a quarter of the confidence
/// width. This deliberately conservative formula is kept exactly as stated.
pub fn compare(stats_a: &Stats<u64>, stats_b: &Stats<u64>) -> (r: Comparison)
    requires
        stats_a.count >= 2,
        stats_b.count >= 2,
        stats_a.std_dev <= 0x8000_0000_0000_0000,
        stats_b.std_dev <= 0x8000_0000_0000_0000,
    ensures
        r.ratio_millis is Some <==> cmp_ratio_opt(*stats_a, *stats_b) is Some,
        r.ratio_millis is Some ==> r.ratio_millis->0 == cmp_ratio_opt(*stats_a, *stats_b)->0,
        r.lo_millis is Some <==> cmp_lo_opt(*stats_a, *stats_b) is Some,
        r.lo_millis is Some ==> r.lo_millis->0 == cmp_lo_opt(*stats_a, *stats_b)->0,
        r.hi_millis is Some <==> cmp_hi_opt(*stats_a, *stats_b) is Some,
        r.hi_millis is Some ==> r.hi_millis->0 == cmp_hi_opt(*stats_a, *stats_b)->0,
{
    let ca = stats_a.count;
    let cb = stats_b.count;
    let df = if ca <= cb {
        ca - 1
    } else {
        cb - 1
    };
    let t_star = t_table(df);
    let sa = stats_a.std_dev;
    let sb = stats_b.std_dev;
    proof {
        assert((sa as u128) * (sa as u128) <= 0x8000_0000_0000_0000u128 * 0x8000_0000_0000_0000u128)
            by (nonlinear_arith)
            requires sa as u128 <= 0x8000_0000_0000_0000u128;
        assert((sb as u128) * (sb as u128) <= 0x8000_0000_0000_0000u128 * 0x8000_0000_0000_0000u128)
            by (nonlinear_arith)
            requires sb as u128 <= 0x8000_0000_0000_0000u128;
    }
    let va = (sa as u128) * (sa as u128) / ((ca - 1) as u128);
    let vb = (sb as u128) * (sb as u128) / ((cb - 1) as u128);
    proof {
        vstd::arithmetic::div_mod::lemma_div_is_ordered_by_denominator(
            (sa as u128 * (sa as u128)) as int, 1, (ca - 1) as int);
        vstd::arithmetic::div_mod::lemma_div_is_ordered_by_denominator(
            (sb as u128 * (sb as u128)) as int, 1, (cb - 1) as int);
        vstd::arithmetic::div_mod::lemma_div_basics_1((sa as u128 * (sa as u128)) as int);
        vstd::arithmetic::div_mod::lemma_div_basics_1((sb as u128 * (sb as u128)) as int);
    }
    let inner = va + vb;
    let s = isqrt_u128(inner);
    proof {
        let ghost inner_spec = (sa as int) * (sa as int) / (ca as int - 1) + (sb as int) * (
            sb as int) / (cb as int - 1);
        assert(inner == inner_spec);
        assert(exists|w: int| is_sqrt_floor(w, inner_spec)) by {
            assert(is_sqrt_floor(s as int, inner_spec));
        }
        lemma_sqrt_floor_unique(s as int, sqrt_floor(inner_spec), inner_spec);
    }
    let q: u128 = (t_star as u128) * (s as u128) / 2000;
    proof {
        assert((t_star as u128) * (s as u128) <= 12706u128 * 0xFFFF_FFFF_FFFF_FFFFu128)
            by (nonlinear_arith)
            requires t_star as u128 <= 12706u128 && s as u128 <= 0xFFFF_FFFF_FFFF_FFFFu128;
        assert(q == cmp_q(*stats_a, *stats_b));
    }
    let ma = stats_a.mean as u128;
    let mb = stats_b.mean as u128;

    let ratio_millis: Option<i128> = if ma > 0 {
        proof {
            vstd::arithmetic::div_mod::lemma_div_nonincreasing(
                (2 * mb * 1000 + ma) as int, (2 * ma) as int);
        }
        Some(((2 * mb * 1000 + ma) / (2 * ma)) as i128)
    } else {
        None
    };
    let lo_millis: Option<i128> = if ma + q > 0 {
        if mb >= q {
            proof {
                vstd::arithmetic::div_mod::lemma_div_nonincreasing(
                    (2 * (mb - q) * 1000 + (ma + q)) as int, (2 * (ma + q)) as int);
            }
            Some(((2 * (mb - q) * 1000 + (ma + q)) / (2 * (ma + q))) as i128)
        } else {
            proof {
                vstd::arithmetic::div_mod::lemma_div_nonincreasing(
                    (2 * (q - mb) * 1000 + (ma + q)) as int, (2 * (ma + q)) as int);
            }
            Some(-(((2 * (q - mb) * 1000 + (ma + q)) / (2 * (ma + q))) as i128))
        }
    } else {
        None
    };
    let hi_millis: Option<i128> = if ma > q {
        proof {
            vstd::arithmetic::div_mod::lemma_div_nonincreasing(
                (2 * (mb + q) * 1000 + (ma - q)) as int, (2 * (ma - q)) as int);
        }
        Some(((2 * (mb + q) * 1000 + (ma - q)) / (2 * (ma - q))) as i128)
    } else if ma < q {
        proof {
            vstd::arithmetic::div_mod::lemma_div_nonincreasing(
                (2 * (mb + q) * 1000 + (q - ma)) as int, (2 * (q - ma)) as int);
        }
        Some(-(((2 * (mb + q) * 1000 + (q - ma)) / (2 * (q - ma))) as i128))
    } else {
        None
    };
    Comparison { ratio_millis, lo_millis, hi_millis }
}

/// A ratio in thousandths rendered with three decimals and a sign.
pub open spec fn ratio_text_spec(v: int) -> Seq<char>
    decreases (if v < 0 { 1int } else { 0int }),
{
    if v < 0 {
        seq!['-'] + ratio_text_spec(-v)
    } else {
        dec_spec(v / 1000) + seq!['.'] + seq![digit_spec((v % 1000) / 100)] + seq![
            digit_spec(((v % 1000) % 100) / 10)] + seq![digit_spec((v % 1000) % 10)]
    }
}

fn u128_to_dec(n: u128) -> (r: String)
    ensures
        r@ == dec_spec(n as int),
    decreases n,
{
    if n < 10 {
        u64_to_dec(n as u64)
    } else {
        let mut s = u128_to_dec(n / 10);
        s.push(crate::text::digit_char_pub((n % 10) as u64));
        s
    }
}

/// Render a thousandths ratio with three decimals, or the fallback glyph for
/// an undefined corner.
pub fn ratio_to_text(v: Option<i128>) -> (r: String)
    ensures
        match v {
            Some(x) => r@ == ratio_text_spec(x as int),
            None => r@ == seq!['?'],
        },
{
    match v {
        None => {
            let mut s = String::new();
            s.push('?');
            proof {
                assert(s@ =~= seq!['?']);
            }
            s
        },
        Some(x) => {
            let mut s = String::new();
            let mag: u128 = if x < 0 {
                s.push('-');
                ((-1 - x) as u128) + 1
            } else {
                x as u128
            };
            let whole = u128_to_dec(mag / 1000);
            s.push_str(whole.as_str());
            s.push('.');
            let frac = (mag % 1000) as u64;
            s.push(crate::text::digit_char_pub(frac / 100));
            s.push(crate::text::digit_char_pub((frac % 100) / 10));
            s.push(crate::text::digit_char_pub(frac % 10));
            proof {
                if x < 0 {
                    assert(s@ =~= seq!['-'] + ratio_text_spec(-(x as int)));
                } else {
                    assert(s@ =~= ratio_text_spec(x as int));
                }
            }
            s
        },
    }
}

/// The standard error of a statistics snapshot, in base units.
pub open spec fn se_units(st: Stats<u64>) -> int {
    sqrt_floor(st.std_dev * st.std_dev / (st.count - 1))
}

/// The rendered text of one cell of a variant's statistics row.
pub open spec fn cell_text(key: MeasureKey, st: Stats<u64>, col: int) -> Seq<char> {
    if col == 0 {
        dec_spec(st.count as int)
    } else if col == 1 {
        measure_number_text(key, st.mean as int)
    } else if col == 2 {
        measure_number_text(key, st.std_dev as int)
    } else if col == 3 {
        measure_number_text(key, se_units(st))
    } else if col == 4 {
        measure_number_text(key, st.min as int)
    } else if col == 5 {
        measure_number_text(key, st.max as int)
    } else {
        measure_number_text(key, st.med as int)
    }
}

/// The label in front of each column.
pub open spec fn col_label(col: int) -> Seq<char> {
    if col == 0 {
        seq!['n', '=']
    } else if col == 1 {
        seq![' ', 'm', 'e', 'a', 'n', '=']
    } else if col == 2 {
        seq![' ', 's', 't', 'd', '=']
    } else if col == 3 {
        seq![' ', 's', 'e', '=']
    } else if col == 4 {
        seq![' ', 'm', 'i', 'n', '=']
    } else if col == 5 {
        seq![' ', 'm', 'a', 'x', '=']
    } else {
        seq![' ', 'm', 'e', 'd', '=']
    }
}

/// The widest cell of one column, so every variant's numbers align.
pub open spec fn max_cell_len(key: MeasureKey, sts: Seq<Stats<u64>>, col: int) -> int
    decreases sts.len(),
{
    if sts.len() == 0 {
        0
    } else {
        let rest = max_cell_len(key, sts.drop_last(), col);
        let own = cell_text(key, sts.last(), col).len() as int;
        if own >= rest {
            own
        } else {
            rest
        }
    }
}

proof fn lemma_max_cell_ge(key: MeasureKey, sts: Seq<Stats<u64>>, col: int, i: int)
    requires
        0 <= i < sts.len(),
    ensures
        cell_text(key, sts[i], col).len() <= max_cell_len(key, sts, col),
        max_cell_len(key, sts, col) >= 0,
    decreases sts.len(),
{
    if i < sts.len() - 1 {
        lemma_max_cell_ge(key, sts.drop_last(), col, i);
    } else if sts.len() > 1 {
        lemma_max_cell_ge(key, sts.drop_last(), col, 0);
    }
}

/// One cell padded on the left to its column's width.
pub open spec fn padded_cell(key: MeasureKey, sts: Seq<Stats<u64>>, i: int, col: int) -> Seq<
    char> {
    let cell = cell_text(key, sts[i], col);
    repeat_char(' ', max_cell_len(key, sts, col) - cell.len()) + cell
}

/// One variant's statistics row, built column by column.
pub open spec fn stats_row(key: MeasureKey, sts: Seq<Stats<u64>>, i: int, upto: int) -> Seq<char>
    decreases upto,
{
    if upto <= 0 {
        Seq::empty()
    } else {
        stats_row(key, sts, i, upto - 1) + col_label(upto - 1) + padded_cell(
            key, sts, i, upto - 1)
    }
}

fn cell_exec(key: MeasureKey, st: &Stats<u64>, col: usize) -> (r: String)
    requires
        col < 7,
        st.count >= 2,
    ensures
        r@ == cell_text(key, *st, col as int),
{
    match col {
        0 => u64_to_dec(st.count),
        1 => key.format_number(st.mean),
        2 => key.format_number(st.std_dev),
        3 => {
            let se = st.se();
            key.format_number(se)
        },
        4 => key.format_number(st.min),
        5 => key.format_number(st.max),
        _ => key.format_number(st.med),
    }
}

fn label_exec(col: usize) -> (r: &'static str)
    requires
        col < 7,
    ensures
        r@ == col_label(col as int),
{
    proof {
        reveal_strlit("n=");
        reveal_strlit(" mean=");
        reveal_strlit(" std=");
        reveal_strlit(" se=");
        reveal_strlit(" min=");
        reveal_strlit(" max=");
        reveal_strlit(" med=");
    }
    let r = match col {
        0 => "n=",
        1 => " mean=",
        2 => " std=",
        3 => " se=",
        4 => " min=",
        5 => " max=",
        _ => " med=",
    };
    proof {
        assert(r@ =~= col_label(col as int));
    }
    r
}

proof fn lemma_dec_no_esc(n: int)
    ensures
        forall|k: int| 0 <= k < dec_spec(n).len() ==> dec_spec(n)[k] != '\x1b',
    decreases n,
{
    if n < 10 {
        assert(dec_spec(n) =~= seq![digit_spec(n)]);
    } else {
        lemma_dec_no_esc(n / 10);
        assert forall|k: int| 0 <= k < dec_spec(n).len() implies dec_spec(n)[k] != '\x1b' by {
            if k < dec_spec(n).len() - 1 {
                assert(dec_spec(n)[k] == dec_spec(n / 10)[k]);
            } else {
                assert(dec_spec(n)[k] == digit_spec(n % 10));
            }
        }
    }
}

proof fn lemma_measure_text_no_esc(key: MeasureKey, units: int)
    ensures
        forall|k: int| 0 <= k < measure_number_text(key, units).len()
            ==> measure_number_text(key, units)[k] != '\x1b',
{
    match key {
        MeasureKey::WallTime => {
            lemma_dec_no_esc(units / 1_000_000 / 1000);
        },
        MeasureKey::MaxRss => {
            lemma_dec_no_esc(units / 0x10_0000);
        },
    }
}

proof fn lemma_cell_no_esc(key: MeasureKey, st: Stats<u64>, col: int)
    ensures
        forall|k: int| 0 <= k < cell_text(key, st, col).len() ==> cell_text(key, st, col)[k]
            != '\x1b',
{
    if col == 0 {
        lemma_dec_no_esc(st.count as int);
    } else if col == 1 {
        lemma_measure_text_no_esc(key, st.mean as int);
    } else if col == 2 {
        lemma_measure_text_no_esc(key, st.std_dev as int);
    } else if col == 3 {
        lemma_measure_text_no_esc(key, se_units(st));
    } else if col == 4 {
        lemma_measure_text_no_esc(key, st.min as int);
    } else if col == 5 {
        lemma_measure_text_no_esc(key, st.max as int);
    } else {
        lemma_measure_text_no_esc(key, st.med as int);
    }
}

proof fn lemma_row_no_esc(key: MeasureKey, sts: Seq<Stats<u64>>, i: int, upto: int)
    requires
        0 <= i < sts.len(),
    ensures
        forall|k: int| 0 <= k < stats_row(key, sts, i, upto).len()
            ==> stats_row(key, sts, i, upto)[k] != '\x1b',
    decreases upto,
{
    if upto > 0 {
        lemma_row_no_esc(key, sts, i, upto - 1);
        lemma_cell_no_esc(key, sts[i], upto - 1);
        let prev = stats_row(key, sts, i, upto - 1);
        let lbl = col_label(upto - 1);
        let cell = cell_text(key, sts[i], upto - 1);
        let pad = repeat_char(' ', max_cell_len(key, sts, upto - 1) - cell.len());
        let row = stats_row(key, sts, i, upto);
        assert forall|k: int| 0 <= k < row.len() implies row[k] != '\x1b' by {
            if k < prev.len() {
                assert(row[k] == prev[k]);
            } else if k < prev.len() + lbl.len() {
                assert(row[k] == lbl[k - prev.len()]);
            } else if k < prev.len() + lbl.len() + pad.len() {
                assert(row[k] == pad[k - prev.len() - lbl.len()]);
                assert(pad[k - prev.len() - lbl.len()] == ' ');
            } else {
                assert(row[k] == cell[k - prev.len() - lbl.len() - pad.len()]);
            }
        }
    }
}

/// One aligned text row of statistics per variant, columns padded to the
/// widest cell.
pub fn display_stats(sts: &Vec<Stats<u64>>, key: MeasureKey) -> (r: Vec<String>)
    requires
        forall|i: int| 0 <= i < sts@.len() ==> (#[trigger] sts@[i]).count >= 2,
    ensures
        r@.len() == sts@.len(),
        forall|i: int| 0 <= i < r@.len() ==> (#[trigger] r@[i])@ == stats_row(key, sts@, i, 7),
        forall|i: int, k: int| 0 <= i < r@.len() && 0 <= k < r@[i]@.len() ==> r@[i]@[k] != '\x1b',
{
    let n = sts.len();
    // the width of each column
    let mut widths: Vec<usize> = Vec::new();
    let mut col: usize = 0;
    while col < 7
        invariant
            col <= 7,
            n == sts@.len(),
            widths@.len() == col,
            forall|c: int| 0 <= c < col ==> widths@[c] == max_cell_len(key, sts@, c),
            forall|i: int| 0 <= i < sts@.len() ==> (#[trigger] sts@[i]).count >= 2,
        decreases 7 - col,
    {
        let mut w: usize = 0;
        let mut i: usize = 0;
        proof {
            assert(sts@.take(0) =~= Seq::<Stats<u64>>::empty());
        }
        while i < n
            invariant
                i <= n,
                n == sts@.len(),
                col < 7,
                w == max_cell_len(key, sts@.take(i as int), col as int),
                forall|j: int| 0 <= j < sts@.len() ==> (#[trigger] sts@[j]).count >= 2,
            decreases n - i,
        {
            let cell = cell_exec(key, &sts[i], col);
            let l = cell.as_str().unicode_len();
            proof {
                assert(sts@.take(i + 1).drop_last() =~= sts@.take(i as int));
                assert(sts@.take(i + 1).last() == sts@[i as int]);
            }
            if l > w {
                w = l;
            }
            i += 1;
        }
        proof {
            assert(sts@.take(n as int) =~= sts@);
        }
        widths.push(w);
        col += 1;
    }

    // the rows, built column by column
    let mut rows: Vec<String> = Vec::new();
    let mut i: usize = 0;
    while i < n
        invariant
            i <= n,
            n == sts@.len(),
            widths@.len() == 7,
            forall|c: int| 0 <= c < 7 ==> widths@[c] == max_cell_len(key, sts@, c),
            rows@.len() == i,
            forall|j: int| 0 <= j < i ==> (#[trigger] rows@[j])@ == stats_row(key, sts@, j, 7),
            forall|j: int| 0 <= j < sts@.len() ==> (#[trigger] sts@[j]).count >= 2,
        decreases n - i,
    {
        let mut row = String::new();
        let mut col: usize = 0;
        proof {
            assert(row@ =~= stats_row(key, sts@, i as int, 0));
        }
        while col < 7
            invariant
                col <= 7,
                i < n,
                n == sts@.len(),
                widths@.len() == 7,
                forall|c: int| 0 <= c < 7 ==> widths@[c] == max_cell_len(key, sts@, c),
                row@ == stats_row(key, sts@, i as int, col as int),
                forall|j: int| 0 <= j < sts@.len() ==> (#[trigger] sts@[j]).count >= 2,
            decreases 7 - col,
        {
            let lbl = label_exec(col);
            let cell = cell_exec(key, &sts[i], col);
            let len = cell.as_str().unicode_len();
            proof {
                lemma_max_cell_ge(key, sts@, col as int, i as int);
            }
            let pad = spaces(widths[col] - len);
            row.push_str(lbl);
            row.push_str(pad.as_str());
            row.push_str(cell.as_str());
            proof {
                assert(row@ =~= stats_row(key, sts@, i as int, col + 1));
            }
            col += 1;
        }
        rows.push(row);
        i += 1;
    }
    proof {
        assert forall|i2: int, k: int| 0 <= i2 < rows@.len() && 0 <= k < rows@[i2]@.len() implies
            rows@[i2]@[k] != '\x1b' by {
            lemma_row_no_esc(key, sts@, i2, 7);
        }
    }
    rows
}

proof fn lemma_ratio_text_no_esc(v: int)
    ensures
        forall|k: int| 0 <= k < ratio_text_spec(v).len() ==> ratio_text_spec(v)[k] != '\x1b',
    decreases (if v < 0 { 1int } else { 0int }),
{
    if v < 0 {
        lemma_ratio_text_no_esc(-v);
        assert forall|k: int| 0 <= k < ratio_text_spec(v).len() implies ratio_text_spec(v)[k]
            != '\x1b' by {
            if k == 0 {
                assert(ratio_text_spec(v)[0] == '-');
            } else {
                assert(ratio_text_spec(v)[k] == ratio_text_spec(-v)[k - 1]);
            }
        }
    } else {
        lemma_dec_no_esc(v / 1000);
        let r = ratio_text_spec(v);
        let d = dec_spec(v / 1000);
        assert forall|k: int| 0 <= k < r.len() implies r[k] != '\x1b' by {
            if k < d.len() {
                assert(r[k] == d[k]);
            }
        }
    }
}

/// Append one fragment, keeping the whole sequence well formed and extending
/// both renderings by its characters.
fn push_frag_wf(frags: &mut Vec<Frag>, f: Frag)
    requires
        crate::frag::frag_wf(f),
        frags_wf(old(frags)@),
    ensures
        final(frags)@ == old(frags)@.push(f),
        frags_wf(final(frags)@),
        flatten_spec(final(frags)@, true) == flatten_spec(old(frags)@, true)
            + crate::frag::frag_chars(f, true),
        flatten_spec(final(frags)@, false) == flatten_spec(old(frags)@, false)
            + crate::frag::frag_chars(f, false),
{
    proof {
        crate::frag::lemma_flatten_snoc(frags@, f, true);
        crate::frag::lemma_flatten_snoc(frags@, f, false);
    }
    frags.push(f);
    proof {
        assert forall|i: int| 0 <= i < frags@.len() implies crate::frag::frag_wf(
            #[trigger] frags@[i]) by {
            if i < frags@.len() - 1 {
                assert(frags@[i] == old(frags)@[i]);
            }
        }
    }
}

/// Append every fragment of a plot, keeping the whole sequence well formed
/// and extending both renderings by the plot's whole text.
fn append_frags(frags: &mut Vec<Frag>, plot: Vec<Frag>)
    requires
        frags_wf(old(frags)@),
        frags_wf(plot@),
    ensures
        frags_wf(final(frags)@),
        flatten_spec(final(frags)@, true) == flatten_spec(old(frags)@, true) + flatten_spec(
            plot@, true),
        flatten_spec(final(frags)@, false) == flatten_spec(old(frags)@, false) + flatten_spec(
            plot@, false),
{
    let ghost orig = plot@;
    let mut plot = plot;
    while plot.len() > 0
        invariant
            frags_wf(frags@),
            frags_wf(plot@),
            flatten_spec(frags@, true) + flatten_spec(plot@, true) == flatten_spec(
                old(frags)@, true) + flatten_spec(orig, true),
            flatten_spec(frags@, false) + flatten_spec(plot@, false) == flatten_spec(
                old(frags)@, false) + flatten_spec(orig, false),
        decreases plot@.len(),
    {
        let ghost before = plot@;
        let ghost frags_before = frags@;
        let f = plot.remove(0);
        proof {
            assert(f == before[0]);
            assert(crate::frag::frag_wf(f));
            assert forall|i: int| 0 <= i < plot@.len() implies crate::frag::frag_wf(
                #[trigger] plot@[i]) by {
                assert(plot@[i] == before[i + 1]);
            }
            assert(plot@ =~= before.drop_first());
        }
        push_frag_wf(frags, f);
        proof {
            assert(flatten_spec(before, true) == crate::frag::frag_chars(f, true) + flatten_spec(
                before.drop_first(), true));
            assert(flatten_spec(before, false) == crate::frag::frag_chars(f, false)
                + flatten_spec(before.drop_first(), false));
            assert((flatten_spec(frags_before, true) + crate::frag::frag_chars(f, true))
                + flatten_spec(plot@, true) =~= flatten_spec(frags_before, true) + (
                crate::frag::frag_chars(f, true) + flatten_spec(plot@, true)));
            assert((flatten_spec(frags_before, false) + crate::frag::frag_chars(f, false))
                + flatten_spec(plot@, false) =~= flatten_spec(frags_before, false) + (
                crate::frag::frag_chars(f, false) + flatten_spec(plot@, false)));
        }
    }
    proof {
        assert(flatten_spec(plot@, true) =~= Seq::<char>::empty());
        assert(flatten_spec(plot@, false) =~= Seq::<char>::empty());
        assert(flatten_spec(frags@, true) + Seq::<char>::empty() =~= flatten_spec(frags@, true));
        assert(flatten_spec(frags@, false) + Seq::<char>::empty() =~= flatten_spec(
            frags@, false));
    }
}

/// Whether a report can be produced for this measure: every configured
/// variant has at least two samples, and every statistic of them is
/// representable.
pub open spec fn report_ready(map: ExperimentMap<Experiment>, key: MeasureKey) -> bool {
    &&& exists|n: ExperimentName| map.contains_key(n)
    &&& forall|n: ExperimentName| #[trigger] map.contains_key(n) ==> ready_at(map, key, n)
}

/// Gather every variant's statistics snapshot, or nothing when any variant
/// is not ready to be reported.
fn gather_stats(
    map: &ExperimentMap<Experiment>,
    keys: &Vec<ExperimentName>,
    key: MeasureKey,
) -> (r: Option<Vec<Stats<u64>>>)
    requires
        map.well_formed(),
        forall|n: ExperimentName| #[trigger] map.contains_key(n) ==> map.spec_get(
            n)->Some_0.well_formed(),
        forall|k: int| 0 <= k < keys@.len() ==> map.contains_key(#[trigger] keys@[k]),
        forall|n: ExperimentName| map.contains_key(n) ==> exists|k: int|
            0 <= k < keys@.len() && (#[trigger] keys@[k]).index_spec() == n.index_spec(),
        keys@.len() >= 1,
    ensures
        r is Some <==> report_ready(*map, key),
        r is Some ==> {
            &&& r->0@.len() == keys@.len()
            &&& forall|k: int| 0 <= k < r->0@.len() ==> (#[trigger] r->0@[k]).count >= 2
                && r->0@[k].std_dev <= 0x8000_0000_0000_0000
            &&& forall|k: int| 0 <= k < r->0@.len() ==> #[trigger] r->0@[k] == stats_of(
                *map, key, keys@[k])
        },
{
    let mut stats_vec: Vec<Stats<u64>> = Vec::new();
    let mut i: usize = 0;
    while i < keys.len()
        invariant
            i <= keys@.len(),
            map.well_formed(),
            forall|n: ExperimentName| #[trigger] map.contains_key(n) ==> map.spec_get(
                n)->Some_0.well_formed(),
            forall|k: int| 0 <= k < keys@.len() ==> map.contains_key(#[trigger] keys@[k]),
            stats_vec@.len() == i,
            forall|k: int| 0 <= k < i ==> ready_at(*map, key, #[trigger] keys@[k]),
            forall|k: int| 0 <= k < i ==> (#[trigger] stats_vec@[k]).count >= 2
                && stats_vec@[k].std_dev <= 0x8000_0000_0000_0000,
            forall|k: int| 0 <= k < i ==> #[trigger] stats_vec@[k] == stats_of(
                *map, key, keys@[k]),
        decreases keys@.len() - i,
    {
        let name = keys[i];
        let exp = match map.get(name) {
            Some(e) => e,
            None => unreached(),
        };
        let nums = exp.numbers(key);
        proof {
            nums.lemma_len_eq();
            assert(map.spec_get(keys@[i as int]) == Some(*exp));
            assert(nums.raw_units() == sample_seq(*map, key, keys@[i as int]));
        }
        if nums.len() < 2 {
            proof {
                lemma_not_ready(*map, key, keys@[i as int]);
            }
            return None;
        }
        if !nums.sum_fits() {
            proof {
                lemma_not_ready(*map, key, keys@[i as int]);
            }
            return None;
        }
        if !nums.med_fits_check() {
            proof {
                lemma_not_ready(*map, key, keys@[i as int]);
            }
            return None;
        }
        let st = nums.stats();
        if st.std_dev > 0x8000_0000_0000_0000 {
            proof {
                lemma_not_ready(*map, key, keys@[i as int]);
            }
            return None;
        }
        proof {
            assert(ready_at(*map, key, keys@[i as int]));
            // the snapshot equals its mathematical form, field by field
            crate::numbers::lemma_seq_min_bounds(nums.raw_units());
            crate::numbers::lemma_seq_max_bounds(nums.raw_units());
            assert(nums.raw_units() =~= nums.raw_seq());
            assert(st.min == crate::numbers::seq_min_u64(nums.raw_units())) by {
                assert(nums.raw_seq().contains(st.min));
                let jl = choose|jl: int| 0 <= jl < nums.raw_seq().len() && nums.raw_seq()[jl]
                    == st.min;
                assert(nums.raw_units()[jl] == st.min);
                assert(nums.raw_units().contains(crate::numbers::seq_min_u64(
                    nums.raw_units())));
                let jm = choose|jm: int| 0 <= jm < nums.raw_units().len() && nums.raw_units()[jm]
                    == crate::numbers::seq_min_u64(nums.raw_units());
                assert(st.min <= nums.raw_units()[jm]);
            }
            assert(st.max == crate::numbers::seq_max(nums.raw_units())) by {
                assert(nums.raw_seq().contains(st.max));
                let jh = choose|jh: int| 0 <= jh < nums.raw_seq().len() && nums.raw_seq()[jh]
                    == st.max;
                assert(nums.raw_units()[jh] == st.max);
                assert(nums.raw_units().contains(crate::numbers::seq_max(nums.raw_units())));
                let jm = choose|jm: int| 0 <= jm < nums.raw_units().len() && nums.raw_units()[jm]
                    == crate::numbers::seq_max(nums.raw_units());
                assert(nums.raw_units()[jm] <= st.max);
            }
            assert(st == stats_of(*map, key, keys@[i as int]));
        }
        stats_vec.push(st);
        i += 1;
    }
    proof {
        assert(report_ready(*map, key)) by {
            assert(map.contains_key(keys@[0]));
            assert forall|n: ExperimentName| #[trigger] map.contains_key(n) implies ready_at(
                *map, key, n) by {
                let k = choose|k: int| 0 <= k < keys@.len() && (#[trigger] keys@[k]).index_spec()
                    == n.index_spec();
                assert(ready_at(*map, key, keys@[k]));
                assert(map.spec_get(n) == map.spec_get(keys@[k]));
            }
        }
    }
    Some(stats_vec)
}

/// Push the report's title: the measure's name and a colon.
fn push_title(frags: &mut Vec<Frag>, key: MeasureKey)
    requires
        frags_wf(old(frags)@),
    ensures
        frags_wf(final(frags)@),
        flatten_spec(final(frags)@, true) == flatten_spec(old(frags)@, true)
            + measure_title_spec(key),
        flatten_spec(final(frags)@, false) == flatten_spec(old(frags)@, false)
            + measure_title_spec(key),
{
    let mut title = key.name().to_owned();
    title.push(':');
    title.push('\n');
    proof {
        reveal_strlit("Time (in seconds)");
        reveal_strlit("Max RSS (in megabytes)");
        assert(forall|k: int| 0 <= k < title@.len() ==> title@[k] != '\x1b');
        assert(title@ =~= measure_title_spec(key));
    }
    push_frag_wf(frags, Frag::Text(title));
}

/// Push one colored statistics row per variant; the result is the width of
/// the widest row.
#[verifier::rlimit(100)]
fn push_stat_rows(
    frags: &mut Vec<Frag>,
    keys: &Vec<ExperimentName>,
    rows: &Vec<String>,
    sts: &Vec<Stats<u64>>,
    key: MeasureKey,
) -> (w: usize)
    requires
        frags_wf(old(frags)@),
        rows@.len() == keys@.len(),
        sts@.len() == keys@.len(),
        forall|i2: int| 0 <= i2 < rows@.len() ==> (#[trigger] rows@[i2])@ == stats_row(
            key, sts@, i2, 7),
        forall|i2: int, k: int| 0 <= i2 < rows@.len() && 0 <= k < rows@[i2]@.len()
            ==> rows@[i2]@[k] != '\x1b',
    ensures
        frags_wf(final(frags)@),
        w == max_row_len(key, sts@, sts@.len() as int),
        flatten_spec(final(frags)@, true) == flatten_spec(old(frags)@, true) + rows_text_spec(
            key, sts@, keys@, keys@.len() as int, true),
        flatten_spec(final(frags)@, false) == flatten_spec(old(frags)@, false) + rows_text_spec(
            key, sts@, keys@, keys@.len() as int, false),
{
    let mut w: usize = 0;
    let mut i: usize = 0;
    proof {
        assert(flatten_spec(frags@, true) =~= flatten_spec(old(frags)@, true) + rows_text_spec(
            key, sts@, keys@, 0, true));
        assert(flatten_spec(frags@, false) =~= flatten_spec(old(frags)@, false) + rows_text_spec(
            key, sts@, keys@, 0, false));
    }
    while i < rows.len()
        invariant
            i <= rows@.len(),
            rows@.len() == keys@.len(),
            sts@.len() == keys@.len(),
            forall|i2: int| 0 <= i2 < rows@.len() ==> (#[trigger] rows@[i2])@ == stats_row(
                key, sts@, i2, 7),
            forall|i2: int, k: int| 0 <= i2 < rows@.len() && 0 <= k < rows@[i2]@.len()
                ==> rows@[i2]@[k] != '\x1b',
            frags_wf(frags@),
            w == max_row_len(key, sts@, i as int),
            flatten_spec(frags@, true) == flatten_spec(old(frags)@, true) + rows_text_spec(
                key, sts@, keys@, i as int, true),
            flatten_spec(frags@, false) == flatten_spec(old(frags)@, false) + rows_text_spec(
                key, sts@, keys@, i as int, false),
        decreases rows@.len() - i,
    {
        let name = keys[i];
        push_name_frags(frags, name);
        let l = rows[i].as_str().unicode_len();
        if l > w {
            w = l;
        }
        let mut line = ": ".to_owned();
        line.push_str(rows[i].as_str());
        line.push('\n');
        proof {
            reveal_strlit(": ");
            assert(forall|k: int| 0 <= k < line@.len() ==> line@[k] != '\x1b');
            assert(line@ =~= seq![':', ' '] + stats_row(key, sts@, i as int, 7) + seq!['\n']);
        }
        push_frag_wf(frags, Frag::Text(line));
        proof {
            assert(flatten_spec(frags@, true) =~= flatten_spec(old(frags)@, true)
                + rows_text_spec(key, sts@, keys@, i + 1, true));
            assert(flatten_spec(frags@, false) =~= flatten_spec(old(frags)@, false)
                + rows_text_spec(key, sts@, keys@, i + 1, false));
        }
        i += 1;
    }
    w
}

/// The shared plotting range: the least and greatest sample over every
/// variant.
fn sample_range(map: &ExperimentMap<Experiment>, keys: &Vec<ExperimentName>, key: MeasureKey) -> (
    r: (u64, u64))
    requires
        map.well_formed(),
        forall|n: ExperimentName| #[trigger] map.contains_key(n) ==> map.spec_get(
            n)->Some_0.well_formed(),
        forall|k: int| 0 <= k < keys@.len() ==> map.contains_key(#[trigger] keys@[k]),
        forall|k: int| 0 <= k < keys@.len() ==> ready_at(*map, key, #[trigger] keys@[k]),
        keys@.len() >= 1,
    ensures
        r.0 <= r.1,
        r.0 == range_min_spec(*map, key, keys@),
        r.1 == range_max_spec(*map, key, keys@),
        forall|k: int, j: int| 0 <= k < keys@.len() && 0 <= j < sample_seq(
            *map, key, keys@[k]).len() ==> r.0 <= #[trigger] sample_seq(*map, key, keys@[k])[j]
            <= r.1,
{
    let mut gmin: u64 = u64::MAX;
    let mut gmax: u64 = 0;
    let mut i: usize = 0;
    proof {
        assert(keys@.take(0) =~= Seq::<ExperimentName>::empty());
    }
    while i < keys.len()
        invariant
            i <= keys@.len(),
            map.well_formed(),
            forall|n: ExperimentName| #[trigger] map.contains_key(n) ==> map.spec_get(
                n)->Some_0.well_formed(),
            forall|k: int| 0 <= k < keys@.len() ==> map.contains_key(#[trigger] keys@[k]),
            forall|k: int| 0 <= k < keys@.len() ==> ready_at(*map, key, #[trigger] keys@[k]),
            gmin == range_min_spec(*map, key, keys@.take(i as int)),
            gmax == range_max_spec(*map, key, keys@.take(i as int)),
            forall|k: int, j: int| 0 <= k < i && 0 <= j < sample_seq(
                *map, key, keys@[k]).len() ==> gmin <= #[trigger] sample_seq(
                *map, key, keys@[k])[j] <= gmax,
            i >= 1 ==> gmin <= gmax,
        decreases keys@.len() - i,
    {
        let name = keys[i];
        let exp = match map.get(name) {
            Some(e) => e,
            None => unreached(),
        };
        let nums = exp.numbers(key);
        proof {
            nums.lemma_len_eq();
            assert(map.spec_get(keys@[i as int]) == Some(*exp));
            assert(nums.raw_units() == sample_seq(*map, key, keys@[i as int]));
            assert(ready_at(*map, key, keys@[i as int]));
        }
        let lo = nums.min();
        let hi = nums.max();
        proof {
            crate::numbers::lemma_seq_min_bounds(nums.raw_units());
            crate::numbers::lemma_seq_max_bounds(nums.raw_units());
            assert(nums.raw_units() =~= nums.raw_seq());
            assert(nums.raw_seq().contains(lo));
            let jl = choose|jl: int| 0 <= jl < nums.raw_seq().len() && nums.raw_seq()[jl] == lo;
            assert(nums.raw_units()[jl] == lo);
            assert(lo == crate::numbers::seq_min_u64(nums.raw_units())) by {
                assert(nums.raw_units().contains(crate::numbers::seq_min_u64(
                    nums.raw_units())));
                let jm = choose|jm: int| 0 <= jm < nums.raw_units().len() && nums.raw_units()[jm]
                    == crate::numbers::seq_min_u64(nums.raw_units());
                assert(lo <= nums.raw_units()[jm]);
            }
            assert(nums.raw_seq().contains(hi));
            let jh = choose|jh: int| 0 <= jh < nums.raw_seq().len() && nums.raw_seq()[jh] == hi;
            assert(nums.raw_units()[jh] == hi);
            assert(hi == crate::numbers::seq_max(nums.raw_units())) by {
                assert(nums.raw_units().contains(crate::numbers::seq_max(nums.raw_units())));
                let jm = choose|jm: int| 0 <= jm < nums.raw_units().len() && nums.raw_units()[jm]
                    == crate::numbers::seq_max(nums.raw_units());
                assert(nums.raw_units()[jm] <= hi);
            }
        }
        let ghost old_gmin = gmin;
        let ghost old_gmax = gmax;
        if lo < gmin {
            gmin = lo;
        }
        if hi > gmax {
            gmax = hi;
        }
        proof {
            assert(keys@.take(i + 1).drop_last() =~= keys@.take(i as int));
            assert(keys@.take(i + 1).last() == keys@[i as int]);
            assert(gmin == range_min_spec(*map, key, keys@.take(i + 1)));
            assert(gmax == range_max_spec(*map, key, keys@.take(i + 1)));
            assert(gmin <= lo && hi <= gmax);
            assert(gmin <= gmax) by {
                assert(lo <= hi);
            }
            assert forall|k: int, j: int| 0 <= k < i + 1 && 0 <= j < sample_seq(
                *map, key, keys@[k]).len() implies gmin <= #[trigger] sample_seq(
                *map, key, keys@[k])[j] <= gmax by {
                if k == i {
                    assert(sample_seq(*map, key, keys@[k]) == nums.raw_units());
                }
            }
        }
        i += 1;
    }
    proof {
        assert(keys@.take(keys@.len() as int) =~= keys@);
    }
    (gmin, gmax)
}

/// Push one ratio-of-means confidence line per variant against the baseline.
#[verifier::rlimit(100)]
fn push_cmp_lines(frags: &mut Vec<Frag>, keys: &Vec<ExperimentName>, stats_vec: &Vec<Stats<u64>>)
    requires
        frags_wf(old(frags)@),
        stats_vec@.len() == keys@.len(),
        keys@.len() >= 1,
        forall|k: int| 0 <= k < stats_vec@.len() ==> (#[trigger] stats_vec@[k]).count >= 2
            && stats_vec@[k].std_dev <= 0x8000_0000_0000_0000,
    ensures
        frags_wf(final(frags)@),
        flatten_spec(final(frags)@, true) == flatten_spec(old(frags)@, true) + cmp_lines_spec(
            stats_vec@, keys@, keys@.len() as int),
        flatten_spec(final(frags)@, false) == flatten_spec(old(frags)@, false) + cmp_lines_spec(
            stats_vec@, keys@, keys@.len() as int),
{
    let base_name = keys[0];
    let mut i: usize = 1;
    proof {
        assert(flatten_spec(frags@, true) =~= flatten_spec(old(frags)@, true) + cmp_lines_spec(
            stats_vec@, keys@, 1));
        assert(flatten_spec(frags@, false) =~= flatten_spec(old(frags)@, false) + cmp_lines_spec(
            stats_vec@, keys@, 1));
    }
    while i < keys.len()
        invariant
            1 <= i <= keys@.len(),
            stats_vec@.len() == keys@.len(),
            forall|k: int| 0 <= k < stats_vec@.len() ==> (#[trigger] stats_vec@[k]).count >= 2
                && stats_vec@[k].std_dev <= 0x8000_0000_0000_0000,
            base_name == keys@[0],
            frags_wf(frags@),
            flatten_spec(frags@, true) == flatten_spec(old(frags)@, true) + cmp_lines_spec(
                stats_vec@, keys@, i as int),
            flatten_spec(frags@, false) == flatten_spec(old(frags)@, false) + cmp_lines_spec(
                stats_vec@, keys@, i as int),
        decreases keys@.len() - i,
    {
        let cmp = compare(&stats_vec[0], &stats_vec[i]);
        let mut line = keys[i].name().to_owned();
        line.push('/');
        line.push_str(base_name.name());
        line.push_str(": ");
        let ratio = ratio_to_text(cmp.ratio_millis);
        line.push_str(ratio.as_str());
        line.push(' ');
        let lo = ratio_to_text(cmp.lo_millis);
        line.push_str(lo.as_str());
        line.push_str("..");
        let hi = match cmp.hi_millis {
            Some(v) => ratio_to_text(Some(v)),
            None => "inf".to_owned(),
        };
        line.push_str(hi.as_str());
        line.push_str(" (95% conf)");
        line.push('\n');
        proof {
            reveal_strlit(": ");
            reveal_strlit("..");
            reveal_strlit(" (95% conf)");
            reveal_strlit("inf");
            lemma_name_no_esc(keys@[i as int]);
            lemma_name_no_esc(keys@[0]);
            lemma_ratio_no_esc_opt(cmp.ratio_millis);
            lemma_ratio_no_esc_opt(cmp.lo_millis);
            lemma_ratio_no_esc_opt(cmp.hi_millis);
            assert(ratio@ == opt_ratio_text_spec(cmp_ratio_opt(stats_vec@[0], stats_vec@[
                i as int])));
            assert(lo@ == opt_ratio_text_spec(cmp_lo_opt(stats_vec@[0], stats_vec@[i as int])));
            assert(hi@ == hi_corner_text_spec(cmp_hi_opt(stats_vec@[0], stats_vec@[i as int])))
                by {
                if cmp.hi_millis is Some {
                } else {
                    assert(hi@ =~= seq!['i', 'n', 'f']);
                }
            }
            assert(forall|k: int| 0 <= k < line@.len() ==> line@[k] != '\x1b');
            assert(line@ =~= cmp_line_spec(stats_vec@, keys@, i as int));
        }
        push_frag_wf(frags, Frag::Text(line));
        proof {
            assert(flatten_spec(frags@, true) =~= flatten_spec(old(frags)@, true)
                + cmp_lines_spec(stats_vec@, keys@, i + 1));
            assert(flatten_spec(frags@, false) =~= flatten_spec(old(frags)@, false)
                + cmp_lines_spec(stats_vec@, keys@, i + 1));
        }
        i += 1;
    }
}

/// Render the report of one measure: a title, one statistics row per
/// variant, the distribution plots when asked for, and one ratio-of-means
/// confidence line per variant against the baseline. Nothing is produced
/// until every variant has at least two samples.
pub fn render_stats(map: &ExperimentMap<Experiment>, key: MeasureKey, include_distr: bool) -> (r:
    Option<Report>)
    requires
        map.well_formed(),
        forall|n: ExperimentName| #[trigger] map.contains_key(n) ==> map.spec_get(
            n)->Some_0.well_formed() && map.spec_get(n)->Some_0.name == n,
    ensures
        r is Some <==> report_ready(*map, key),
        r is Some ==> r->0.well_formed(),
        r is Some ==> flatten_spec(r->0.frags@, true) == report_text_spec(
            *map, key, include_distr, true),
        r is Some ==> flatten_spec(r->0.frags@, false) == report_text_spec(
            *map, key, include_distr, false),
{
    let keys = map.keys();
    if keys.len() == 0 {
        proof {
            if report_ready(*map, key) {
                let n = choose|n: ExperimentName| map.contains_key(n);
                assert(false);
            }
        }
        return None;
    }

    let stats_vec = match gather_stats(map, &keys, key) {
        Some(v) => v,
        None => {
            return None;
        },
    };

    let ghost names = map.key_seq();
    let ghost sts = names.map_values(|n: ExperimentName| stats_of(*map, key, n));
    proof {
        assert(keys@ == names);
        assert(stats_vec@ =~= sts);
    }

    let mut frags: Vec<Frag> = Vec::new();
    proof {
        assert(flatten_spec(frags@, true) =~= Seq::<char>::empty());
        assert(flatten_spec(frags@, false) =~= Seq::<char>::empty());
    }
    push_title(&mut frags, key);
    proof {
        assert(flatten_spec(frags@, true) =~= measure_title_spec(key));
        assert(flatten_spec(frags@, false) =~= measure_title_spec(key));
    }
    let rows = display_stats(&stats_vec, key);
    let w = push_stat_rows(&mut frags, &keys, &rows, &stats_vec, key);
    let ghost base_rows_t = measure_title_spec(key) + rows_text_spec(
        key, sts, names, names.len() as int, true);
    let ghost base_rows_f = measure_title_spec(key) + rows_text_spec(
        key, sts, names, names.len() as int, false);
    proof {
        assert(flatten_spec(frags@, true) =~= base_rows_t);
        assert(flatten_spec(frags@, false) =~= base_rows_f);
    }

    let ghost distr_t = if include_distr {
        distr_section_spec(
            *map, key, names, distr_width_spec(max_row_len(key, sts, sts.len() as int)), true)
    } else {
        Seq::<char>::empty()
    };
    let ghost distr_f = if include_distr {
        distr_section_spec(
            *map, key, names, distr_width_spec(max_row_len(key, sts, sts.len() as int)), false)
    } else {
        Seq::<char>::empty()
    };
    if include_distr {
        proof {
            assert forall|k: int| 0 <= k < keys@.len() implies ready_at(
                *map, key, #[trigger] keys@[k]) by {
                assert(map.contains_key(keys@[k]));
            }
        }
        let range = sample_range(map, &keys, key);
        let wdistr: usize = if w > 8 {
            if w - 8 > 0x3FFF_FFFF {
                0x3FFF_FFFF
            } else {
                w - 8
            }
        } else {
            1
        };
        proof {
            assert(wdistr as int == distr_width_spec(max_row_len(key, sts, sts.len() as int)));
        }
        push_distr_frags(&mut frags, map, &keys, key, wdistr, range.0, range.1);
        proof {
            assert(distr_lines_all(*map, key, keys@, wdistr as int, range.0, range.1, true)
                == distr_t);
            assert(distr_lines_all(*map, key, keys@, wdistr as int, range.0, range.1, false)
                == distr_f);
        }
    }
    proof {
        assert(flatten_spec(frags@, true) =~= base_rows_t + distr_t);
        assert(flatten_spec(frags@, false) =~= base_rows_f + distr_f);
    }

    push_cmp_lines(&mut frags, &keys, &stats_vec);
    proof {
        assert(flatten_spec(frags@, true) =~= (base_rows_t + distr_t) + cmp_lines_spec(
            sts, names, names.len() as int));
        assert(flatten_spec(frags@, false) =~= (base_rows_f + distr_f) + cmp_lines_spec(
            sts, names, names.len() as int));
        assert(flatten_spec(frags@, true) =~= report_text_spec(*map, key, include_distr, true));
        assert(flatten_spec(frags@, false) =~= report_text_spec(
            *map, key, include_distr, false));
    }
    Some(Report { frags })
}


/// The report's title line.
pub open spec fn measure_title_spec(key: MeasureKey) -> Seq<char> {
    (match key {
        MeasureKey::WallTime => "Time (in seconds)"@,
        MeasureKey::MaxRss => "Max RSS (in megabytes)"@,
    }) + seq![':', '\n']
}

/// A variant's letter, wrapped in its color when colors are on.
pub open spec fn name_text_spec(n: ExperimentName, colored: bool) -> Seq<char> {
    if colored {
        n.color_spec() + n.name_spec() + crate::ansi::RESET@
    } else {
        n.name_spec()
    }
}

/// The statistics snapshot a variant's samples yield.
pub open spec fn stats_of(map: ExperimentMap<Experiment>, key: MeasureKey, n: ExperimentName)
    -> Stats<u64> {
    let nums = map.spec_get(n)->Some_0.measures.spec_get(key)->Some_0;
    Stats {
        count: nums.raw_units().len() as u64,
        mean: crate::numbers::mean_spec(nums.raw_units()) as u64,
        med: crate::numbers::med_spec(nums.sorted_units_seq()) as u64,
        min: crate::numbers::seq_min_u64(nums.raw_units()),
        max: crate::numbers::seq_max(nums.raw_units()),
        std_dev: sqrt_floor(crate::numbers::var_spec(nums.raw_units())) as u64,
    }
}

/// The per-variant statistics lines, one colored letter and one aligned row
/// each.
pub open spec fn rows_text_spec(
    key: MeasureKey,
    sts: Seq<Stats<u64>>,
    names: Seq<ExperimentName>,
    upto: int,
    colored: bool,
) -> Seq<char>
    decreases upto,
{
    if upto <= 0 {
        Seq::empty()
    } else {
        rows_text_spec(key, sts, names, upto - 1, colored) + name_text_spec(
            names[upto - 1], colored) + seq![':', ' '] + stats_row(key, sts, upto - 1, 7) + seq![
            '\n']
    }
}

/// The width of the widest statistics row.
pub open spec fn max_row_len(key: MeasureKey, sts: Seq<Stats<u64>>, upto: int) -> int
    decreases upto,
{
    if upto <= 0 {
        0
    } else {
        let rest = max_row_len(key, sts, upto - 1);
        let own = stats_row(key, sts, upto - 1, 7).len() as int;
        if own >= rest {
            own
        } else {
            rest
        }
    }
}

/// The plot width the report uses: eight columns narrower than the widest
/// statistics row, at least one, and within the bucket arithmetic's range.
pub open spec fn distr_width_spec(w: int) -> int {
    if w > 8 {
        if w - 8 > 0x3FFF_FFFF {
            0x3FFF_FFFF
        } else {
            w - 8
        }
    } else {
        1
    }
}

/// The least sample over the given variants.
pub open spec fn range_min_spec(
    map: ExperimentMap<Experiment>,
    key: MeasureKey,
    names: Seq<ExperimentName>,
) -> u64
    decreases names.len(),
{
    if names.len() == 0 {
        u64::MAX
    } else {
        let rest = range_min_spec(map, key, names.drop_last());
        let own = crate::numbers::seq_min_u64(sample_seq(map, key, names.last()));
        if own <= rest {
            own
        } else {
            rest
        }
    }
}

/// The greatest sample over the given variants.
pub open spec fn range_max_spec(
    map: ExperimentMap<Experiment>,
    key: MeasureKey,
    names: Seq<ExperimentName>,
) -> u64
    decreases names.len(),
{
    if names.len() == 0 {
        0
    } else {
        let rest = range_max_spec(map, key, names.drop_last());
        let own = crate::numbers::seq_max(sample_seq(map, key, names.last()));
        if own >= rest {
            own
        } else {
            rest
        }
    }
}

/// The bucket counts of one variant's samples, as unsigned counts; all zero
/// over a degenerate range.
pub open spec fn counts_spec(samples: Seq<u64>, n: int, lo: u64, hi: u64) -> Seq<u64> {
    Seq::new(
        n as nat,
        |b: int| if lo == hi {
            0u64
        } else {
            crate::numbers::distr_spec(samples, n, lo, hi)[b] as u64
        },
    )
}

/// The tallest bucket over every variant's counts.
pub open spec fn max_height_spec(
    map: ExperimentMap<Experiment>,
    key: MeasureKey,
    names: Seq<ExperimentName>,
    n: int,
    lo: u64,
    hi: u64,
) -> u64
    decreases names.len(),
{
    if names.len() == 0 {
        0
    } else {
        let rest = max_height_spec(map, key, names.drop_last(), n, lo, hi);
        let own = crate::numbers::seq_max(counts_spec(
            sample_seq(map, key, names.last()), n, lo, hi));
        if own >= rest {
            own
        } else {
            rest
        }
    }
}

/// One variant's rendered plot, at the resolution the shared heights chose.
pub open spec fn plot_text_spec(
    map: ExperimentMap<Experiment>,
    key: MeasureKey,
    n: ExperimentName,
    w: int,
    lo: u64,
    hi: u64,
    halves: bool,
    maxh: u64,
    colored: bool,
) -> Seq<char> {
    let samples = sample_seq(map, key, n);
    if halves {
        crate::bars::plot_halves_u64_spec(
            counts_spec(samples, 2 * w, lo, hi),
            maxh as int,
            if colored { n.color_spec() } else { Seq::empty() },
            Seq::empty(),
            if colored { crate::ansi::RESET@ } else { Seq::empty() },
        )
    } else {
        crate::bars::plot_u64_spec(
            counts_spec(samples, w, lo, hi),
            maxh as int,
            if colored { n.color_spec() } else { Seq::empty() },
            if colored { crate::ansi::AnsiColor::White.bg_spec() } else { Seq::empty() },
            if colored { crate::ansi::RESET@ } else { Seq::empty() },
        )
    }
}

/// The per-variant distribution lines.
pub open spec fn distr_lines_spec(
    map: ExperimentMap<Experiment>,
    key: MeasureKey,
    names: Seq<ExperimentName>,
    upto: int,
    w: int,
    lo: u64,
    hi: u64,
    halves: bool,
    maxh: u64,
    colored: bool,
) -> Seq<char>
    decreases upto,
{
    if upto <= 0 {
        Seq::empty()
    } else {
        distr_lines_spec(map, key, names, upto - 1, w, lo, hi, halves, maxh, colored)
            + name_text_spec(names[upto - 1], colored) + seq![
            ':', ' ', 'd', 'i', 's', 't', 'r', '=', '['] + plot_text_spec(
            map, key, names[upto - 1], w, lo, hi, halves, maxh, colored) + seq![']', '\n']
    }
}

/// The distribution lines over a given range: the shared heights decide
/// between full and half resolution, then every variant gets one line.
pub open spec fn distr_lines_all(
    map: ExperimentMap<Experiment>,
    key: MeasureKey,
    names: Seq<ExperimentName>,
    w: int,
    lo: u64,
    hi: u64,
    colored: bool,
) -> Seq<char> {
    let mh2 = max_height_spec(map, key, names, 2 * w, lo, hi);
    let mh1 = max_height_spec(map, key, names, w, lo, hi);
    let halves = mh2 <= 2;
    let maxh = if halves {
        mh2
    } else {
        mh1
    };
    distr_lines_spec(map, key, names, names.len() as int, w, lo, hi, halves, maxh, colored)
}

/// The whole distribution section, over the shared sample range.
pub open spec fn distr_section_spec(
    map: ExperimentMap<Experiment>,
    key: MeasureKey,
    names: Seq<ExperimentName>,
    w: int,
    colored: bool,
) -> Seq<char> {
    distr_lines_all(
        map, key, names, w, range_min_spec(map, key, names), range_max_spec(map, key, names),
        colored)
}

/// A ratio or lower corner as printed: three decimals, or the fallback glyph
/// where the value is undefined.
pub open spec fn opt_ratio_text_spec(c: Option<int>) -> Seq<char> {
    match c {
        Some(v) => ratio_text_spec(v),
        None => seq!['?'],
    }
}

/// The upper corner as printed: three decimals, or infinity where its
/// denominator vanished.
pub open spec fn hi_corner_text_spec(c: Option<int>) -> Seq<char> {
    match c {
        Some(v) => ratio_text_spec(v),
        None => seq!['i', 'n', 'f'],
    }
}

/// One variant's comparison line against the baseline.
pub open spec fn cmp_line_spec(
    sts: Seq<Stats<u64>>,
    names: Seq<ExperimentName>,
    i: int,
) -> Seq<char> {
    names[i].name_spec() + seq!['/'] + names[0].name_spec() + seq![':', ' ']
        + opt_ratio_text_spec(cmp_ratio_opt(sts[0], sts[i])) + seq![' '] + opt_ratio_text_spec(
        cmp_lo_opt(sts[0], sts[i])) + seq!['.', '.'] + hi_corner_text_spec(
        cmp_hi_opt(sts[0], sts[i])) + seq![
        ' ', '(', '9', '5', '%', ' ', 'c', 'o', 'n', 'f', ')', '\n']
}

/// Every comparison line, one per variant after the baseline.
pub open spec fn cmp_lines_spec(
    sts: Seq<Stats<u64>>,
    names: Seq<ExperimentName>,
    upto: int,
) -> Seq<char>
    decreases upto,
{
    if upto <= 1 {
        Seq::empty()
    } else {
        cmp_lines_spec(sts, names, upto - 1) + cmp_line_spec(sts, names, upto - 1)
    }
}

/// The whole report of one measure: the title, the statistics rows, the
/// distribution plots when asked for, and the comparison lines, with or
/// without colors.
pub open spec fn report_text_spec(
    map: ExperimentMap<Experiment>,
    key: MeasureKey,
    include_distr: bool,
    colored: bool,
) -> Seq<char> {
    let names = map.key_seq();
    let sts = names.map_values(|n: ExperimentName| stats_of(map, key, n));
    measure_title_spec(key) + rows_text_spec(key, sts, names, names.len() as int, colored) + (
    if include_distr {
        distr_section_spec(
            map, key, names, distr_width_spec(max_row_len(key, sts, sts.len() as int)), colored)
    } else {
        Seq::empty()
    }) + cmp_lines_spec(sts, names, names.len() as int)
}

/// The samples of one variant for one measure.
pub open spec fn sample_seq(
    map: ExperimentMap<Experiment>,
    key: MeasureKey,
    n: ExperimentName,
) -> Seq<u64> {
    map.spec_get(n)->Some_0.measures.spec_get(key)->Some_0.raw_units()
}

/// The readiness conditions of one variant.
pub open spec fn ready_at(
    map: ExperimentMap<Experiment>,
    key: MeasureKey,
    n: ExperimentName,
) -> bool {
    let nums = map.spec_get(n)->Some_0.measures.spec_get(key)->Some_0;
    &&& nums.raw_units().len() >= 2
    &&& crate::arith::seq_sum(nums.raw_units()) <= u64::MAX
    &&& crate::numbers::med_fits(nums.sorted_units_seq())
    &&& sqrt_floor(crate::numbers::var_spec(nums.raw_units())) <= 0x8000_0000_0000_0000
}

proof fn lemma_not_ready(map: ExperimentMap<Experiment>, key: MeasureKey, n: ExperimentName)
    requires
        map.contains_key(n),
        !ready_at(map, key, n),
    ensures
        !report_ready(map, key),
{
}

proof fn lemma_name_no_esc(n: ExperimentName)
    ensures
        forall|k: int| 0 <= k < n.name_spec().len() ==> n.name_spec()[k] != '\x1b',
{
}

proof fn lemma_ratio_no_esc_opt(v: Option<i128>)
    ensures
        v is Some ==> forall|k: int| 0 <= k < ratio_text_spec(v->0 as int).len()
            ==> ratio_text_spec(v->0 as int)[k] != '\x1b',
{
    if v is Some {
        lemma_ratio_text_no_esc(v->0 as int);
    }
}

/// Push the colored letter name of a variant.
fn push_name_frags(frags: &mut Vec<Frag>, name: ExperimentName)
    requires
        frags_wf(old(frags)@),
    ensures
        frags_wf(final(frags)@),
        flatten_spec(final(frags)@, true) == flatten_spec(old(frags)@, true) + name_text_spec(
            name, true),
        flatten_spec(final(frags)@, false) == flatten_spec(old(frags)@, false) + name_text_spec(
            name, false),
{
    proof {
        lemma_name_color_csi(name);
        crate::ansi::lemma_reset_is_csi_token();
        lemma_name_no_esc(name);
    }
    push_frag_wf(frags, Frag::Style(name.color().to_owned()));
    push_frag_wf(frags, Frag::Text(name.name().to_owned()));
    push_frag_wf(frags, Frag::Style(ansi::RESET.to_owned()));
    proof {
        assert(flatten_spec(frags@, true) =~= flatten_spec(old(frags)@, true) + name_text_spec(
            name, true));
        assert(flatten_spec(frags@, false) =~= flatten_spec(old(frags)@, false) + name_text_spec(
            name, false));
    }
}

proof fn lemma_name_color_csi(n: ExperimentName)
    ensures
        crate::ansi::is_csi_token(n.color_spec()),
{
    match n {
        ExperimentName::A => crate::ansi::lemma_fg_is_csi_token(crate::ansi::AnsiColor::Red),
        ExperimentName::B => crate::ansi::lemma_fg_is_csi_token(crate::ansi::AnsiColor::Green),
        ExperimentName::C => crate::ansi::lemma_fg_is_csi_token(crate::ansi::AnsiColor::Blue),
        ExperimentName::D => crate::ansi::lemma_fg_is_csi_token(crate::ansi::AnsiColor::Magenta),
        ExperimentName::E => crate::ansi::lemma_fg_is_csi_token(crate::ansi::AnsiColor::Cyan),
    }
}

/// Push the distribution plots of every variant: each variant's samples are
/// bucketed over the shared range and drawn at full or half resolution,
/// whichever keeps the tallest bucket visible.
#[verifier::rlimit(100)]
fn push_distr_frags(
    frags: &mut Vec<Frag>,
    map: &ExperimentMap<Experiment>,
    keys: &Vec<ExperimentName>,
    key: MeasureKey,
    width: usize,
    gmin: u64,
    gmax: u64,
)
    requires
        frags_wf(old(frags)@),
        map.well_formed(),
        forall|n: ExperimentName| #[trigger] map.contains_key(n) ==> map.spec_get(
            n)->Some_0.well_formed() && map.spec_get(n)->Some_0.name == n,
        forall|k: int| 0 <= k < keys@.len() ==> map.contains_key(#[trigger] keys@[k]),
        1 <= width <= 0x3FFF_FFFF,
        gmin <= gmax,
        forall|k: int, j: int| 0 <= k < keys@.len() && 0 <= j < sample_seq(
            *map, key, keys@[k]).len() ==> gmin <= #[trigger] sample_seq(*map, key, keys@[k])[j],
    ensures
        frags_wf(final(frags)@),
        flatten_spec(final(frags)@, true) == flatten_spec(old(frags)@, true) + distr_lines_all(
            *map, key, keys@, width as int, gmin, gmax, true),
        flatten_spec(final(frags)@, false) == flatten_spec(old(frags)@, false) + distr_lines_all(
            *map, key, keys@, width as int, gmin, gmax, false),
{
    // bucket every variant at both resolutions
    let mut distr_full: Vec<crate::numbers::Distr> = Vec::new();
    let mut distr_half: Vec<crate::numbers::Distr> = Vec::new();
    let mut max_full: u64 = 0;
    let mut max_half: u64 = 0;
    let mut i: usize = 0;
    proof {
        assert(keys@.take(0) =~= Seq::<ExperimentName>::empty());
    }
    while i < keys.len()
        invariant
            i <= keys@.len(),
            map.well_formed(),
            forall|n: ExperimentName| #[trigger] map.contains_key(n) ==> map.spec_get(
                n)->Some_0.well_formed() && map.spec_get(n)->Some_0.name == n,
            forall|k: int| 0 <= k < keys@.len() ==> map.contains_key(#[trigger] keys@[k]),
            1 <= width <= 0x3FFF_FFFF,
            gmin <= gmax,
            forall|k: int, j: int| 0 <= k < keys@.len() && 0 <= j < sample_seq(
                *map, key, keys@[k]).len() ==> gmin <= #[trigger] sample_seq(
                *map, key, keys@[k])[j],
            distr_full@.len() == i,
            distr_half@.len() == i,
            max_half == max_height_spec(*map, key, keys@.take(i as int), 2 * width, gmin, gmax),
            max_full == max_height_spec(*map, key, keys@.take(i as int), width as int, gmin,
                gmax),
            forall|k: int| 0 <= k < i ==> (#[trigger] distr_half@[k]).counts@ == counts_spec(
                sample_seq(*map, key, keys@[k]), 2 * width, gmin, gmax),
            forall|k: int| 0 <= k < i ==> (#[trigger] distr_full@[k]).counts@ == counts_spec(
                sample_seq(*map, key, keys@[k]), width as int, gmin, gmax),
        decreases keys@.len() - i,
    {
        let name = keys[i];
        let exp = match map.get(name) {
            Some(e) => e,
            None => unreached(),
        };
        let nums = exp.numbers(key);
        proof {
            assert(map.spec_get(keys@[i as int]) == Some(*exp));
            assert(nums.raw_units() == sample_seq(*map, key, keys@[i as int]));
            if gmin < gmax {
                assert forall|j: int| 0 <= j < nums.raw_units().len() implies nums.raw_units()[j]
                    >= gmin by {
                    assert(sample_seq(*map, key, keys@[i as int])[j] >= gmin);
                }
            }
        }
        let dh = nums.distr(2 * width, gmin, gmax);
        let df = nums.distr(width, gmin, gmax);
        proof {
            assert(dh.counts@ =~= counts_spec(
                sample_seq(*map, key, keys@[i as int]), 2 * width, gmin, gmax));
            assert(df.counts@ =~= counts_spec(
                sample_seq(*map, key, keys@[i as int]), width as int, gmin, gmax));
        }
        let mh = dh.max();
        let mf = df.max();
        if mh > max_half {
            max_half = mh;
        }
        if mf > max_full {
            max_full = mf;
        }
        distr_half.push(dh);
        distr_full.push(df);
        proof {
            assert(keys@.take(i + 1).drop_last() =~= keys@.take(i as int));
            assert(keys@.take(i + 1).last() == keys@[i as int]);
            assert(max_half == max_height_spec(*map, key, keys@.take(i + 1), 2 * width, gmin,
                gmax));
            assert(max_full == max_height_spec(*map, key, keys@.take(i + 1), width as int, gmin,
                gmax));
        }
        i += 1;
    }
    proof {
        assert(keys@.take(keys@.len() as int) =~= keys@);
    }
    let ghost mh2s = max_height_spec(*map, key, keys@, 2 * width, gmin, gmax);
    let ghost mh1s = max_height_spec(*map, key, keys@, width as int, gmin, gmax);

    let halves = max_half <= 2;
    let maxh = if halves {
        max_half
    } else {
        max_full
    };
    let mut i: usize = 0;
    while i < keys.len()
        invariant
            i <= keys@.len(),
            map.well_formed(),
            forall|n: ExperimentName| #[trigger] map.contains_key(n) ==> map.spec_get(
                n)->Some_0.well_formed() && map.spec_get(n)->Some_0.name == n,
            forall|k: int| 0 <= k < keys@.len() ==> map.contains_key(#[trigger] keys@[k]),
            distr_full@.len() == keys@.len(),
            distr_half@.len() == keys@.len(),
            forall|k: int| 0 <= k < keys@.len() ==> (#[trigger] distr_half@[k]).counts@
                == counts_spec(sample_seq(*map, key, keys@[k]), 2 * width, gmin, gmax),
            forall|k: int| 0 <= k < keys@.len() ==> (#[trigger] distr_full@[k]).counts@
                == counts_spec(sample_seq(*map, key, keys@[k]), width as int, gmin, gmax),
            mh2s == max_height_spec(*map, key, keys@, 2 * width, gmin, gmax),
            mh1s == max_height_spec(*map, key, keys@, width as int, gmin, gmax),
            halves == (mh2s <= 2),
            maxh == if halves { mh2s } else { mh1s },
            frags_wf(frags@),
            flatten_spec(frags@, true) == flatten_spec(old(frags)@, true) + distr_lines_spec(
                *map, key, keys@, i as int, width as int, gmin, gmax, halves, maxh, true),
            flatten_spec(frags@, false) == flatten_spec(old(frags)@, false) + distr_lines_spec(
                *map, key, keys@, i as int, width as int, gmin, gmax, halves, maxh, false),
        decreases keys@.len() - i,
    {
        let name = keys[i];
        let exp = match map.get(name) {
            Some(e) => e,
            None => unreached(),
        };
        proof {
            assert(map.spec_get(keys@[i as int]) == Some(*exp));
            assert(exp.name == keys@[i as int]);
        }
        push_name_frags(frags, name);
        let open_text = ": distr=[".to_owned();
        proof {
            reveal_strlit(": distr=[");
            assert(forall|k: int| 0 <= k < open_text@.len() ==> open_text@[k] != '\x1b');
            assert(open_text@ =~= seq![':', ' ', 'd', 'i', 's', 't', 'r', '=', '[']);
        }
        push_frag_wf(frags, Frag::Text(open_text));
        let plot: Vec<Frag> = if halves {
            let hl = exp.plot_halves_highlights();
            proof {
                lemma_name_color_csi(exp.name);
                crate::ansi::lemma_reset_is_csi_token();
            }
            crate::bars::plot_halves_u64_frags(distr_half[i].counts.as_slice(), maxh, &hl)
        } else {
            let hl = exp.plot_highlights();
            proof {
                lemma_name_color_csi(exp.name);
                crate::ansi::lemma_bg_is_csi_token(crate::ansi::AnsiColor::White);
                crate::ansi::lemma_reset_is_csi_token();
            }
            crate::bars::plot_u64_frags(distr_full[i].counts.as_slice(), maxh, &hl)
        };
        proof {
            assert(flatten_spec(plot@, true) == plot_text_spec(
                *map, key, keys@[i as int], width as int, gmin, gmax, halves, maxh, true));
            assert(flatten_spec(plot@, false) == plot_text_spec(
                *map, key, keys@[i as int], width as int, gmin, gmax, halves, maxh, false));
        }
        append_frags(frags, plot);
        let mut close_text = "]".to_owned();
        close_text.push('\n');
        proof {
            reveal_strlit("]");
            assert(forall|k: int| 0 <= k < close_text@.len() ==> close_text@[k] != '\x1b');
            assert(close_text@ =~= seq![']', '\n']);
        }
        push_frag_wf(frags, Frag::Text(close_text));
        proof {
            assert(flatten_spec(frags@, true) =~= flatten_spec(old(frags)@, true)
                + distr_lines_spec(
                *map, key, keys@, i + 1, width as int, gmin, gmax, halves, maxh, true));
            assert(flatten_spec(frags@, false) =~= flatten_spec(old(frags)@, false)
                + distr_lines_spec(
                *map, key, keys@, i + 1, width as int, gmin, gmax, halves, maxh, false));
        }
        i += 1;
    }
}

/// The raw samples of one variant as one log line: space-separated decimals.
pub open spec fn raw_items_spec(s: Seq<u64>) -> Seq<char>
    decreases s.len(),
{
    if s.len() == 0 {
        Seq::empty()
    } else if s.len() == 1 {
        dec_spec(s[0] as int)
    } else {
        raw_items_spec(s.drop_last()) + seq![' '] + dec_spec(s.last() as int)
    }
}

/// Render the raw samples of one variant, space-separated and newline
/// terminated, as the raw log stores them.
pub fn raw_values_line(values: &[u64]) -> (r: String)
    ensures
        r@ == raw_items_spec(values@) + seq!['\n'],
{
    let mut out = String::new();
    let mut i: usize = 0;
    proof {
        assert(values@.take(0) =~= Seq::<u64>::empty());
        assert(out@ =~= raw_items_spec(values@.take(0)));
    }
    while i < values.len()
        invariant
            i <= values@.len(),
            out@ == raw_items_spec(values@.take(i as int)),
        decreases values@.len() - i,
    {
        if i != 0 {
            out.push(' ');
        }
        let d = u64_to_dec(values[i]);
        out.push_str(d.as_str());
        proof {
            assert(values@.take(i + 1).drop_last() =~= values@.take(i as int));
            assert(values@.take(i + 1).last() == values@[i as int]);
            if i == 0 {
                assert(out@ =~= raw_items_spec(values@.take(1)));
            } else {
                assert(out@ =~= raw_items_spec(values@.take(i + 1)));
            }
        }
        i += 1;
    }
    proof {
        assert(values@.take(values@.len() as int) =~= values@);
    }
    out.push('\n');
    proof {
        assert(out@ =~= raw_items_spec(values@) + seq!['\n']);
    }
    out
}

} // verus!
