//! Unicode bar charts: quantizing values into glyph levels and rendering
//! rows of single-cell or quarter-cell glyphs, with zero-run highlighting.

use vstd::prelude::*;

use vstd::arithmetic::div_mod::lemma_fundamental_div_mod;

use crate::frag::flatten;
use crate::frag::flatten_spec;
use crate::frag::frag_wf;
use crate::frag::frags_wf;
use crate::frag::push_frag;
use crate::frag::style_wf;
use crate::frag::Frag;
use crate::text::repeat_char;
use crate::text::spaces;

verus! {

/// The glyph for a full-resolution level between zero and eight.
pub open spec fn bar_char_0_8_spec(value: int) -> Option<char> {
    if value == 0 {
        Some(' ')
    } else if value == 1 {
        Some('\u{2581}')
    } else if value == 2 {
        Some('\u{2582}')
    } else if value == 3 {
        Some('\u{2583}')
    } else if value == 4 {
        Some('\u{2584}')
    } else if value == 5 {
        Some('\u{2585}')
    } else if value == 6 {
        Some('\u{2586}')
    } else if value == 7 {
        Some('\u{2587}')
    } else if value == 8 {
        Some('\u{2588}')
    } else {
        None
    }
}

/// One of nine vertical-block glyphs, blank first.
pub fn bar_char_0_8(value: u32) -> (r: Option<char>)
    ensures
        r == bar_char_0_8_spec(value as int),
{
    match value {
        0 => Some(' '),
        1 => Some('\u{2581}'),
        2 => Some('\u{2582}'),
        3 => Some('\u{2583}'),
        4 => Some('\u{2584}'),
        5 => Some('\u{2585}'),
        6 => Some('\u{2586}'),
        7 => Some('\u{2587}'),
        8 => Some('\u{2588}'),
        _ => None,
    }
}

/// The quadrant glyph for a pair of half-resolution levels, each between
/// zero and two.
pub open spec fn bar_char_pair_spec(a: int, b: int) -> Option<char> {
    if a == 0 && b == 0 {
        Some(' ')
    } else if a == 0 && b == 1 {
        Some('\u{2597}')
    } else if a == 0 && b == 2 {
        Some('\u{2590}')
    } else if a == 1 && b == 0 {
        Some('\u{2596}')
    } else if a == 1 && b == 1 {
        Some('\u{2584}')
    } else if a == 1 && b == 2 {
        Some('\u{259F}')
    } else if a == 2 && b == 0 {
        Some('\u{258C}')
    } else if a == 2 && b == 1 {
        Some('\u{2599}')
    } else if a == 2 && b == 2 {
        Some('\u{2588}')
    } else {
        None
    }
}

/// One of nine two-dimensional quadrant glyphs.
pub fn bar_char_0_2_0_2(values: [u32; 2]) -> (r: Option<char>)
    ensures
        r == bar_char_pair_spec(values@[0] as int, values@[1] as int),
{
    let a = values[0];
    let b = values[1];
    if a == 0 && b == 0 {
        Some(' ')
    } else if a == 0 && b == 1 {
        Some('\u{2597}')
    } else if a == 0 && b == 2 {
        Some('\u{2590}')
    } else if a == 1 && b == 0 {
        Some('\u{2596}')
    } else if a == 1 && b == 1 {
        Some('\u{2584}')
    } else if a == 1 && b == 2 {
        Some('\u{259F}')
    } else if a == 2 && b == 0 {
        Some('\u{258C}')
    } else if a == 2 && b == 1 {
        Some('\u{2599}')
    } else if a == 2 && b == 2 {
        Some('\u{2588}')
    } else {
        None
    }
}

/// The glyph that stands in for a value with no defined level.
pub const NAN_CHAR: char = '?';

/// The bucket of `v` when `[min, max]` is cut into `last + 1 - first` levels:
/// the floor of the scaled position, clamped into `[first, last]`. A value
/// equal to a degenerate range has no bucket; on either side of it, the
/// nearest end wins.
pub open spec fn bucket_core(v: int, min: int, max: int, first: int, last: int) -> Option<int> {
    if min == max {
        if v == min {
            None
        } else if v > min {
            Some(last)
        } else {
            Some(first)
        }
    } else {
        let q = (v - min) * (last + 1 - first) / (max - min) + first;
        if q < first {
            Some(first)
        } else if q > last {
            Some(last)
        } else {
            Some(q)
        }
    }
}

/// Quantize `value` over `[min, max]` into a bucket of `[first_bucket,
/// last_bucket]`.
pub fn value_to_bucket(value: i64, min: i64, max: i64, first_bucket: u32, last_bucket: u32) -> (r:
    Option<u32>)
    requires
        first_bucket <= last_bucket,
        min <= max,
    ensures
        ({
            let b = bucket_core(
                value as int, min as int, max as int, first_bucket as int, last_bucket as int);
            match b {
                Option::None => r is None,
                Option::Some(q) => r == Some(q as u32),
            }
        }),
{
    if min == max {
        if value == min {
            None
        } else if value > min {
            Some(last_bucket)
        } else {
            Some(first_bucket)
        }
    } else if value < min {
        proof {
            let num = (value - min) * (last_bucket + 1 - first_bucket);
            let den = max - min;
            assert(num < 0) by (nonlinear_arith)
                requires
                    num == (value - min) * (last_bucket + 1 - first_bucket) && value < min
                        && first_bucket <= last_bucket;
            lemma_fundamental_div_mod(num, den);
            let q = num / den;
            let rem = num % den;
            assert(q < 0) by (nonlinear_arith)
                requires num == den * q + rem && 0 <= rem < den && num < 0 && den > 0;
        }
        Some(first_bucket)
    } else {
        let diff = (value as i128) - (min as i128);
        let nb = (last_bucket as u128) - (first_bucket as u128) + 1;
        proof {
            assert((diff as u128) * nb <= 0x2_0000_0000_0000_0000u128 * 0x1_0000_0001u128)
                by (nonlinear_arith)
                requires
                    diff as u128 <= 0x2_0000_0000_0000_0000u128,
                    nb <= 0x1_0000_0001u128,
            ;
        }
        let num = (diff as u128) * nb;
        let den = ((max as i128) - (min as i128)) as u128;
        let q = num / den;
        let shifted = q + (first_bucket as u128);
        if shifted > (last_bucket as u128) {
            Some(last_bucket)
        } else {
            proof {
                vstd::arithmetic::div_mod::lemma_div_pos_is_pos(num as int, den as int);
            }
            Some(shifted as u32)
        }
    }
}

/// The full-resolution glyph of `v` over `[min, max]`: nine levels, or the
/// fallback glyph where no level is defined.
pub open spec fn bar_char_0_8_range_spec(v: int, min: int, max: int) -> char {
    match bucket_core(v, min, max, 0, 8) {
        Option::None => NAN_CHAR,
        Option::Some(q) => match bar_char_0_8_spec(q) {
            Option::Some(c) => c,
            Option::None => NAN_CHAR,
        },
    }
}

pub fn bar_char_0_8_range(value: i64, min: i64, max: i64) -> (r: char)
    requires
        min <= max,
    ensures
        r == bar_char_0_8_range_spec(value as int, min as int, max as int),
{
    match value_to_bucket(value, min, max, 0, 8) {
        Some(v) => match bar_char_0_8(v) {
            Some(c) => c,
            None => NAN_CHAR,
        },
        None => NAN_CHAR,
    }
}

/// The half-resolution glyph of a pair over `[min, max]`: three levels each,
/// or the fallback glyph where either value has no level.
pub open spec fn bar_char_pair_range_spec(a: int, b: int, min: int, max: int) -> char {
    let v0 = bucket_core(a, min, max, 0, 2);
    let v1 = bucket_core(b, min, max, 0, 2);
    if v0 is Some && v1 is Some {
        match bar_char_pair_spec(v0->Some_0, v1->Some_0) {
            Option::Some(c) => c,
            Option::None => NAN_CHAR,
        }
    } else {
        NAN_CHAR
    }
}

pub fn bar_char_0_2_0_2_range(values: [i64; 2], min: i64, max: i64) -> (r: char)
    requires
        min <= max,
    ensures
        r == bar_char_pair_range_spec(values@[0] as int, values@[1] as int, min as int, max as int),
{
    let v0 = value_to_bucket(values[0], min, max, 0, 2);
    let v1 = value_to_bucket(values[1], min, max, 0, 2);
    match (v0, v1) {
        (Some(v0), Some(v1)) => match bar_char_0_2_0_2([v0, v1]) {
            Some(c) => c,
            None => NAN_CHAR,
        },
        _ => NAN_CHAR,
    }
}

/// A row of full-resolution glyphs, one per value.
pub open spec fn plot_spec(s: Seq<i64>, min: int, max: int) -> Seq<char> {
    s.map_values(|v: i64| bar_char_0_8_range_spec(v as int, min, max))
}

/// Render every value as one full-resolution glyph.
pub fn plot(values: &[i64], min: i64, max: i64) -> (r: String)
    requires
        min <= max,
    ensures
        r@ == plot_spec(values@, min as int, max as int),
{
    let mut s = String::new();
    let mut i: usize = 0;
    while i < values.len()
        invariant
            i <= values@.len(),
            min <= max,
            s@ == plot_spec(values@.take(i as int), min as int, max as int),
        decreases values@.len() - i,
    {
        s.push(bar_char_0_8_range(values[i], min, max));
        proof {
            assert(s@ =~= plot_spec(values@.take(i + 1), min as int, max as int));
        }
        i += 1;
    }
    proof {
        assert(values@.take(values@.len() as int) =~= values@);
    }
    s
}

/// A row of half-resolution glyphs: values are paired two at a time, an odd
/// trailing value paired with the range minimum.
pub open spec fn plot_halves_spec(s: Seq<i64>, min: int, max: int) -> Seq<char> {
    Seq::new(
        ((s.len() + 1) / 2) as nat,
        |k: int| bar_char_pair_range_spec(
            s[2 * k] as int,
            if 2 * k + 1 < s.len() {
                s[2 * k + 1] as int
            } else {
                min
            },
            min,
            max,
        ),
    )
}

/// Render the values two per cell at half resolution.
pub fn plot_halves(values: &[i64], min: i64, max: i64) -> (r: String)
    requires
        min <= max,
    ensures
        r@ == plot_halves_spec(values@, min as int, max as int),
{
    let mut s = String::new();
    let half = values.len() / 2 + values.len() % 2;
    let mut k: usize = 0;
    while k < half
        invariant
            k <= half,
            half == values@.len() / 2 + values@.len() % 2,
            values@.len() <= usize::MAX,
            min <= max,
            s@ == plot_halves_spec(values@, min as int, max as int).take(k as int),
        decreases half - k,
    {
        proof {
            assert(values@.len() == 2 * (values@.len() as int / 2) + values@.len() as int % 2);
            assert(2 * (k as int) + 2 <= values@.len() + 1);
        }
        let i = 2 * k;
        let c = if i + 1 < values.len() {
            bar_char_0_2_0_2_range([values[i], values[i + 1]], min, max)
        } else {
            bar_char_0_2_0_2_range([values[i], min], min, max)
        };
        s.push(c);
        proof {
            assert(s@ =~= plot_halves_spec(values@, min as int, max as int).take(k + 1));
        }
        k += 1;
    }
    proof {
        assert(plot_halves_spec(values@, min as int, max as int).take(half as int)
            =~= plot_halves_spec(values@, min as int, max as int));
    }
    s
}

/// The three style fragments around a plot: one before the non-zero region,
/// one before each zero region, and the reset after each region.
pub struct PlotHighlight {
    pub non_zero: String,
    pub zero: String,
    pub reset: String,
}

impl PlotHighlight {
    /// No styling at all.
    pub fn no() -> (r: PlotHighlight)
        ensures
            r.non_zero@ == Seq::<char>::empty(),
            r.zero@ == Seq::<char>::empty(),
            r.reset@ == Seq::<char>::empty(),
    {
        PlotHighlight { non_zero: String::new(), zero: String::new(), reset: String::new() }
    }
}

impl Default for PlotHighlight {
    /// No styling at all.
    fn default() -> (r: PlotHighlight)
        ensures
            r.non_zero@ == Seq::<char>::empty(),
            r.zero@ == Seq::<char>::empty(),
            r.reset@ == Seq::<char>::empty(),
    {
        PlotHighlight::no()
    }
}

/// The length of the leading run of zeros.
pub open spec fn lead_zeros_spec(s: Seq<u64>) -> int
    decreases s.len(),
{
    if s.len() == 0 || s[0] != 0 {
        0
    } else {
        1 + lead_zeros_spec(s.drop_first())
    }
}

/// The length of the trailing run of zeros.
pub open spec fn tail_zeros_spec(s: Seq<u64>) -> int
    decreases s.len(),
{
    if s.len() == 0 || s.last() != 0 {
        0
    } else {
        1 + tail_zeros_spec(s.drop_last())
    }
}

proof fn lemma_lead_zeros_at(s: Seq<u64>, i: int)
    requires
        0 <= i <= s.len(),
        forall|k: int| 0 <= k < i ==> s[k] == 0,
        i == s.len() || s[i] != 0,
    ensures
        lead_zeros_spec(s) == i,
    decreases i,
{
    if i > 0 {
        lemma_lead_zeros_at(s.drop_first(), i - 1);
    }
}

proof fn lemma_tail_zeros_at(s: Seq<u64>, t: int)
    requires
        0 <= t <= s.len(),
        forall|k: int| s.len() - t <= k < s.len() ==> s[k] == 0,
        t == s.len() || s[s.len() - 1 - t] != 0,
    ensures
        tail_zeros_spec(s) == t,
    decreases t,
{
    if t > 0 {
        lemma_tail_zeros_at(s.drop_last(), t - 1);
    }
}

/// The full-resolution glyph of a count over `[0, max]`.
fn bar_char_u64(v: u64, max: u64) -> (r: char)
    ensures
        r == bar_char_0_8_range_spec(v as int, 0, max as int),
{
    if max == 0 {
        if v == 0 {
            NAN_CHAR
        } else {
            '\u{2588}'
        }
    } else {
        proof {
            assert((v as u128) * 9 <= 0xFFFF_FFFF_FFFF_FFFFu128 * 9) by (nonlinear_arith)
                requires v as u128 <= 0xFFFF_FFFF_FFFF_FFFFu128;
        }
        let q = (v as u128) * 9 / (max as u128);
        if q > 8 {
            '\u{2588}'
        } else {
            match bar_char_0_8(q as u32) {
                Some(c) => c,
                None => NAN_CHAR,
            }
        }
    }
}

/// No full-resolution glyph is an escape character.
pub proof fn lemma_bar_glyph_not_esc(v: int, min: int, max: int)
    ensures
        bar_char_0_8_range_spec(v, min, max) != '\x1b',
{
}

/// No quadrant glyph is an escape character.
pub proof fn lemma_pair_glyph_not_esc(a: int, b: int, min: int, max: int)
    ensures
        bar_char_pair_range_spec(a, b, min, max) != '\x1b',
{
}

/// The rendered plot of counts: the leading and trailing zero runs drawn as
/// blanks in the zero style, the interior drawn as glyphs in the non-zero
/// style, each region closed by the reset fragment.
pub open spec fn plot_u64_spec(
    s: Seq<u64>,
    max: int,
    nz: Seq<char>,
    z: Seq<char>,
    rst: Seq<char>,
) -> Seq<char> {
    let l = lead_zeros_spec(s);
    let m = s.skip(l);
    let t = tail_zeros_spec(m);
    let interior = m.take(m.len() - t);
    z + repeat_char(' ', l) + rst + nz + interior.map_values(
        |v: u64| bar_char_0_8_range_spec(v as int, 0, max)) + rst + z + repeat_char(' ', t) + rst
}

/// The plot as style and text fragments: the same fragments render the plot
/// with colors or without.
pub fn plot_u64_frags(values: &[u64], max: u64, highlight: &PlotHighlight) -> (r: Vec<Frag>)
    ensures
        flatten_spec(r@, true) == plot_u64_spec(
            values@, max as int, highlight.non_zero@, highlight.zero@, highlight.reset@),
        flatten_spec(r@, false) == plot_u64_spec(
            values@, max as int, Seq::<char>::empty(), Seq::<char>::empty(),
            Seq::<char>::empty()),
        style_wf(highlight.non_zero@) && style_wf(highlight.zero@) && style_wf(highlight.reset@)
            ==> frags_wf(r@),
{
    let n = values.len();
    let mut lead: usize = 0;
    while lead < n && values[lead] == 0
        invariant
            lead <= n,
            n == values@.len(),
            forall|k: int| 0 <= k < lead ==> values@[k] == 0,
        decreases n - lead,
    {
        lead += 1;
    }
    proof {
        lemma_lead_zeros_at(values@, lead as int);
    }
    let ghost m = values@.skip(lead as int);
    let mut tail: usize = 0;
    while tail < n - lead && values[n - 1 - tail] == 0
        invariant
            tail <= n - lead,
            n == values@.len(),
            lead <= n,
            m == values@.skip(lead as int),
            forall|k: int| m.len() - tail <= k < m.len() ==> m[k] == 0,
        decreases n - lead - tail,
    {
        proof {
            assert(m[m.len() - 1 - tail] == values@[n - 1 - tail as int]);
        }
        tail += 1;
    }
    proof {
        if tail < n - lead {
            assert(m[m.len() - 1 - tail] == values@[n - 1 - tail as int]);
        }
        lemma_tail_zeros_at(m, tail as int);
    }
    let ghost interior = m.take(m.len() - tail);
    let ghost glyphs = interior.map_values(
        |v: u64| bar_char_0_8_range_spec(v as int, 0, max as int));

    let mut gs = String::new();
    let mut j: usize = lead;
    proof {
        assert(gs@ =~= glyphs.take(0));
    }
    while j < n - tail
        invariant
            lead <= j <= n - tail,
            tail <= n - lead,
            n == values@.len(),
            m == values@.skip(lead as int),
            interior == m.take(m.len() - tail),
            glyphs == interior.map_values(
                |v: u64| bar_char_0_8_range_spec(v as int, 0, max as int)),
            gs@ == glyphs.take(j - lead),
        decreases n - tail - j,
    {
        proof {
            assert(interior[j - lead] == values@[j as int]);
        }
        gs.push(bar_char_u64(values[j], max));
        proof {
            assert(glyphs.take(j - lead).push(glyphs[j - lead]) =~= glyphs.take(j - lead + 1));
        }
        j += 1;
    }
    proof {
        assert(glyphs.take(n - tail - lead) =~= glyphs);
    }

    let lead_sp = spaces(lead);
    let tail_sp = spaces(tail);
    let mut frags: Vec<Frag> = Vec::new();
    push_frag(&mut frags, Frag::Style(highlight.zero.clone()));
    push_frag(&mut frags, Frag::Text(lead_sp));
    push_frag(&mut frags, Frag::Style(highlight.reset.clone()));
    push_frag(&mut frags, Frag::Style(highlight.non_zero.clone()));
    push_frag(&mut frags, Frag::Text(gs));
    push_frag(&mut frags, Frag::Style(highlight.reset.clone()));
    push_frag(&mut frags, Frag::Style(highlight.zero.clone()));
    push_frag(&mut frags, Frag::Text(tail_sp));
    push_frag(&mut frags, Frag::Style(highlight.reset.clone()));
    proof {
        let nz = highlight.non_zero@;
        let z = highlight.zero@;
        let rst = highlight.reset@;
        let e = Seq::<char>::empty();
        assert(flatten_spec(frags@, true) =~= plot_u64_spec(values@, max as int, nz, z, rst));
        assert(flatten_spec(frags@, false) =~= plot_u64_spec(values@, max as int, e, e, e));
        if style_wf(nz) && style_wf(z) && style_wf(rst) {
            assert forall|i: int| 0 <= i < frags@.len() implies frag_wf(#[trigger] frags@[i]) by {
                assert forall|k: int| 0 <= k < glyphs.len() implies glyphs[k] != '\x1b' by {
                    lemma_bar_glyph_not_esc(interior[k] as int, 0, max as int);
                }
            }
        }
    }
    frags
}

/// Render bucket counts as one row of full-resolution glyphs over `[0, max]`,
/// compressing the leading and trailing zero runs into styled blanks.
pub fn plot_u64(values: &[u64], max: u64, highlight: &PlotHighlight) -> (r: String)
    ensures
        r@ == plot_u64_spec(
            values@, max as int, highlight.non_zero@, highlight.zero@, highlight.reset@),
{
    let frags = plot_u64_frags(values, max, highlight);
    flatten(&frags, true)
}

/// The values two at a time, an odd trailing value paired with zero.
pub open spec fn pairs_spec(s: Seq<u64>) -> Seq<(u64, u64)> {
    Seq::new(
        ((s.len() + 1) / 2) as nat,
        |k: int| (
            s[2 * k],
            if 2 * k + 1 < s.len() {
                s[2 * k + 1]
            } else {
                0u64
            },
        ),
    )
}

/// The length of the leading run of all-zero pairs.
pub open spec fn lead_zero_pairs_spec(s: Seq<(u64, u64)>) -> int
    decreases s.len(),
{
    if s.len() == 0 || !(s[0].0 == 0 && s[0].1 == 0) {
        0
    } else {
        1 + lead_zero_pairs_spec(s.drop_first())
    }
}

/// The length of the trailing run of all-zero pairs.
pub open spec fn tail_zero_pairs_spec(s: Seq<(u64, u64)>) -> int
    decreases s.len(),
{
    if s.len() == 0 || !(s.last().0 == 0 && s.last().1 == 0) {
        0
    } else {
        1 + tail_zero_pairs_spec(s.drop_last())
    }
}

proof fn lemma_lead_zero_pairs_at(s: Seq<(u64, u64)>, i: int)
    requires
        0 <= i <= s.len(),
        forall|k: int| 0 <= k < i ==> (#[trigger] s[k]).0 == 0 && s[k].1 == 0,
        i == s.len() || !(s[i].0 == 0 && s[i].1 == 0),
    ensures
        lead_zero_pairs_spec(s) == i,
    decreases i,
{
    if i > 0 {
        lemma_lead_zero_pairs_at(s.drop_first(), i - 1);
    }
}

proof fn lemma_tail_zero_pairs_at(s: Seq<(u64, u64)>, t: int)
    requires
        0 <= t <= s.len(),
        forall|k: int| s.len() - t <= k < s.len() ==> (#[trigger] s[k]).0 == 0 && s[k].1 == 0,
        t == s.len() || !(s[s.len() - 1 - t].0 == 0 && s[s.len() - 1 - t].1 == 0),
    ensures
        tail_zero_pairs_spec(s) == t,
    decreases t,
{
    if t > 0 {
        lemma_tail_zero_pairs_at(s.drop_last(), t - 1);
    }
}

/// The rendered half-resolution plot of counts: pairs of counts become
/// quadrant glyphs over `[0, max]`, and the leading and trailing runs of
/// all-zero pairs become styled blanks.
pub open spec fn plot_halves_u64_spec(
    s: Seq<u64>,
    max: int,
    nz: Seq<char>,
    z: Seq<char>,
    rst: Seq<char>,
) -> Seq<char> {
    let ps = pairs_spec(s);
    let l = lead_zero_pairs_spec(ps);
    let m = ps.skip(l);
    let t = tail_zero_pairs_spec(m);
    let interior = m.take(m.len() - t);
    z + repeat_char(' ', l) + rst + nz + interior.map_values(
        |p: (u64, u64)| bar_char_pair_range_spec(p.0 as int, p.1 as int, 0, max)) + rst + z
        + repeat_char(' ', t) + rst
}

/// The quadrant glyph of a pair of counts over `[0, max]`.
fn bar_char_pair_u64(a: u64, b: u64, max: u64) -> (r: char)
    ensures
        r == bar_char_pair_range_spec(a as int, b as int, 0, max as int),
{
    let v0 = bucket_u64_0_2(a, max);
    let v1 = bucket_u64_0_2(b, max);
    match (v0, v1) {
        (Some(v0), Some(v1)) => match bar_char_0_2_0_2([v0, v1]) {
            Some(c) => c,
            None => NAN_CHAR,
        },
        _ => NAN_CHAR,
    }
}

/// The half-resolution level of a count over `[0, max]`.
fn bucket_u64_0_2(v: u64, max: u64) -> (r: Option<u32>)
    ensures
        ({
            let b = bucket_core(v as int, 0, max as int, 0, 2);
            match b {
                Option::None => r is None,
                Option::Some(q) => r == Some(q as u32),
            }
        }),
{
    if max == 0 {
        if v == 0 {
            None
        } else {
            Some(2)
        }
    } else {
        proof {
            assert((v as u128) * 3 <= 0xFFFF_FFFF_FFFF_FFFFu128 * 3) by (nonlinear_arith)
                requires v as u128 <= 0xFFFF_FFFF_FFFF_FFFFu128;
        }
        let q = (v as u128) * 3 / (max as u128);
        if q > 2 {
            Some(2)
        } else {
            Some(q as u32)
        }
    }
}

/// The half-resolution plot as fragments: the same fragments render it with
/// colors or without.
#[verifier::rlimit(100)]
pub fn plot_halves_u64_frags(values: &[u64], max: u64, highlight: &PlotHighlight) -> (r: Vec<
    Frag>)
    ensures
        flatten_spec(r@, true) == plot_halves_u64_spec(
            values@, max as int, highlight.non_zero@, highlight.zero@, highlight.reset@),
        flatten_spec(r@, false) == plot_halves_u64_spec(
            values@, max as int, Seq::<char>::empty(), Seq::<char>::empty(),
            Seq::<char>::empty()),
        style_wf(highlight.non_zero@) && style_wf(highlight.zero@) && style_wf(highlight.reset@)
            ==> frags_wf(r@),
{
    let n = values.len();
    let half = n / 2 + n % 2;
    let mut pairs: Vec<(u64, u64)> = Vec::new();
    let mut k: usize = 0;
    while k < half
        invariant
            k <= half,
            half == values@.len() / 2 + values@.len() % 2,
            n == values@.len(),
            n <= usize::MAX,
            pairs@ == pairs_spec(values@).take(k as int),
        decreases half - k,
    {
        proof {
            assert(values@.len() == 2 * (values@.len() as int / 2) + values@.len() as int % 2);
            assert(2 * (k as int) + 2 <= values@.len() + 1);
        }
        let i = 2 * k;
        let pair: (u64, u64) = if i + 1 < n {
            (values[i], values[i + 1])
        } else {
            (values[i], 0)
        };
        pairs.push(pair);
        proof {
            assert(pairs@ =~= pairs_spec(values@).take(k + 1));
        }
        k += 1;
    }
    proof {
        assert(pairs_spec(values@).take(half as int) =~= pairs_spec(values@));
    }
    let ghost ps = pairs_spec(values@);

    let np = pairs.len();
    let mut lead: usize = 0;
    while lead < np && pairs[lead].0 == 0 && pairs[lead].1 == 0
        invariant
            lead <= np,
            np == ps.len(),
            pairs@ == ps,
            forall|k2: int| 0 <= k2 < lead ==> (#[trigger] ps[k2]).0 == 0 && ps[k2].1 == 0,
        decreases np - lead,
    {
        lead += 1;
    }
    proof {
        lemma_lead_zero_pairs_at(ps, lead as int);
    }
    let ghost m = ps.skip(lead as int);
    let mut tail: usize = 0;
    while tail < np - lead && pairs[np - 1 - tail].0 == 0 && pairs[np - 1 - tail].1 == 0
        invariant
            tail <= np - lead,
            np == ps.len(),
            lead <= np,
            pairs@ == ps,
            m == ps.skip(lead as int),
            forall|k2: int| m.len() - tail <= k2 < m.len() ==> (#[trigger] m[k2]).0 == 0
                && m[k2].1 == 0,
        decreases np - lead - tail,
    {
        proof {
            assert(m[m.len() - 1 - tail] == ps[np - 1 - tail as int]);
        }
        tail += 1;
    }
    proof {
        if tail < np - lead {
            assert(m[m.len() - 1 - tail] == ps[np - 1 - tail as int]);
        }
        lemma_tail_zero_pairs_at(m, tail as int);
    }
    let ghost interior = m.take(m.len() - tail);
    let ghost glyphs = interior.map_values(
        |p: (u64, u64)| bar_char_pair_range_spec(p.0 as int, p.1 as int, 0, max as int));

    let mut gs = String::new();
    let mut j: usize = lead;
    proof {
        assert(gs@ =~= glyphs.take(0));
    }
    while j < np - tail
        invariant
            lead <= j <= np - tail,
            tail <= np - lead,
            np == ps.len(),
            pairs@ == ps,
            m == ps.skip(lead as int),
            interior == m.take(m.len() - tail),
            glyphs == interior.map_values(
                |p: (u64, u64)| bar_char_pair_range_spec(p.0 as int, p.1 as int, 0, max as int)),
            gs@ == glyphs.take(j - lead),
        decreases np - tail - j,
    {
        proof {
            assert(interior[j - lead] == ps[j as int]);
        }
        let pr = pairs[j];
        gs.push(bar_char_pair_u64(pr.0, pr.1, max));
        proof {
            assert(glyphs.take(j - lead).push(glyphs[j - lead]) =~= glyphs.take(j - lead + 1));
        }
        j += 1;
    }
    proof {
        assert(glyphs.take(np - tail - lead) =~= glyphs);
    }

    let lead_sp = spaces(lead);
    let tail_sp = spaces(tail);
    let mut frags: Vec<Frag> = Vec::new();
    push_frag(&mut frags, Frag::Style(highlight.zero.clone()));
    push_frag(&mut frags, Frag::Text(lead_sp));
    push_frag(&mut frags, Frag::Style(highlight.reset.clone()));
    push_frag(&mut frags, Frag::Style(highlight.non_zero.clone()));
    push_frag(&mut frags, Frag::Text(gs));
    push_frag(&mut frags, Frag::Style(highlight.reset.clone()));
    push_frag(&mut frags, Frag::Style(highlight.zero.clone()));
    push_frag(&mut frags, Frag::Text(tail_sp));
    push_frag(&mut frags, Frag::Style(highlight.reset.clone()));
    proof {
        let nz = highlight.non_zero@;
        let z = highlight.zero@;
        let rst = highlight.reset@;
        let e = Seq::<char>::empty();
        assert(flatten_spec(frags@, true) =~= plot_halves_u64_spec(
            values@, max as int, nz, z, rst));
        assert(flatten_spec(frags@, false) =~= plot_halves_u64_spec(values@, max as int, e, e, e));
        if style_wf(nz) && style_wf(z) && style_wf(rst) {
            assert forall|i: int| 0 <= i < frags@.len() implies frag_wf(#[trigger] frags@[i]) by {
                assert forall|k: int| 0 <= k < glyphs.len() implies glyphs[k] != '\x1b' by {
                    lemma_pair_glyph_not_esc(
                        interior[k].0 as int, interior[k].1 as int, 0, max as int);
                }
            }
        }
    }
    frags
}

/// Render bucket counts two per cell as quadrant glyphs over `[0, max]`,
/// compressing the leading and trailing all-zero pairs into styled blanks.
pub fn plot_halves_u64(values: &[u64], max: u64, highlight: &PlotHighlight) -> (r: String)
    ensures
        r@ == plot_halves_u64_spec(
            values@, max as int, highlight.non_zero@, highlight.zero@, highlight.reset@),
{
    let frags = plot_halves_u64_frags(values, max, highlight);
    flatten(&frags, true)
}

} // verus!
