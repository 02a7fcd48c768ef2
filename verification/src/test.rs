//! One configured test: its scripts and its measured samples.

use vstd::prelude::*;

use crate::ansi;
use crate::bars::PlotHighlight;
use crate::duration::Duration;
use crate::mem_usage::MemUsage;
use crate::numbers::Numbers;
use crate::test_name::TestName;

verus! {

/// One test being benchmarked, with one collection per measured quantity.
pub struct Test {
    pub name: TestName,
    pub warmup: String,
    pub run: String,
    pub durations: Numbers<Duration>,
    pub mem_usages: Numbers<MemUsage>,
}

impl Test {
    /// The styles of the full-resolution distribution plot: this test's
    /// color for bars, a white background for the zero runs.
    pub fn plot_highlights(&self) -> (r: PlotHighlight)
        ensures
            r.non_zero@ == self.name.color_spec(),
            r.zero@ == crate::ansi::AnsiColor::White.bg_spec(),
            r.reset@ == ansi::RESET@,
    {
        PlotHighlight {
            non_zero: self.name.color().to_owned(),
            zero: crate::ansi::AnsiColor::White.bg().to_owned(),
            reset: ansi::RESET.to_owned(),
        }
    }

    /// The styles of the half-resolution plot: no background for zero runs.
    pub fn plot_halves_highlights(&self) -> (r: PlotHighlight)
        ensures
            r.non_zero@ == self.name.color_spec(),
            r.zero@ == Seq::<char>::empty(),
            r.reset@ == ansi::RESET@,
    {
        PlotHighlight {
            non_zero: self.name.color().to_owned(),
            zero: String::new(),
            reset: ansi::RESET.to_owned(),
        }
    }
}

} // verus!
