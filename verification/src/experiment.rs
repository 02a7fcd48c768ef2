//! One configured variant: its scripts and every sample collected for it.

use vstd::prelude::*;

use crate::ansi;
use crate::ansi::AnsiColor;
use crate::bars::PlotHighlight;
use crate::experiment_name::ExperimentName;
use crate::measure_key::MeasureKey;
use crate::measure_map::MeasureMap;
use crate::numbers::Numbers;

verus! {

/// One variant being benchmarked: its name, its scripts, and one sample
/// collection per measure.
pub struct Experiment {
    pub name: ExperimentName,
    pub warmup: String,
    pub run: String,
    pub measures: MeasureMap<Numbers<u64>>,
}

impl Experiment {
    /// Every measure has its collection, and every collection keeps its
    /// sorted order in step with its raw order.
    pub open spec fn well_formed(self) -> bool {
        &&& self.measures.well_formed()
        &&& forall|k: MeasureKey| self.measures.contains_key(k)
        &&& forall|k: MeasureKey| (#[trigger] self.measures.spec_get(k))->Some_0.well_formed()
    }

    /// The samples recorded for one measure, in insertion order.
    pub open spec fn samples(self, key: MeasureKey) -> Seq<u64> {
        self.measures.spec_get(key)->Some_0.raw_units()
    }

    pub fn new(name: ExperimentName, warmup: String, run: String) -> (r: Experiment)
        ensures
            r.well_formed(),
            r.name == name,
            r.warmup@ == warmup@,
            r.run@ == run@,
            forall|k: MeasureKey| r.samples(k) == Seq::<u64>::empty(),
    {
        let mut measures: MeasureMap<Numbers<u64>> = MeasureMap::new();
        let keys = MeasureKey::all();
        measures.insert(keys[0], Numbers::new());
        measures.insert(keys[1], Numbers::new());
        let r = Experiment { name, warmup, run, measures };
        proof {
            assert forall|k: MeasureKey| r.measures.contains_key(k) && r.measures.spec_get(
                k)->Some_0.well_formed() && r.samples(k) == Seq::<u64>::empty() by {
                assert(k.index_spec() == 0 || k.index_spec() == 1);
                assert(r.samples(k) =~= Seq::<u64>::empty());
            }
        }
        r
    }

    /// Record one sample for one measure.
    pub fn push_measure(&mut self, key: MeasureKey, value: u64)
        requires
            old(self).well_formed(),
        ensures
            final(self).well_formed(),
            final(self).samples(key) == old(self).samples(key).push(value),
            forall|k: MeasureKey| k.index_spec() != key.index_spec()
                ==> final(self).samples(k) == old(self).samples(k),
            final(self).name == old(self).name,
            final(self).warmup == old(self).warmup,
            final(self).run == old(self).run,
    {
        proof {
            assert(old(self).measures.contains_key(key));
        }
        let mut numbers = match self.measures.take(key) {
            Some(n) => n,
            None => unreached(),
        };
        proof {
            assert(numbers.well_formed()) by {
                assert(old(self).measures.spec_get(key)->Some_0.well_formed());
            }
        }
        numbers.push(value);
        self.measures.insert(key, numbers);
        proof {
            assert forall|k: MeasureKey| self.measures.contains_key(k) && (
                #[trigger] self.measures.spec_get(k))->Some_0.well_formed() by {
                if k.index_spec() != key.index_spec() {
                    assert(self.measures.spec_get(k) == old(self).measures.spec_get(k));
                    assert(old(self).measures.contains_key(k));
                    assert(old(self).measures.spec_get(k)->Some_0.well_formed());
                } else {
                    assert(self.measures.spec_get(k) == self.measures.spec_get(key));
                }
            }
            assert(final(self).samples(key) =~= old(self).samples(key).push(value));
        }
    }

    /// Forget every sample of every measure.
    pub fn clear_measures(&mut self)
        requires
            old(self).well_formed(),
        ensures
            final(self).well_formed(),
            forall|k: MeasureKey| final(self).samples(k) == Seq::<u64>::empty(),
            final(self).name == old(self).name,
            final(self).warmup == old(self).warmup,
            final(self).run == old(self).run,
    {
        let mut measures: MeasureMap<Numbers<u64>> = MeasureMap::new();
        let keys = MeasureKey::all();
        measures.insert(keys[0], Numbers::new());
        measures.insert(keys[1], Numbers::new());
        self.measures = measures;
        proof {
            assert forall|k: MeasureKey| self.measures.contains_key(k) && (
                #[trigger] self.measures.spec_get(k))->Some_0.well_formed() && final(self).samples(
                k) == Seq::<u64>::empty() by {
                assert(k.index_spec() == 0 || k.index_spec() == 1);
                assert(final(self).samples(k) =~= Seq::<u64>::empty());
            }
        }
    }

    /// The collection of one measure.
    pub fn numbers(&self, key: MeasureKey) -> (r: &Numbers<u64>)
        requires
            self.well_formed(),
        ensures
            Some(*r) == self.measures.spec_get(key),
            r.well_formed(),
    {
        proof {
            assert(self.measures.contains_key(key));
        }
        match self.measures.get(key) {
            Some(n) => n,
            None => unreached(),
        }
    }

    /// How many successful runs this variant has: the number of wall-time
    /// samples.
    pub fn runs(&self) -> (r: usize)
        requires
            self.well_formed(),
        ensures
            r == self.samples(MeasureKey::WallTime).len(),
    {
        let n = self.numbers(MeasureKey::WallTime);
        proof {
            n.lemma_len_eq();
        }
        n.len()
    }

    /// The styles of the full-resolution distribution plot: this variant's
    /// color for bars, a white background for the zero runs.
    pub fn plot_highlights(&self) -> (r: PlotHighlight)
        ensures
            r.non_zero@ == self.name.color_spec(),
            r.zero@ == AnsiColor::White.bg_spec(),
            r.reset@ == ansi::RESET@,
    {
        PlotHighlight {
            non_zero: self.name.color().to_owned(),
            zero: AnsiColor::White.bg().to_owned(),
            reset: ansi::RESET.to_owned(),
        }
    }

    /// The styles of the half-resolution plot: no background for zero runs,
    /// since half-cell glyphs read badly on a filled background.
    pub fn plot_halves_highlights(&self) -> (r: PlotHighlight)
        ensures
            r.non_zero@ == self.name.color_spec(),
            r.zero@ == Seq::<char>::empty(),
            r.reset@ == ansi::RESET@,
    {
        PlotHighlight {
            non_zero: self.name.color().to_owned(),
            zero: String::new(),
            reset: ansi::RESET.to_owned(),
        }
    }
}

} // verus!
