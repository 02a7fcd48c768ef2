//! The configured options: one script per variant, optional warmup scripts,
//! and the knobs of the measurement loop. The variant placeholder in a
//! script is replaced by the variant's lowercase letter.

use vstd::prelude::*;

use crate::experiment::Experiment;
use crate::experiment_map::ExperimentMap;
use crate::experiment_name::ExperimentName;
use crate::text::chars_of;

verus! {

/// Replace every occurrence of `pat` in `s`, scanning left to right and
/// never overlapping.
pub open spec fn replace_spec(s: Seq<char>, pat: Seq<char>, rep: Seq<char>) -> Seq<char>
    decreases s.len(),
    when pat.len() >= 1
{
    if s.len() < pat.len() {
        s
    } else if s.take(pat.len() as int) == pat {
        rep + replace_spec(s.skip(pat.len() as int), pat, rep)
    } else {
        seq![s[0]] + replace_spec(s.drop_first(), pat, rep)
    }
}

/// The placeholder that scripts write where the variant letter belongs.
pub open spec fn placeholder() -> Seq<char> {
    seq!['@', 'A', 'B', 'S', 'H', '_', 'P']
}

/// Replace the variant placeholder with the given replacement text.
pub fn replace_placeholder(s: &str, rep: &str) -> (r: String)
    ensures
        r@ == replace_spec(s@, placeholder(), rep@),
{
    let v = chars_of(s);
    let n = v.len();
    let mut out = String::new();
    let mut i: usize = 0;
    proof {
        assert(s@.skip(0) =~= s@);
        assert(out@ + replace_spec(s@, placeholder(), rep@) =~= replace_spec(
            s@, placeholder(), rep@));
    }
    while i < n
        invariant
            i <= n,
            n == v@.len(),
            v@ == s@,
            replace_spec(s@, placeholder(), rep@) == out@ + replace_spec(
                s@.skip(i as int), placeholder(), rep@),
        decreases n - i,
    {
        let ghost tail = s@.skip(i as int);
        let hit = n - i >= 7 && v[i] == '@' && v[i + 1] == 'A' && v[i + 2] == 'B' && v[i + 3]
            == 'S' && v[i + 4] == 'H' && v[i + 5] == '_' && v[i + 6] == 'P';
        if hit {
            proof {
                assert(tail.len() >= 7);
                assert forall|k: int| 0 <= k < 7 implies tail.take(7)[k] == placeholder()[k] by {
                    assert(tail[k] == v@[i + k]);
                }
                assert(tail.take(7) =~= placeholder());
                assert(replace_spec(tail, placeholder(), rep@) == rep@ + replace_spec(
                    tail.skip(7), placeholder(), rep@));
                assert(tail.skip(7) =~= s@.skip(i + 7));
                assert(out@ + (rep@ + replace_spec(s@.skip(i + 7), placeholder(), rep@)) =~= (out@
                    + rep@) + replace_spec(s@.skip(i + 7), placeholder(), rep@));
            }
            out.push_str(rep);
            i += 7;
        } else {
            proof {
                assert(tail[0] == v@[i as int]);
                if tail.len() >= 7 && tail.take(7) == placeholder() {
                    assert(v@[i as int] == tail.take(7)[0]);
                    assert(v@[i + 1] == tail.take(7)[1]);
                    assert(v@[i + 2] == tail.take(7)[2]);
                    assert(v@[i + 3] == tail.take(7)[3]);
                    assert(v@[i + 4] == tail.take(7)[4]);
                    assert(v@[i + 5] == tail.take(7)[5]);
                    assert(v@[i + 6] == tail.take(7)[6]);
                    assert(false);
                }
                assert(replace_spec(tail, placeholder(), rep@) == seq![tail[0]] + replace_spec(
                    tail.drop_first(), placeholder(), rep@));
                assert(tail.drop_first() =~= s@.skip(i + 1));
                assert(out@ + (seq![tail[0]] + replace_spec(s@.skip(i + 1), placeholder(), rep@))
                    =~= out@.push(tail[0]) + replace_spec(s@.skip(i + 1), placeholder(), rep@));
            }
            out.push(v[i]);
            i += 1;
        }
    }
    proof {
        assert(s@.skip(n as int) =~= Seq::<char>::empty());
        assert(out@ + replace_spec(Seq::<char>::empty(), placeholder(), rep@) =~= out@);
    }
    out
}

/// The command-line options: one script per variant, warmup scripts, and the
/// measurement-loop knobs.
pub struct AbshOpts {
    /// A variant shell script.
    pub a: String,
    /// B variant shell script.
    pub b: Option<String>,
    /// C variant shell script.
    pub c: Option<String>,
    /// D variant shell script.
    pub d: Option<String>,
    /// Warmup script to run before each test.
    pub warmup: Option<String>,
    /// A variant warmup shell script, used unless the shared warmup is given.
    pub aw: Option<String>,
    /// B variant warmup shell script, used unless the shared warmup is given.
    pub bw: Option<String>,
    /// C variant warmup shell script, used unless the shared warmup is given.
    pub cw: Option<String>,
    /// D variant warmup shell script, used unless the shared warmup is given.
    pub dw: Option<String>,
    /// Randomise test execution order.
    pub random_order: bool,
    /// Ignore the results of the first iteration.
    pub ignore_first: bool,
    /// Stop after this many successful iterations; run forever when absent.
    pub iterations: Option<u32>,
    /// Also measure max resident set size.
    pub mem: bool,
    /// A run is a failure when it takes longer than this many seconds.
    pub max_time: Option<u32>,
}

impl AbshOpts {
    /// The script of a variant with the placeholder substituted.
    pub fn make_script(script: &str, experiment: ExperimentName) -> (r: String)
        ensures
            r@ == replace_spec(script@, placeholder(), experiment.lower_spec()),
    {
        replace_placeholder(script, experiment.lower())
    }

    /// The run script of a variant, or nothing where the variant is not
    /// configured.
    pub fn run_for_experiment(&self, experiment: ExperimentName) -> (r: Option<String>)
        ensures
            ({
                let src = self.run_source(experiment);
                match r {
                    Some(script) => src is Some && script@ == replace_spec(
                        src->0@, placeholder(), experiment.lower_spec()),
                    None => src is None,
                }
            }),
    {
        match experiment {
            ExperimentName::A => Some(Self::make_script(self.a.as_str(), ExperimentName::A)),
            ExperimentName::B => match &self.b {
                Some(s) => Some(Self::make_script(s.as_str(), ExperimentName::B)),
                None => None,
            },
            ExperimentName::C => match &self.c {
                Some(s) => Some(Self::make_script(s.as_str(), ExperimentName::C)),
                None => None,
            },
            ExperimentName::D => match &self.d {
                Some(s) => Some(Self::make_script(s.as_str(), ExperimentName::D)),
                None => None,
            },
            ExperimentName::E => None,
        }
    }

    /// Where a variant's run script comes from.
    pub open spec fn run_source(self, experiment: ExperimentName) -> Option<String> {
        match experiment {
            ExperimentName::A => Some(self.a),
            ExperimentName::B => self.b,
            ExperimentName::C => self.c,
            ExperimentName::D => self.d,
            ExperimentName::E => None,
        }
    }

    /// Where a variant's warmup script comes from: its own warmup if given,
    /// else the shared warmup, else nothing.
    pub open spec fn warmup_source(self, experiment: ExperimentName) -> Option<String> {
        let letter = match experiment {
            ExperimentName::A => self.aw,
            ExperimentName::B => self.bw,
            ExperimentName::C => self.cw,
            ExperimentName::D => self.dw,
            ExperimentName::E => None,
        };
        if letter is Some {
            letter
        } else {
            self.warmup
        }
    }

    /// The warmup script of a variant with the placeholder substituted; an
    /// unconfigured warmup is the empty script.
    pub fn warmup_for_experiment(&self, experiment: ExperimentName) -> (r: String)
        ensures
            ({
                let src = self.warmup_source(experiment);
                match src {
                    Some(s) => r@ == replace_spec(s@, placeholder(), experiment.lower_spec()),
                    None => r@ == replace_spec(
                        Seq::<char>::empty(), placeholder(), experiment.lower_spec()),
                }
            }),
    {
        let letter_warmup: Option<&String> = match experiment {
            ExperimentName::A => self.aw.as_ref(),
            ExperimentName::B => self.bw.as_ref(),
            ExperimentName::C => self.cw.as_ref(),
            ExperimentName::D => self.dw.as_ref(),
            ExperimentName::E => None,
        };
        let src: Option<&String> = match letter_warmup {
            Some(s) => Some(s),
            None => self.warmup.as_ref(),
        };
        match src {
            Some(s) => {
                proof {
                    assert(self.warmup_source(experiment) is Some);
                    assert(self.warmup_source(experiment)->0 == *s);
                }
                Self::make_script(s.as_str(), experiment)
            },
            None => {
                proof {
                    assert(self.warmup_source(experiment) is None);
                }
                let r = replace_placeholder("", experiment.lower());
                proof {
                    reveal_strlit("");
                    assert(""@ =~= Seq::<char>::empty());
                }
                r
            },
        }
    }

    /// The substituted run script a configured variant carries.
    pub open spec fn run_script_of(self, n: ExperimentName) -> Seq<char> {
        replace_spec(self.run_source(n)->0@, placeholder(), n.lower_spec())
    }

    /// The substituted warmup script a variant carries; empty when no warmup
    /// is configured.
    pub open spec fn warmup_script_of(self, n: ExperimentName) -> Seq<char> {
        match self.warmup_source(n) {
            Some(s) => replace_spec(s@, placeholder(), n.lower_spec()),
            None => Seq::empty(),
        }
    }

    /// The configured variant, or nothing where it has no run script.
    pub fn experiment(&self, experiment: ExperimentName) -> (r: Option<Experiment>)
        ensures
            r is Some <==> self.run_source(experiment) is Some,
            r is Some ==> {
                &&& r->0.well_formed()
                &&& r->0.name == experiment
                &&& r->0.run@ == self.run_script_of(experiment)
                &&& r->0.warmup@ == self.warmup_script_of(experiment)
                &&& forall|k: crate::measure_key::MeasureKey| r->0.samples(k)
                    == Seq::<u64>::empty()
            },
    {
        match self.run_for_experiment(experiment) {
            Some(run) => {
                let warmup = self.warmup_for_experiment(experiment);
                proof {
                    if self.warmup_source(experiment) is None {
                        assert(warmup@ =~= Seq::<char>::empty());
                    }
                }
                Some(Experiment::new(experiment, warmup, run))
            },
            None => None,
        }
    }

    /// Every configured variant, keyed by its name and carrying its
    /// substituted scripts, with no samples yet.
    pub fn experiments(&self) -> (r: ExperimentMap<Experiment>)
        ensures
            r.well_formed(),
            forall|n: ExperimentName| r.contains_key(n) <==> self.run_source(n) is Some,
            forall|n: ExperimentName| #[trigger] r.contains_key(n) ==> {
                let e = r.spec_get(n)->Some_0;
                &&& e.well_formed()
                &&& e.name == n
                &&& e.run@ == self.run_script_of(n)
                &&& e.warmup@ == self.warmup_script_of(n)
                &&& forall|k: crate::measure_key::MeasureKey| e.samples(k)
                    == Seq::<u64>::empty()
            },
    {
        let mut experiments: ExperimentMap<Experiment> = ExperimentMap::new();
        let all = ExperimentName::all();
        let mut i: usize = 0;
        while i < 5
            invariant
                i <= 5,
                all@ == seq![
                    ExperimentName::A,
                    ExperimentName::B,
                    ExperimentName::C,
                    ExperimentName::D,
                    ExperimentName::E,
                ],
                experiments.well_formed(),
                forall|n: ExperimentName| n.index_spec() < i ==> (experiments.contains_key(n)
                    <==> self.run_source(n) is Some),
                forall|n: ExperimentName| n.index_spec() >= i ==> !experiments.contains_key(n),
                forall|n: ExperimentName| #[trigger] experiments.contains_key(n) ==> {
                    let e = experiments.spec_get(n)->Some_0;
                    &&& e.well_formed()
                    &&& e.name == n
                    &&& e.run@ == self.run_script_of(n)
                    &&& e.warmup@ == self.warmup_script_of(n)
                    &&& forall|k: crate::measure_key::MeasureKey| e.samples(k)
                        == Seq::<u64>::empty()
                },
            decreases 5 - i,
        {
            let name = all[i];
            let ghost before = experiments;
            proof {
                assert(all@[i as int].index_spec() == i);
            }
            match self.experiment(name) {
                Some(e) => {
                    experiments.insert(name, e);
                },
                None => {},
            }
            proof {
                assert forall|n: ExperimentName| n.index_spec() < i + 1 implies (
                    experiments.contains_key(n) <==> self.run_source(n) is Some) by {
                    if n.index_spec() == i as int {
                        lemma_name_index_injective(n, name);
                        assert(!before.contains_key(name));
                    } else {
                        assert(before.contains_key(n) <==> self.run_source(n) is Some);
                        assert(experiments.spec_get(n) == before.spec_get(n));
                    }
                }
                assert forall|n: ExperimentName| n.index_spec() >= i + 1 implies
                    !experiments.contains_key(n) by {
                    assert(!before.contains_key(n));
                    assert(experiments.spec_get(n) == before.spec_get(n));
                }
                assert forall|n: ExperimentName| #[trigger] experiments.contains_key(n) implies {
                    let e = experiments.spec_get(n)->Some_0;
                    &&& e.well_formed()
                    &&& e.name == n
                    &&& e.run@ == self.run_script_of(n)
                    &&& e.warmup@ == self.warmup_script_of(n)
                    &&& forall|k: crate::measure_key::MeasureKey| e.samples(k)
                        == Seq::<u64>::empty()
                } by {
                    if n.index_spec() != i as int {
                        assert(experiments.spec_get(n) == before.spec_get(n));
                        assert(before.contains_key(n));
                    } else {
                        lemma_name_index_injective(n, name);
                        assert(!before.contains_key(name));
                    }
                }
            }
            i += 1;
        }
        experiments
    }
}

/// Two variant names with the same position are the same variant.
proof fn lemma_name_index_injective(a: ExperimentName, b: ExperimentName)
    requires
        a.index_spec() == b.index_spec(),
    ensures
        a == b,
{
}

} // verus!
