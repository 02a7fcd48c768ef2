use absh::experiment_name::ExperimentName;
use absh::measure_key::MeasureKey;
use absh::opts::AbshOpts;
use absh::orchestrator::after_round;
use absh::orchestrator::judge_run;
use absh::orchestrator::RoundAction;
use absh::orchestrator::RunDecision;

fn opts(a: &str, b: Option<&str>, aw: Option<&str>, warmup: Option<&str>) -> AbshOpts {
    AbshOpts {
        a: a.to_owned(),
        b: b.map(|s| s.to_owned()),
        c: None,
        d: None,
        warmup: warmup.map(|s| s.to_owned()),
        aw: aw.map(|s| s.to_owned()),
        bw: None,
        cw: None,
        dw: None,
        random_order: false,
        ignore_first: false,
        iterations: None,
        mem: false,
        max_time: None,
    }
}

#[test]
fn test_absh_p_substituted() {
    let experiment_map = opts(
        "echo 1 @ABSH_P",
        Some("echo 2 @ABSH_P"),
        Some("echo 3 @ABSH_P"),
        Some("echo 4 @ABSH_P"),
    )
    .experiments();
    assert_eq!(
        "echo 1 a",
        experiment_map.get(ExperimentName::A).unwrap().run
    );
    assert_eq!(
        "echo 2 b",
        experiment_map.get(ExperimentName::B).unwrap().run
    );
    assert_eq!(
        "echo 3 a",
        experiment_map.get(ExperimentName::A).unwrap().warmup
    );
    assert_eq!(
        "echo 4 b",
        experiment_map.get(ExperimentName::B).unwrap().warmup
    );
}

#[test]
fn unconfigured_variants_are_absent() {
    let map = opts("true", None, None, None).experiments();
    assert!(map.get(ExperimentName::A).is_some());
    assert!(map.get(ExperimentName::B).is_none());
    assert!(map.get(ExperimentName::E).is_none());
    assert_eq!(1, map.count());
}

#[test]
fn experiment_counts_runs() {
    let mut map = opts("true", None, None, None).experiments();
    let mut exp = map.take(ExperimentName::A).unwrap();
    assert_eq!(0, exp.runs());
    exp.push_measure(MeasureKey::WallTime, 10);
    exp.push_measure(MeasureKey::WallTime, 20);
    assert_eq!(2, exp.runs());
    exp.clear_measures();
    assert_eq!(0, exp.runs());
}

#[test]
fn judge_run_cases() {
    assert_eq!(
        RunDecision::WarmupFailed,
        judge_run(false, true, 0, None, false, 0)
    );
    assert_eq!(
        RunDecision::ScriptFailed,
        judge_run(true, false, 0, None, false, 0)
    );
    assert_eq!(
        RunDecision::TooSlow,
        judge_run(true, true, 2_500_000_000, Some(2), false, 0)
    );
    assert_eq!(
        RunDecision::Sample,
        judge_run(true, true, 1_500_000_000, Some(2), false, 0)
    );
    assert_eq!(
        RunDecision::MemUnavailable,
        judge_run(true, true, 100, None, true, 0)
    );
    assert_eq!(
        RunDecision::Sample,
        judge_run(true, true, 100, None, true, 4096)
    );
}

#[test]
fn after_round_cases() {
    assert_eq!(RoundAction::Stop, after_round(3, Some(3)));
    assert_eq!(RoundAction::Continue, after_round(1, Some(3)));
    assert_eq!(RoundAction::Continue, after_round(0, None));
    assert_eq!(RoundAction::Report, after_round(2, None));
    assert_eq!(RoundAction::Report, after_round(5, Some(9)));
}

#[test]
fn variant_names() {
    assert_eq!("A", ExperimentName::A.name());
    assert_eq!("b", ExperimentName::B.lower());
    assert_eq!(0, ExperimentName::A.index());
    assert_eq!(ExperimentName::C, ExperimentName::from_index(2));
    let colored = ExperimentName::A.name_colored();
    assert_eq!("\x1B[31mA\x1B[0m", colored);
}
