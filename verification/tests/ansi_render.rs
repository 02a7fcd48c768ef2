use absh::ansi::strip_csi;
use absh::ansi::AnsiColor;
use absh::experiment::Experiment;
use absh::experiment_map::ExperimentMap;
use absh::experiment_name::ExperimentName;
use absh::measure_key::MeasureKey;
use absh::render::render_stats;

#[test]
fn test() {
    assert_eq!("A\nB\n", strip_csi("\x1B[32mA\x1B[0m\n\x1B[31mB\x1B[0m\n"));
}

#[test]
fn strip_csi_keeps_incomplete_sequences() {
    assert_eq!("ab", strip_csi("a\x1B[32mb"));
    assert_eq!("a\x1B[32", strip_csi("a\x1B[32"));
    assert_eq!("a\x1B[m", strip_csi("a\x1B[m"));
}

#[test]
fn ansi_codes() {
    assert_eq!("\x1B[31m", AnsiColor::Red.fg());
    assert_eq!("\x1B[42m", AnsiColor::Green.bg());
    assert_eq!("\x1B[0m", absh::ansi::RESET);
}

fn two_variant_map() -> ExperimentMap<Experiment> {
    let mut map = ExperimentMap::new();
    let mut a = Experiment::new(
        ExperimentName::A,
        String::new(),
        "sleep 0.05".to_owned(),
    );
    let mut b = Experiment::new(
        ExperimentName::B,
        String::new(),
        "sleep 0.15".to_owned(),
    );
    for v in [50_000_000u64, 52_000_000, 48_000_000, 51_000_000, 49_000_000] {
        a.push_measure(MeasureKey::WallTime, v);
        a.push_measure(MeasureKey::MaxRss, 1_000_000);
    }
    for v in [150_000_000u64, 148_000_000, 152_000_000, 151_000_000, 149_000_000] {
        b.push_measure(MeasureKey::WallTime, v);
        b.push_measure(MeasureKey::MaxRss, 2_000_000);
    }
    map.insert(ExperimentName::A, a);
    map.insert(ExperimentName::B, b);
    map
}

#[test]
fn report_strip_round_trip() {
    let map = two_variant_map();
    let report = render_stats(&map, MeasureKey::WallTime, true).unwrap();
    let colored = report.to_text(true);
    let plain = report.to_text(false);
    assert_eq!(strip_csi(&colored), plain);
    assert!(!plain.contains('\x1b'));
    assert!(colored.contains('\x1b'));
}

#[test]
fn report_shows_stats_and_interval() {
    let map = two_variant_map();
    let report = render_stats(&map, MeasureKey::WallTime, false).unwrap();
    let plain = report.to_text(false);
    assert!(plain.starts_with("Time (in seconds):\n"));
    assert!(plain.contains("n="));
    assert!(plain.contains("mean="));
    assert!(plain.contains("B/A: "));
    assert!(plain.contains("(95% conf)"));
}

#[test]
fn report_interval_excludes_one_for_separated_means() {
    let map = two_variant_map();
    let a = map.get(ExperimentName::A).unwrap();
    let b = map.get(ExperimentName::B).unwrap();
    let stats_a = a.numbers(MeasureKey::WallTime).stats();
    let stats_b = b.numbers(MeasureKey::WallTime).stats();
    let cmp = absh::render::compare(&stats_a, &stats_b);
    // the true means differ threefold: the interval around their ratio
    // must not contain one
    assert!(cmp.lo_millis.unwrap() > 1000);
    let ratio = cmp.ratio_millis.unwrap();
    assert!(2500 < ratio && ratio < 3500);
}

#[test]
fn report_not_ready_with_one_sample() {
    let mut map = ExperimentMap::new();
    let mut a = Experiment::new(ExperimentName::A, String::new(), "true".to_owned());
    a.push_measure(MeasureKey::WallTime, 1000);
    a.push_measure(MeasureKey::MaxRss, 1000);
    map.insert(ExperimentName::A, a);
    assert!(render_stats(&map, MeasureKey::WallTime, false).is_none());
}

#[test]
fn ratio_text() {
    assert_eq!("1.234", absh::render::ratio_to_text(Some(1234)));
    assert_eq!("-0.500", absh::render::ratio_to_text(Some(-500)));
    assert_eq!("0.000", absh::render::ratio_to_text(Some(0)));
    assert_eq!("?", absh::render::ratio_to_text(None));
}

#[test]
fn raw_line() {
    assert_eq!("10 20 30\n", absh::render::raw_values_line(&[10, 20, 30]));
    assert_eq!("\n", absh::render::raw_values_line(&[]));
}
