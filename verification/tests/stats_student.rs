use absh::measure_key::MeasureKey;
use absh::numbers::Numbers;
use absh::student::t_table;

#[test]
fn se() {
    let mut numbers: Numbers<u64> = Numbers::default();
    numbers.push(10u64);
    numbers.push(20u64);
    numbers.push(30u64);
    numbers.push(30u64);
    numbers.push(30u64);
    let stats = numbers.stats();
    assert_eq!(4, stats.se());
}

#[test]
fn stats_snapshot() {
    let mut numbers: Numbers<u64> = Numbers::default();
    for v in [11u64, 13, 15] {
        numbers.push(v);
    }
    let stats = numbers.stats();
    assert_eq!(3, stats.count);
    assert_eq!(13, stats.mean);
    assert_eq!(13, stats.med);
    assert_eq!(11, stats.min);
    assert_eq!(15, stats.max);
    assert_eq!(2, stats.std_dev);
}

#[test]
fn t_table_values() {
    assert_eq!(12706, t_table(1));
    assert_eq!(4303, t_table(2));
    assert_eq!(2776, t_table(4));
    assert_eq!(2042, t_table(30));
    assert_eq!(1960, t_table(31));
    assert_eq!(1960, t_table(1000));
}

#[test]
fn measure_formatting() {
    assert_eq!("1.234", MeasureKey::WallTime.format_number(1_234_000_000));
    assert_eq!("0.050", MeasureKey::WallTime.format_number(50_000_000));
    assert_eq!("3", MeasureKey::MaxRss.format_number(3 * 1024 * 1024));
}

#[test]
fn mem_usage_units() {
    let m = absh::mem_usage::MemUsage::from_bytes(5 * 1024 * 1024 + 7);
    assert_eq!(5, m.mib());
    assert_eq!(5 * 1024 * 1024 + 7, m.bytes());
}

#[test]
fn compare_rounds_to_nearest() {
    let a = absh::stats::Stats { count: 2, mean: 3, med: 3, min: 3, max: 3, std_dev: 0 };
    let b = absh::stats::Stats { count: 2, mean: 5, med: 5, min: 5, max: 5, std_dev: 0 };
    let cmp = absh::render::compare(&a, &b);
    // 5/3 is 1.666..; the printed thousandths round to nearest
    assert_eq!(Some(1667), cmp.ratio_millis);
    // with zero spread the corners coincide with the ratio
    assert_eq!(Some(1667), cmp.lo_millis);
    assert_eq!(Some(1667), cmp.hi_millis);
}
