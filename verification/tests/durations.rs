use absh::duration::Duration;
use absh::durations::Durations;

#[test]
fn durations_push() {
    let mut ds = Durations::default();
    ds.push(Duration::from_millis(30));
    ds.push(Duration::from_millis(50));
    ds.push(Duration::from_millis(20));
    ds.push(Duration::from_millis(30));
    assert_eq!(Duration::from_millis(20), ds.min());
    assert_eq!(Duration::from_millis(50), ds.max());
    ds.push(Duration::from_millis(60));
    assert_eq!(Duration::from_millis(60), ds.max());
    ds.push(Duration::from_millis(10));
    assert_eq!(Duration::from_millis(10), ds.min());
}

#[test]
fn durations_distr_1() {
    let mut ds = Durations::default();
    ds.push(Duration::from_millis(10));
    assert_eq!(
        &[1],
        &ds.distr(1, Duration::from_millis(0), Duration::from_millis(10))
            .counts[..]
    );
    assert_eq!(
        &[1],
        &ds.distr(1, Duration::from_millis(10), Duration::from_millis(20))
            .counts[..]
    );
}

#[test]
fn durations_distr_2() {
    let mut ds = Durations::default();
    ds.push(Duration::from_millis(10));
    ds.push(Duration::from_millis(14));
    ds.push(Duration::from_millis(16));
    ds.push(Duration::from_millis(17));
    ds.push(Duration::from_millis(20));
    assert_eq!(
        &[2, 3],
        &ds.distr(2, Duration::from_millis(10), Duration::from_millis(20))
            .counts[..]
    );
}

#[test]
fn durations_sum() {
    let mut ds = Durations::default();
    ds.push(Duration::from_millis(10));
    ds.push(Duration::from_millis(20));
    assert_eq!(Duration::from_millis(30), ds.sum());
}

#[test]
fn durations_mean() {
    let mut ds = Durations::default();

    assert_eq!(Duration::default(), ds.mean());

    ds.push(Duration::from_millis(10));
    ds.push(Duration::from_millis(30));
    assert_eq!(Duration::from_millis(20), ds.mean());
}

#[test]
fn durations_std() {
    let mut ds = Durations::default();
    ds.push(Duration::from_millis(11));
    ds.push(Duration::from_millis(13));
    ds.push(Duration::from_millis(15));

    assert_eq!(Duration::from_millis(2), ds.std_dev())
}

#[test]
fn duration_units() {
    let d = Duration::from_millis(3);
    assert_eq!(3_000_000, d.nanos());
    assert_eq!(3, d.millis());
    let e = Duration::from_nanos(1_500_000);
    assert_eq!(1, e.millis());
    assert_eq!(Duration::from_nanos(4_500_000), d.add(e));
    assert_eq!(Duration::from_nanos(1_500_000), d.sub(e));
    assert_eq!(Duration::from_nanos(1_000_000), d.div_usize(3));
}
