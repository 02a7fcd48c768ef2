use absh::numbers::Numbers;

#[test]
fn numbers_push() {
    let mut ds: Numbers<u64> = Numbers::default();
    ds.push(30);
    ds.push(50);
    ds.push(20);
    ds.push(30);
    assert_eq!(20, ds.min());
    assert_eq!(50, ds.max());
    ds.push(60);
    assert_eq!(60, ds.max());
    ds.push(10);
    assert_eq!(10, ds.min());
}

#[test]
fn numbers_distr_1() {
    let mut ds: Numbers<u64> = Numbers::default();
    ds.push(10);
    assert_eq!(&[1], &ds.distr(1, 0, 10).counts[..]);
    assert_eq!(&[1], &ds.distr(1, 10, 20).counts[..]);
}

#[test]
fn numbers_distr_2() {
    let mut ds: Numbers<u64> = Numbers::default();
    ds.push(10);
    ds.push(14);
    ds.push(16);
    ds.push(17);
    ds.push(20);
    assert_eq!(&[2, 3], &ds.distr(2, 10, 20).counts[..]);
}

#[test]
fn numbers_sum() {
    let mut ds: Numbers<u64> = Numbers::default();
    ds.push(10);
    ds.push(20);
    assert_eq!(30, ds.sum());
}

#[test]
fn numbers_mean() {
    let mut ds: Numbers<u64> = Numbers::default();

    assert_eq!(0, ds.mean());

    ds.push(10);
    ds.push(30);
    assert_eq!(20, ds.mean());
}

#[test]
fn numbers_std() {
    let mut ds: Numbers<u64> = Numbers::default();
    ds.push(11);
    ds.push(13);
    ds.push(15);

    assert_eq!(2, ds.std_dev())
}

#[test]
fn numbers_clear() {
    let mut ds: Numbers<u64> = Numbers::default();
    ds.push(7);
    assert_eq!(1, ds.len());
    ds.clear();
    assert_eq!(0, ds.len());
    assert_eq!(0, ds.raw().len());
}

#[test]
fn distr_insertion_order_independent() {
    let mut a: Numbers<u64> = Numbers::default();
    let mut b: Numbers<u64> = Numbers::default();
    for v in [10u64, 14, 16, 17, 20] {
        a.push(v);
    }
    for v in [20u64, 10, 17, 14, 16] {
        b.push(v);
    }
    assert_eq!(a.distr(2, 10, 20).counts, b.distr(2, 10, 20).counts);
    assert_eq!(a.distr(3, 10, 20).counts, b.distr(3, 10, 20).counts);
}

#[test]
fn distr_counts_sum_to_len() {
    let mut ds: Numbers<u64> = Numbers::default();
    for v in [10u64, 14, 16, 17, 20, 20, 10] {
        ds.push(v);
    }
    let d = ds.distr(4, 10, 20);
    let total: u64 = d.counts.iter().sum();
    assert_eq!(7, total);
    // a degenerate range leaves every bucket at zero
    let d0 = ds.distr(4, 15, 15);
    let total0: u64 = d0.counts.iter().sum();
    assert_eq!(0, total0);
}

#[test]
fn distr_max() {
    let mut ds: Numbers<u64> = Numbers::default();
    for v in [10u64, 14, 16, 17, 20] {
        ds.push(v);
    }
    let d = ds.distr(2, 10, 20);
    assert_eq!(3, d.max());
}
