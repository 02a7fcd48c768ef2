use absh::sorted::FilterCond;
use absh::sorted::NumbersSorted;

#[test]
fn test_filter() {
    let nums = vec![1, 1, 2, 2, 3, 3, 4, 4];
    let nums = NumbersSorted(&nums);
    assert_eq!(NumbersSorted(&[1, 1]), nums.filter(FilterCond::Lt, 2));
    assert_eq!(NumbersSorted(&[1, 1, 2, 2]), nums.filter(FilterCond::Le, 2));
    assert_eq!(
        NumbersSorted(&[2, 2, 3, 3, 4, 4]),
        nums.filter(FilterCond::Ge, 2)
    );
    assert_eq!(NumbersSorted(&[3, 3, 4, 4]), nums.filter(FilterCond::Gt, 2));
}

#[test]
fn sorted_order_statistics() {
    let nums = vec![10, 14, 16, 17, 20];
    let nums = NumbersSorted(&nums);
    assert_eq!(5, nums.len());
    assert!(!nums.is_empty());
    assert_eq!(Some(10), nums.min());
    assert_eq!(Some(20), nums.max());
    assert_eq!(Some(16), nums.med());
    assert_eq!(77, nums.sum());
    assert_eq!(Some(15), nums.mean());
}

#[test]
fn sorted_med_even() {
    let nums = vec![10, 15, 16, 20];
    let nums = NumbersSorted(&nums);
    // the two central elements are averaged on their sum
    assert_eq!(Some(15), nums.med());
}

#[test]
fn sorted_std() {
    let nums = vec![11, 13, 15];
    let nums = NumbersSorted(&nums);
    assert_eq!(Some(2), nums.std_dev());
    let short = vec![7];
    let short = NumbersSorted(&short);
    assert_eq!(None, short.std_dev());
}

#[test]
fn sorted_empty() {
    let nums: Vec<u64> = vec![];
    let nums = NumbersSorted(&nums);
    assert!(nums.is_empty());
    assert_eq!(None, nums.min());
    assert_eq!(None, nums.max());
    assert_eq!(None, nums.med());
    assert_eq!(None, nums.mean());
}

#[test]
fn sorted_filter_3_sigma() {
    // the truncated standard deviation of these values is zero, so only
    // values equal to the mean survive the trim
    let nums = vec![10, 10, 10, 10, 11];
    let nums = NumbersSorted(&nums);
    let trimmed = nums.filter_3_sigma();
    assert_eq!(4, trimmed.len());
    // a collection too small to trim is returned whole
    let short = vec![7];
    let short = NumbersSorted(&short);
    assert_eq!(1, short.filter_3_sigma().len());
}
