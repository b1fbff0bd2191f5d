use llmperf_rs::timing::{elapsed, union_duration};

#[test]
fn elapsed_never_goes_back() {
    assert_eq!(elapsed(3, 10), 7);
    assert_eq!(elapsed(10, 3), 0);
}

#[test]
fn separate_intervals_add_up() {
    assert_eq!(union_duration(&vec![(0, 5), (10, 12), (20, 30)]), 17);
    assert_eq!(union_duration(&vec![(0, 5), (5, 9)]), 9);
}

#[test]
fn overlapping_intervals_merge() {
    assert_eq!(union_duration(&vec![(0, 10), (2, 5), (8, 14)]), 14);
    assert_eq!(union_duration(&vec![(0, 10), (0, 10)]), 10);
}

#[test]
fn order_does_not_matter() {
    let intervals = vec![(8, 14), (30, 31), (0, 10), (2, 5)];
    let mut turned = intervals.clone();
    turned.reverse();
    assert_eq!(union_duration(&intervals), 15);
    assert_eq!(union_duration(&turned), 15);
}

#[test]
fn no_interval_and_empty_intervals() {
    assert_eq!(union_duration(&vec![]), 0);
    assert_eq!(union_duration(&vec![(5, 5), (9, 3)]), 0);
    assert_eq!(union_duration(&vec![(0, u64::MAX), (5, 6)]), u64::MAX);
}

#[test]
fn union_between_the_longest_and_the_sum() {
    let intervals = vec![(0, 10), (2, 5), (8, 14)];
    let union = union_duration(&intervals);
    assert!(union >= 10 && union < 10 + 3 + 6);
}

#[test]
fn one_more_interval_is_not_less() {
    let intervals = vec![(0, 10), (20, 25)];
    for x in [(3, 4), (8, 22), (40, 41), (9, 2)] {
        for at in 0..3 {
            let mut more = intervals.clone();
            more.insert(at, x);
            assert!(union_duration(&more) >= union_duration(&intervals));
        }
    }
}
