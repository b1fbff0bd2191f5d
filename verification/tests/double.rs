use llmperf_rs::double::{divide, find_end, round, scale, Seconds, LARGEST, SECOND};
use llmperf_rs::timing::is_busy_over_a_thousandth;
use std::time::Duration;

fn value(s: Seconds) -> f64 {
    s.units as f64 / SECOND as f64
}

/// Numbers without a pattern, each made of the one before it.
fn numbers(count: usize, mut x: u64) -> Vec<u64> {
    let mut found = Vec::new();
    for _ in 0..count {
        x ^= x << 13;
        x ^= x >> 7;
        x ^= x << 17;
        found.push(x);
    }
    found
}

fn spans() -> Vec<u64> {
    let mut spans = vec![0, 1, 2, 999_999, 1_000_000, 1_000_001, 10_000_000, 999_999_999, 1_000_000_000, u64::MAX];
    for x in numbers(2000, 88172645463325252) {
        spans.push(x);
        spans.push(x >> 20);
        spans.push(x >> 32);
        spans.push(x >> 44);
    }
    spans
}

#[test]
fn seconds_are_those_of_std() {
    for n in spans() {
        assert_eq!(value(Seconds::of_nanos(n)), Duration::from_nanos(n).as_secs_f64(), "{}", n);
    }
}

#[test]
fn differences_are_those_of_floats() {
    let spans = spans();
    for pair in spans.windows(2) {
        let (a, b) = (pair[0].min(pair[1]), pair[0].max(pair[1]));
        let expected = Duration::from_nanos(b).as_secs_f64() - Duration::from_nanos(a).as_secs_f64();
        assert_eq!(value(Seconds::between(a, b)), expected, "{} {}", a, b);
        assert_eq!(Seconds::between(a, b).over_a_thousandth(), expected > 0.001);
        assert_eq!(Seconds::between(b, a).units, 0);
        let c = a.saturating_add(1_000_000);
        let step = Duration::from_nanos(c).as_secs_f64() - Duration::from_nanos(a).as_secs_f64();
        assert_eq!(Seconds::between(a, c).over_a_thousandth(), step > 0.001, "{}", a);
    }
}

#[test]
fn sums_are_those_of_floats() {
    for pair in spans().windows(2) {
        let expected = Duration::from_nanos(pair[0]).as_secs_f64() + Duration::from_nanos(pair[1]).as_secs_f64();
        assert_eq!(value(Seconds::of_nanos(pair[0]).plus(Seconds::of_nanos(pair[1]))), expected);
    }
}

#[test]
fn thousandth_and_nanoseconds_agree() {
    for n in [0, 999_999, 1_000_000, 1_000_001, 2_000_000_000, u64::MAX] {
        assert_eq!(Seconds::of_nanos(n).over_a_thousandth(), n > 1_000_000);
    }
}

#[test]
fn scaling_is_that_of_floats() {
    assert_eq!(scale(1000, 201, 200), 1004);
    assert_eq!(scale(1000, 200, 200), 1000);
    assert_eq!(scale(7, 0, 3), 0);
    for x in numbers(20000, 1234567) {
        let (total, counted, estimated) = (x >> 40, (x & 0xfff) as u32, ((x >> 12) & 0xfff) as u32 + 1);
        let ratio = counted as f64 / estimated as f64;
        let expected = (total as f64 * ratio) as u128;
        assert_eq!(scale(total, counted, estimated), expected, "{} {} {}", total, counted, estimated);
    }
}

#[test]
fn rounding_is_to_the_nearest() {
    let limit = 1u128 << 53;
    assert_eq!(round(limit - 1), limit - 1);
    assert_eq!(round(limit + 1), limit);
    assert_eq!(round(limit + 3), limit + 4);
    assert_eq!(round(2 * limit - 1), 2 * limit);
    assert_eq!(round(LARGEST), LARGEST);
    assert_eq!(divide(7, 2), 4);
    assert_eq!(divide(5, 2), 2);
}

#[test]
fn stretches_add_up_as_floats() {
    let ms = 1_000_000u64;
    for (a, b, c) in [(300_000, 700_000, 0), (100_000, 200_000, 700_000), (333_333, 333_333, 333_334), (500_000, 500_000, 1)] {
        let intervals = vec![(0, a), (10 * ms, 10 * ms + b), (20 * ms, 20 * ms + c)];
        let mut total = 0.0;
        for &(s, e) in &intervals {
            total += Duration::from_nanos(e - s).as_secs_f64();
        }
        assert_eq!(is_busy_over_a_thousandth(&intervals), total > 0.001, "{} {} {}", a, b, c);
    }
    assert!(is_busy_over_a_thousandth(&vec![(5, 600_000), (600_000, 1_000_006)]));
    assert!(!is_busy_over_a_thousandth(&vec![(5, 600_000), (500_000, 1_000_005)]));
    assert!(is_busy_over_a_thousandth(&vec![(9, 9), (0, u64::MAX)]));
    assert!(!is_busy_over_a_thousandth(&vec![]));
}

#[test]
fn many_stretches_add_up_as_floats() {
    for x in numbers(300, 99) {
        let mut lengths: Vec<u64> = numbers(6, x).iter().map(|l| l % 180_000).collect();
        let sum: u64 = lengths.iter().sum();
        lengths.push(1_000_000u64.saturating_sub(sum));
        let mut intervals: Vec<(u64, u64)> = Vec::new();
        let mut total = 0.0;
        for (i, l) in lengths.iter().enumerate() {
            intervals.push((i as u64 * 2_000_000, i as u64 * 2_000_000 + l));
            total += Duration::from_nanos(*l).as_secs_f64();
        }
        assert_eq!(is_busy_over_a_thousandth(&intervals), total > 0.001);
    }
}

#[test]
fn nanoseconds_come_back_as_in_std() {
    for n in spans() {
        let back = Duration::from_secs_f64(Duration::from_nanos(n).as_secs_f64()).as_nanos();
        assert_eq!(Seconds::of_nanos(n).to_nanos(), back, "{}", n);
        assert_eq!(find_end(7, n) as u128, (back + 7).min(u64::MAX as u128));
        if n < 1 << 50 {
            assert_eq!(back, n as u128);
        }
    }
}

#[test]
fn nanoseconds_are_told_apart() {
    for n in numbers(2000, 4711) {
        let n = n % 999_999_999;
        assert!(Seconds::of_nanos(n).units < Seconds::of_nanos(n + 1).units);
    }
}
