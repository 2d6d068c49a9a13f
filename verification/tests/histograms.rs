//! Keys and histograms.

use jeprofl::common::{
    Histogram, HistogramKey, MetricMode, CONFIG_SLOT, COUNTER_SLOT, HISTOGRAM_BUCKETS,
};
use jeprofl::merge::{hist_merge, hist_saturating_sub};
use jeprofl::model::{MetricKind, MetricSpec, Retention};
use std::time::Duration;

fn histogram(values: &[u64]) -> Histogram {
    let mut histogram = Histogram::new();
    for value in values {
        histogram.increment(*value);
    }
    histogram
}

fn same(a: &Histogram, b: &Histogram) -> bool {
    a.data == b.data && a.total == b.total
}

#[test]
fn keys_hold_process_and_stack() {
    let key = HistogramKey::new(0x1234_5678, 0x9abc_def0);
    assert_eq!(key.to_word(), 0x1234_5678_9abc_def0);
    let parts = key.into_parts();
    assert_eq!((parts.pid, parts.stack_id), (0x1234_5678, 0x9abc_def0));
    let reduced = parts.as_reduced();
    assert_eq!((reduced.pid, reduced.stack_id), (0x1234_5678, 0x9abc_def0));
    assert_eq!(HistogramKey::from_word(key.to_word()), key);
    let parts = HistogramKey::new(u32::MAX, 0).into_parts();
    assert_eq!((parts.pid, parts.stack_id), (u32::MAX, 0));
}

#[test]
fn values_fall_into_the_bucket_of_their_logarithm() {
    let cases = [(1u64, 0usize), (2, 1), (3, 1), (4, 2), (1023, 9), (1024, 10), (1 << 38, 38)];
    for (value, bucket) in cases {
        let histogram = histogram(&[value]);
        assert_eq!(histogram.data[bucket], 1);
        assert_eq!(histogram.total_count(), 1);
        assert_eq!(histogram.total, value);
    }
}

#[test]
fn large_values_fall_into_the_last_bucket() {
    let histogram = histogram(&[1 << 39, 1 << 40, u64::MAX]);
    assert_eq!(histogram.data[HISTOGRAM_BUCKETS - 1], 3);
    assert_eq!(histogram.total, u64::MAX);
}

#[test]
fn zero_is_not_counted() {
    let histogram = histogram(&[0]);
    assert_eq!(histogram.total_count(), 0);
    assert_eq!(histogram.total, 0);
}

#[test]
fn counts_and_totals_stay_at_their_limit() {
    let mut a = Histogram::new();
    a.data[0] = u64::MAX;
    a.total = u64::MAX - 1;
    a.increment(1);
    assert_eq!(a.data[0], u64::MAX);
    assert_eq!(a.total, u64::MAX);
    a.increment(1);
    assert_eq!(a.total, u64::MAX);
    let b = histogram(&[1, 1]);
    a.merge(&b);
    assert_eq!(a.data[0], u64::MAX);
}

#[test]
fn merging_adds_bucket_by_bucket() {
    let mut a = histogram(&[1, 2, 1000]);
    let b = histogram(&[2, 3]);
    hist_merge(&mut a, &b);
    assert!(same(&a, &histogram(&[1, 2, 1000, 2, 3])));
    assert_eq!(a.total_count(), 5);
}

#[test]
fn merging_does_not_depend_on_the_order() {
    let (a, b, c) = (histogram(&[1, 7]), histogram(&[9]), histogram(&[7, 7, 70]));
    let mut left = a;
    left.merge(&b);
    left.merge(&c);
    let mut right = c;
    right.merge(&b);
    right.merge(&a);
    assert!(same(&left, &right));
    let mut with_empty = a;
    with_empty.merge(&Histogram::new());
    assert!(same(&with_empty, &a));
}

#[test]
fn what_is_new_merged_with_what_was_there_gives_the_whole() {
    let before = histogram(&[3, 5]);
    let after = histogram(&[3, 5, 5, 200]);
    let delta = hist_saturating_sub(&after, &before);
    assert!(same(&delta, &histogram(&[5, 200])));
    let mut whole = before;
    hist_merge(&mut whole, &delta);
    assert!(same(&whole, &after));
    assert!(same(&hist_saturating_sub(&after, &after), &Histogram::new()));
}

#[test]
fn differences_stay_at_zero() {
    let delta = hist_saturating_sub(&histogram(&[1]), &histogram(&[1, 1, 64]));
    assert!(same(&delta, &Histogram::new()));
}

#[test]
fn counts_that_do_not_fit_are_not_added_up() {
    let mut a = histogram(&[1]);
    assert_eq!(a.checked_total_count(), Some(1));
    a.data[7] = u64::MAX;
    assert_eq!(a.checked_total_count(), None);
    a.data[0] = 0;
    assert_eq!(a.checked_total_count(), Some(u64::MAX));
}

#[test]
fn what_is_missing_to_a_number_of_events() {
    let a = histogram(&[1, 2, 300]);
    assert_eq!(a.count_missing(5), 2);
    assert_eq!(a.count_missing(3), 0);
    assert_eq!(a.count_missing(0), 0);
    assert!(a.has_events());
    assert!(!Histogram::new().has_events());
}

#[test]
fn slots_and_modes() {
    assert_eq!((CONFIG_SLOT, COUNTER_SLOT), (0, 0));
    assert_eq!(HISTOGRAM_BUCKETS, 40);
    assert_eq!(MetricKind::Count.to_mode(), MetricMode::Count);
    assert_eq!(MetricKind::Duration.to_mode(), MetricMode::DurationNs);
    assert_ne!(MetricMode::Count.code(), MetricMode::DurationNs.code());
}

#[test]
fn labels_of_metrics() {
    assert_eq!(MetricKind::Count.value_label(), "count");
    assert_eq!(MetricKind::Duration.value_label(), "time (ns)");
    assert_eq!(MetricKind::Count.file_suffix(), "count");
    assert_eq!(MetricKind::Duration.file_suffix(), "latency");
    let spec = MetricSpec::new(MetricKind::Duration, 5, 6);
    assert_eq!(spec.kind, MetricKind::Duration);
    assert_eq!((spec.skip_total_value_lt, spec.skip_total_count_lt), (5, 6));
    assert_eq!(spec.value_label, "time (ns)");
}

#[test]
fn keys_are_kept_for_a_minute() {
    assert_eq!(Retention::default().sweep_every, Duration::from_secs(60));
}
