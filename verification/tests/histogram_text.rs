//! Histograms as tables.

use jeprofl::common::Histogram;
use jeprofl::model::{MetricKind, MetricSpec};
use jeprofl::report::pretty::{
    bucket_upper_bound, duration_labels, format_duration_bucket, histogram_rows, humanize_ns,
    max_count, total_human_time, total_label, write_count_row, write_duration_row, write_histogram,
    write_scaled_histogram, write_section, RowScale,
};

fn scale(count: u64, max: u64, total: u64) -> RowScale {
    let percentage = if total == 0 { 0.0 } else { (count as f64 / total as f64) * 100.0 };
    RowScale {
        percentage: format!("{percentage:.2}"),
        bar_length: ((count as f64 / max as f64) * 50.0).round() as usize,
    }
}

fn table(histogram: &Histogram, kind: MetricKind) -> String {
    let mut buf = String::new();
    write_histogram(histogram, &mut buf, MetricSpec::new(kind, 0, 0), &scale);
    buf
}

fn bar() -> String {
    "#".repeat(50)
}

fn count_head() -> String {
    format!(
        "≤UpperBound |     Count | Percentage | {}\n----------+-----------+-----------+{}\n",
        bar(),
        "-".repeat(50)
    )
}

fn duration_head() -> String {
    format!(
        "≤UpperBound (ns)         | Human              |     Count | Percentage | {}\n{}+{}+{}+{}+{}\n",
        bar(),
        "-".repeat(24),
        "-".repeat(20),
        "-".repeat(11),
        "-".repeat(11),
        "-".repeat(50)
    )
}

#[test]
fn histogram_empty() {
    let histogram = Histogram::new();
    assert_eq!(
        table(&histogram, MetricKind::Count),
        format!("{}Total count: 0 across 0 events\n", count_head())
    );
}

#[test]
fn histogram_single_value() {
    let mut histogram = Histogram::new();
    histogram.increment(1023);
    assert_eq!(
        table(&histogram, MetricKind::Count),
        format!(
            "{}<=1023     |         1 |   100.00% | {}\nTotal count: 1023 across 1 events\n",
            count_head(),
            bar()
        )
    );
}

#[test]
fn histogram_multiple_sizes() {
    let mut histogram = Histogram::new();
    histogram.increment(1);
    histogram.increment(512);
    histogram.increment(1026);
    let expected = [
        count_head(),
        format!("<=1        |         1 |    33.33% | {}\n", bar()),
        format!("<=1023     |         1 |    33.33% | {}\n", bar()),
        format!("<=2047     |         1 |    33.33% | {}\n", bar()),
        String::from("Total count: 1539 across 3 events\n"),
    ];
    assert_eq!(table(&histogram, MetricKind::Count), expected.concat());
}

#[test]
fn histogram_large_values() {
    let mut histogram = Histogram::new();
    histogram.increment(1 << 20);
    histogram.increment(1u64 << 30);
    let expected = [
        count_head(),
        format!("<=2097151  |         1 |    50.00% | {}\n", bar()),
        format!("<=2147483647 |         1 |    50.00% | {}\n", bar()),
        String::from("Total count: 1074790400 across 2 events\n"),
    ];
    assert_eq!(table(&histogram, MetricKind::Count), expected.concat());
}

#[test]
fn histogram_many_small_values() {
    let mut histogram = Histogram::new();
    for _ in 0..1000 {
        histogram.increment(1);
    }
    histogram.increment(1023);
    let expected = [
        count_head(),
        format!("<=1        |      1000 |    99.90% | {}\n", bar()),
        String::from("<=1023     |         1 |     0.10% | \n"),
        String::from("Total count: 2023 across 1001 events\n"),
    ];
    assert_eq!(table(&histogram, MetricKind::Count), expected.concat());
}

#[test]
fn histogram_duration_humanized() {
    let mut histogram = Histogram::new();
    histogram.increment(1);
    histogram.increment(3_451);
    histogram.increment(1_073_741_823);
    let expected = [
        duration_head(),
        format!("<=1                      | 0.000000001s       |         1 |    33.33% | {}\n", bar()),
        format!("<=4095                   | 0.000004095s       |         1 |    33.33% | {}\n", bar()),
        format!("<=1073741823             | 1.073741823s       |         1 |    33.33% | {}\n", bar()),
        String::from("Total time (ns): 1073745275 (1.073745275s) across 3 events\n"),
    ];
    assert_eq!(table(&histogram, MetricKind::Duration), expected.concat());
}

#[test]
fn histogram_of_durations_in_the_last_bucket_has_no_human_bound() {
    let mut histogram = Histogram::new();
    histogram.increment(u64::MAX);
    let expected = [
        duration_head(),
        format!("<=18446744073709551615   | -                  |         1 |   100.00% | {}\n", bar()),
        String::from("Total time (ns): 18446744073709551615 across 1 events\n"),
    ];
    assert_eq!(table(&histogram, MetricKind::Duration), expected.concat());
}

#[test]
fn given_scales_are_written_as_they_are() {
    let mut histogram = Histogram::new();
    histogram.increment(4);
    histogram.increment(5);
    let scales = vec![RowScale { percentage: String::from("7.25"), bar_length: 3 }];
    let mut buf = String::from("above\n");
    write_scaled_histogram(&histogram, &mut buf, MetricSpec::new(MetricKind::Count, 0, 0), &scales);
    assert_eq!(
        buf,
        format!(
            "above\n{}<=7        |         2 |     7.25% | ###\nTotal count: 9 across 2 events\n",
            count_head()
        )
    );
}

#[test]
fn rows_are_the_buckets_that_are_not_empty() {
    let mut histogram = Histogram::new();
    histogram.increment(1);
    histogram.increment(8);
    histogram.increment(9);
    let rows = histogram_rows(&histogram);
    let pairs: Vec<(usize, u64)> = rows.iter().map(|row| (row.bucket, row.count)).collect();
    assert_eq!(pairs, vec![(0, 1), (3, 2)]);
    assert_eq!(max_count(&rows), 2);
    assert_eq!(max_count(&Vec::new()), 1);
    assert_eq!(rows.iter().map(|row| row.count).sum::<u64>(), histogram.total_count());
}

#[test]
fn bounds_of_buckets() {
    assert_eq!(bucket_upper_bound(0), 1);
    assert_eq!(bucket_upper_bound(9), 1023);
    assert_eq!(bucket_upper_bound(38), (1u64 << 39) - 1);
    assert_eq!(bucket_upper_bound(39), u64::MAX);
    assert_eq!(bucket_upper_bound(40), u64::MAX);
}

#[test]
fn durations_as_people_write_them() {
    assert_eq!(humanize_ns(0), Some(String::from("0s")));
    assert_eq!(humanize_ns(1_500_000_000), Some(String::from("1.5s")));
    assert_eq!(humanize_ns(3_600_000_000_000), Some(String::from("3600s")));
    assert_eq!(humanize_ns(61_000_000_010), Some(String::from("61.00000001s")));
    assert_eq!(humanize_ns(i64::MAX as u64), Some(String::from("9223372036.854775807s")));
    assert_eq!(humanize_ns(i64::MAX as u64 + 1), None);
    assert_eq!(humanize_ns(u64::MAX), None);
    assert_eq!(
        format_duration_bucket(4095),
        (String::from("<=4095"), String::from("0.000004095s"))
    );
    assert_eq!(
        format_duration_bucket(u64::MAX),
        (String::from("<=18446744073709551615"), String::from("-"))
    );
    assert_eq!(total_human_time(2_000_000_000), " (2s)");
    assert_eq!(total_human_time(u64::MAX), "");
}

#[test]
fn labels_of_given_durations() {
    assert_eq!(
        duration_labels(3, Some(String::from("three"))),
        (String::from("<=3"), String::from("three"))
    );
    assert_eq!(duration_labels(3, None), (String::from("<=3"), String::from("-")));
    assert_eq!(total_label(Some(String::from("three"))), " (three)");
    assert_eq!(total_label(None), "");
}

#[test]
fn rows_of_tables() {
    let mut buf = String::new();
    write_count_row(&mut buf, "<=1", 12, "3.50", 2);
    assert_eq!(buf, "<=1        |        12 |     3.50% | ##\n");
    let mut buf = String::new();
    write_duration_row(&mut buf, "<=1", "1ns", 12, "100.00", 0);
    assert_eq!(
        buf,
        "<=1                      | 1ns                |        12 |   100.00% | \n"
    );
}

#[test]
fn sections_are_eighty_characters_wide() {
    let mut buf = String::from("x");
    write_section(&mut buf, '*');
    assert_eq!(buf, format!("x{}\n", "*".repeat(80)));
}
