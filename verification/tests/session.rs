//! What a run is asked to do, and text.

use jeprofl::model::{MetricKind, OrderBy};
use jeprofl::session::{
    check_limits, clean_patterns, flame_outputs, heading, metric_config, metric_desc,
    panic_message, proc_exe_path, select_metrics, suffixed_file_name, suffixed_name, LimitError,
    MatchError, MetricLimits,
};
use jeprofl::text::{
    chars_of, find_first, find_last, owned, push_chars, push_decimal, push_hex, push_left_aligned, push_repeated, push_right_aligned,
    push_signed_decimal,
};

use std::path::Path;

const LIMITS: MetricLimits = MetricLimits { min_time: 1, max_time: 2, min_count: 3, max_count: 4 };

#[test]
fn limits_have_to_leave_something() {
    assert_eq!(check_limits(&LIMITS), Ok(()));
    let equal = MetricLimits { min_time: 2, max_time: 2, min_count: 4, max_count: 4 };
    assert_eq!(check_limits(&equal), Ok(()));
    let times = MetricLimits { min_time: 3, ..LIMITS };
    assert_eq!(check_limits(&times), Err(LimitError::Time));
    let counts = MetricLimits { min_count: 5, ..LIMITS };
    assert_eq!(check_limits(&counts), Err(LimitError::Count));
    let both = MetricLimits { min_time: 3, min_count: 5, ..LIMITS };
    assert_eq!(check_limits(&both), Err(LimitError::Time));
}

#[test]
fn refused_limits_say_why() {
    assert_eq!(
        LimitError::Time.message(),
        "--min-time must be less than or equal to --max-time"
    );
    assert_eq!(
        LimitError::Count.message(),
        "--min-count must be less than or equal to --max-count"
    );
}

#[test]
fn maps_and_programs_of_metrics() {
    let count = metric_desc(MetricKind::Count, &LIMITS);
    assert_eq!(count.config_map, "CONFIG_COUNT");
    assert_eq!(count.counter_map, "COUNTER_COUNT");
    assert_eq!(count.histogram_map, "HISTOGRAMS_COUNT");
    assert_eq!(count.entry_prog, "probe_count_entry");
    assert_eq!(count.ret_prog, None);
    assert_eq!((count.min, count.max), (3, 4));
    let latency = metric_desc(MetricKind::Duration, &LIMITS);
    assert_eq!(latency.config_map, "CONFIG_LATENCY");
    assert_eq!(latency.counter_map, "COUNTER_LATENCY");
    assert_eq!(latency.histogram_map, "HISTOGRAMS_LATENCY");
    assert_eq!(latency.entry_prog, "probe_latency_entry");
    assert_eq!(latency.ret_prog, Some("probe_latency_ret"));
    assert_eq!((latency.min, latency.max), (1, 2));
}

#[test]
fn probes_are_configured_by_metric() {
    let config = metric_config(MetricKind::Count, &LIMITS, 1000);
    assert_eq!(config.mode, MetricKind::Count.to_mode().code());
    assert_eq!((config.min_value, config.max_value), (3, 4));
    assert_eq!((config.sample_every, config._pad), (1000, 0));
    let config = metric_config(MetricKind::Duration, &LIMITS, 1);
    assert_eq!(config.mode, MetricKind::Duration.to_mode().code());
    assert_eq!((config.min_value, config.max_value), (1, 2));
}

#[test]
fn metrics_are_measured_once_in_order() {
    let (count, duration) = (MetricKind::Count, MetricKind::Duration);
    assert_eq!(select_metrics(&vec![]), vec![count]);
    assert_eq!(select_metrics(&vec![duration]), vec![duration]);
    assert_eq!(
        select_metrics(&vec![duration, count, duration, count]),
        vec![duration, count]
    );
    let once = select_metrics(&vec![count, count, duration]);
    assert_eq!(select_metrics(&once), once);
}

fn texts(patterns: &[&str]) -> Vec<String> {
    patterns.iter().map(|pattern| String::from(*pattern)).collect()
}

#[test]
fn patterns_are_trimmed() {
    let cleaned = clean_patterns(&texts(&[" malloc\t", "", "\u{3000}\n", "a b", "\u{a0}free"]));
    assert_eq!(cleaned.unwrap(), texts(&["malloc", "a b", "free"]));
    assert!(matches!(clean_patterns(&texts(&[" ", ""])), Err(MatchError::NoPatterns)));
    assert!(matches!(clean_patterns(&vec![]), Err(MatchError::NoPatterns)));
    let cleaned = clean_patterns(&texts(&["\u{200b}x\u{85}\u{2028}\u{1680}"]));
    assert_eq!(cleaned.unwrap(), texts(&["\u{200b}x"]));
}

#[test]
fn programs_of_processes() {
    assert_eq!(proc_exe_path(1234), "/proc/1234/exe");
    assert_eq!(proc_exe_path(0), "/proc/0/exe");
    assert_eq!(proc_exe_path(-1), "/proc/-1/exe");
    assert_eq!(proc_exe_path(i32::MIN), "/proc/-2147483648/exe");
}

#[test]
fn names_of_files() {
    assert_eq!(suffixed_name(Some("report"), "latency"), "report-latency");
    assert_eq!(suffixed_name(None, "count"), "output-count");
    assert_eq!(suffixed_file_name("report.csv", "latency"), "report-latency.csv");
    assert_eq!(suffixed_file_name("report", "count"), "report-count");
    assert_eq!(suffixed_file_name(".report", "count"), ".report-count");
    assert_eq!(suffixed_file_name(".report.csv", "count"), ".report-count.csv");
    assert_eq!(suffixed_file_name("report.", "count"), "report-count");
    assert_eq!(suffixed_file_name("a.b.csv", "count"), "a.csv");
    assert_eq!(suffixed_file_name("a.b.", "count"), "a");
    for name in ["report.csv", "report", "a.b.csv", ".report", ".report.csv", "report.", "a.b.", "ä.ö"] {
        let base = Path::new(name);
        let stem = base.file_stem().and_then(|stem| stem.to_str());
        let mut path = base.with_file_name(suffixed_name(stem, "count"));
        if let Some(ext) = base.extension() {
            path.set_extension(ext);
        }
        assert_eq!(Path::new(&suffixed_file_name(name, "count")), path);
    }
    assert_ne!(
        suffixed_file_name("report.csv", MetricKind::Count.file_suffix()),
        suffixed_file_name("report.csv", MetricKind::Duration.file_suffix())
    );
    let outputs = flame_outputs("out/graph");
    assert_eq!(
        outputs,
        vec![
            (String::from("out/graph_by_count.svg"), OrderBy::Count),
            (String::from("out/graph_by_size.svg"), OrderBy::Traffic),
        ]
    );
}

#[test]
fn headings_and_panics() {
    assert_eq!(heading(MetricKind::Count), "Count metric\n\n");
    assert_eq!(heading(MetricKind::Duration), "Duration metric\n\n");
    assert_eq!(panic_message(Some("boom")), "collector thread panicked: boom");
    assert_eq!(panic_message(None), "collector thread panicked");
}

#[test]
fn numbers_as_text() {
    let mut text = owned("n=");
    push_decimal(&mut text, 0);
    text.push(' ');
    push_decimal(&mut text, u64::MAX);
    text.push(' ');
    push_hex(&mut text, 0xdead_beef);
    text.push(' ');
    push_signed_decimal(&mut text, -42);
    assert_eq!(text, "n=0 18446744073709551615 deadbeef -42");
    let mut digits = String::new();
    push_decimal(&mut digits, 90_817);
    assert_eq!(digits.parse::<u64>(), Ok(90_817));
}

#[test]
fn cells_are_filled_up() {
    let mut text = String::new();
    push_left_aligned(&mut text, "≤x", 4);
    push_repeated(&mut text, '|', 1);
    push_right_aligned(&mut text, "12", 4);
    push_right_aligned(&mut text, "12345", 4);
    push_left_aligned(&mut text, "12345", 4);
    assert_eq!(text, "≤x  |  121234512345");
    let chars = chars_of("≤x.y.z");
    assert_eq!(chars, vec!['≤', 'x', '.', 'y', '.', 'z']);
    assert_eq!(find_last(&chars, '.'), Some(4));
    assert_eq!(find_last(&chars, '#'), None);
    assert_eq!(find_first(&chars, '.'), 2);
    assert_eq!(find_first(&chars, '#'), 6);
    let mut part = String::from(">");
    push_chars(&mut part, &chars, 1, 4);
    assert_eq!(part, ">x.y");
}
