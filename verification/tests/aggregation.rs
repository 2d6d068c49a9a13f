//! Snapshots added up, and the collector that brings them.

use jeprofl::aggregator::StatsAggregator;
use jeprofl::collector::{is_entry_skipped, Action, Collector, EntryRead, Event};
use jeprofl::common::{Histogram, HistogramKey, UnpackedHistogramKey};
use jeprofl::model::{MetricKind, MetricSpec, Retention};
use jeprofl::resolver::{
    symbolize, trace_of, FrameSymbol, ResolveError, ResolvedStackTrace, SymbolResolver,
    Symbolization,
};
use std::time::Duration;

fn histogram(values: &[u64]) -> Histogram {
    let mut histogram = Histogram::new();
    for value in values {
        histogram.increment(*value);
    }
    histogram
}

fn key(pid: u32, stack_id: u32) -> UnpackedHistogramKey {
    UnpackedHistogramKey { pid, stack_id }
}

fn word(pid: u32, stack_id: u32) -> u64 {
    HistogramKey::new(pid, stack_id).to_word()
}

fn trace(names: &[&str]) -> ResolvedStackTrace {
    ResolvedStackTrace {
        symbols: names
            .iter()
            .map(|name| FrameSymbol { address: 16, symbol: String::from(*name) })
            .collect(),
    }
}

struct Named;

impl SymbolResolver for Named {
    fn resolve_stacktrace(
        &self,
        stacktrace: &Vec<u64>,
        pid: u32,
    ) -> Result<ResolvedStackTrace, String> {
        if stacktrace.is_empty() {
            return Err(String::from("no frames"));
        }
        Ok(ResolvedStackTrace {
            symbols: stacktrace
                .iter()
                .map(|address| FrameSymbol { address: *address, symbol: format!("f{pid}") })
                .collect(),
        })
    }
}

#[test]
fn snapshots_of_a_cpu_replace_each_other() {
    let mut aggregator = StatsAggregator::new(MetricSpec::new(MetricKind::Count, 0, 0));
    aggregator.ingest_snapshot(key(1, 2), &histogram(&[1, 1]), 0);
    aggregator.ingest_snapshot(key(1, 2), &histogram(&[1, 1, 1]), 0);
    aggregator.ingest_snapshot(key(1, 2), &histogram(&[1, 1, 1]), 0);
    let merged = aggregator.merged();
    assert_eq!(merged.len(), 1);
    assert_eq!(merged[&word(1, 2)].total_count(), 3);
}

#[test]
fn snapshots_of_different_cpus_add_up() {
    let mut aggregator = StatsAggregator::new(MetricSpec::new(MetricKind::Duration, 0, 0));
    aggregator.ingest_snapshot(key(1, 2), &histogram(&[10]), 0);
    aggregator.ingest_snapshot(key(1, 2), &histogram(&[100, 100]), 1);
    aggregator.ingest_snapshot(key(1, 3), &histogram(&[7]), 1);
    let merged = aggregator.merged();
    assert_eq!(merged[&word(1, 2)].total, 210);
    assert_eq!(merged[&word(1, 2)].total_count(), 3);
    assert_eq!(merged[&word(1, 3)].total, 7);
    assert_eq!(aggregator.kind(), MetricKind::Duration);
    assert_eq!(aggregator.value_label(), "time (ns)");
    assert_eq!(aggregator.spec().kind, MetricKind::Duration);
}

#[test]
fn a_snapshot_that_was_reset_takes_nothing_away() {
    let mut aggregator = StatsAggregator::new(MetricSpec::new(MetricKind::Count, 0, 0));
    aggregator.ingest_snapshot(key(1, 2), &histogram(&[4, 4]), 0);
    aggregator.ingest_snapshot(key(1, 2), &histogram(&[4]), 0);
    assert_eq!(aggregator.merged()[&word(1, 2)].total, 8);
    aggregator.ingest_snapshot(key(1, 2), &histogram(&[4, 4]), 0);
    assert_eq!(aggregator.merged()[&word(1, 2)].total, 12);
}

#[test]
fn stacks_are_resolved_once() {
    let mut aggregator = StatsAggregator::new(MetricSpec::new(MetricKind::Count, 0, 0));
    assert!(aggregator.needs_resolution(9));
    assert!(aggregator.resolved(9).is_none());
    assert!(aggregator.ensure_resolved(9, 4, Ok(vec![1, 2]), &Named).is_ok());
    assert!(!aggregator.needs_resolution(9));
    let resolved = aggregator.resolved(9).expect("resolved");
    assert_eq!(resolved.symbols.len(), 2);
    assert_eq!(resolved.symbols[1].address, 2);
    assert_eq!(resolved.symbols[1].symbol, "f4");
    assert!(aggregator.ensure_resolved(9, 5, Ok(vec![3]), &Named).is_ok());
    assert_eq!(aggregator.resolved(9).expect("resolved").symbols[0].symbol, "f4");
}

#[test]
fn failures_to_resolve_are_reported() {
    let mut aggregator = StatsAggregator::new(MetricSpec::new(MetricKind::Count, 0, 0));
    let lookup = aggregator.ensure_resolved(9, 4, Err(String::from("gone")), &Named);
    assert_eq!(lookup.unwrap_err().message(), "stack trace lookup failed: gone");
    let resolver = aggregator.ensure_resolved(9, 4, Ok(vec![]), &Named);
    assert_eq!(resolver.unwrap_err().message(), "no frames");
    assert!(aggregator.needs_resolution(9));
    assert!(aggregator.finish_resolution(9, Ok(trace(&["a"]))).is_ok());
    assert!(!aggregator.needs_resolution(9));
    assert!(matches!(symbolize(Ok(vec![]), 1, &Named), Err(ResolveError::Resolver(_))));
}

#[test]
fn unknown_addresses_keep_their_reason() {
    let resolved = trace_of(vec![
        Symbolization::Known { address: 255, name: String::from("malloc") },
        Symbolization::Unknown { reason: String::from("missing symbols") },
    ]);
    assert_eq!(resolved.symbols[0].address, 255);
    assert_eq!(resolved.symbols[0].symbol, "malloc");
    assert_eq!(resolved.symbols[1].address, 0);
    assert_eq!(resolved.symbols[1].symbol, "missing symbols");
}

#[test]
fn traces_fold_into_lines() {
    assert_eq!(trace(&["malloc", "main"]).as_inferno_line(42), "malloc;main 42");
    assert_eq!(trace(&["main"]).as_inferno_line(0), "main 0");
    assert_eq!(trace(&[]).as_inferno_line(7), " 7");
    assert_eq!(trace(&["a", "b", "c"]).folded_stack(), "a;b;c");
}

#[test]
fn either_threshold_skips_a_stack() {
    let cpus = vec![histogram(&[10]), Histogram::new(), histogram(&[10])];
    assert!(!is_entry_skipped(&MetricSpec::new(MetricKind::Count, 20, 2), &cpus));
    assert!(is_entry_skipped(&MetricSpec::new(MetricKind::Count, 21, 2), &cpus));
    assert!(is_entry_skipped(&MetricSpec::new(MetricKind::Count, 20, 3), &cpus));
    assert!(is_entry_skipped(&MetricSpec::new(MetricKind::Count, 21, 3), &cpus));
    assert!(!is_entry_skipped(&MetricSpec::new(MetricKind::Count, 0, 0), &vec![Histogram::new()]));
    assert!(!is_entry_skipped(&MetricSpec::new(MetricKind::Count, 0, 0), &vec![]));
    assert!(is_entry_skipped(&MetricSpec::new(MetricKind::Count, 1, 0), &vec![]));
}

#[test]
fn thresholds_are_reached_without_overflow() {
    let mut full = Histogram::new();
    full.data = [u64::MAX; 40];
    full.total = u64::MAX;
    let cpus = vec![full, full, full];
    assert!(!is_entry_skipped(&MetricSpec::new(MetricKind::Count, u64::MAX, u64::MAX), &cpus));
    let mut aggregator = StatsAggregator::new(MetricSpec::new(MetricKind::Count, 0, 0));
    full.total = 0;
    aggregator.ingest_snapshot(key(1, 1), &full, 0);
    assert_eq!(aggregator.merged()[&word(1, 1)].data[39], u64::MAX);
}

fn snapshots(pid: u32, stack_id: u32, per_cpu: Vec<Histogram>) -> Event {
    Event::Read(EntryRead::Snapshots { key: HistogramKey::new(pid, stack_id), per_cpu })
}

fn polling(skip_value: u64) -> Collector {
    polling_over(skip_value, 0)
}

fn polling_over(skip_value: u64, skip_count: u64) -> Collector {
    let mut collector = Collector::new(
        &vec![MetricSpec::new(MetricKind::Count, skip_value, skip_count)],
        Retention { sweep_every: Duration::from_secs(60) },
    );
    assert!(matches!(collector.step(Event::Canceled(false)), Action::Sleep));
    assert!(matches!(collector.step(Event::Slept), Action::ReadEntry { worker: 0 }));
    collector
}

#[test]
fn an_entry_is_ingested_cpu_by_cpu() {
    let mut collector = polling(0);
    let action = collector.step(snapshots(3, 4, vec![histogram(&[1]), histogram(&[2, 2])]));
    assert!(matches!(action, Action::Resolve { stack_id: 4, pid: 3 }));
    let action = collector.step(Event::Resolved(Ok(trace(&["malloc"]))));
    assert!(matches!(action, Action::CheckCanceled));
    let action = collector.step(Event::Canceled(false));
    assert!(matches!(action, Action::CheckCanceled));
    let action = collector.step(Event::Canceled(false));
    assert!(matches!(action, Action::CheckCanceled));
    let action = collector.step(Event::Canceled(false));
    assert!(matches!(action, Action::ReadEntry { worker: 0 }));
    let action = collector.step(Event::Read(EntryRead::End));
    assert!(matches!(action, Action::CheckCanceled));
    let action = collector.step(Event::Canceled(false));
    assert!(matches!(action, Action::ReadClock));
    let action = collector.step(Event::Elapsed(Duration::from_secs(59)));
    assert!(matches!(action, Action::CheckCanceled));
    assert!(matches!(collector.step(Event::Canceled(true)), Action::Finish));
    let results = collector.into_results();
    assert_eq!(results.len(), 1);
    assert_eq!(results[0].0, MetricKind::Count);
    assert_eq!(results[0].1.merged()[&word(3, 4)].total, 5);
    assert_eq!(results[0].1.resolved(4).expect("resolved").symbols[0].symbol, "malloc");
}

/// Answers every question until the map is read again or the clock is asked for.
fn answer(collector: &mut Collector, mut action: Action) -> Action {
    loop {
        action = match action {
            Action::CheckCanceled => collector.step(Event::Canceled(false)),
            Action::Resolve { .. } => collector.step(Event::Resolved(Ok(trace(&["malloc"])))),
            other => return other,
        };
    }
}

fn dropped(collector: &mut Collector, elapsed: u64) -> Vec<Vec<u64>> {
    let action = collector.step(Event::Read(EntryRead::End));
    assert!(matches!(answer(collector, action), Action::ReadClock));
    match collector.step(Event::Elapsed(Duration::from_secs(elapsed))) {
        Action::DropKeys(words) => words,
        _ => panic!("keys are dropped"),
    }
}

#[test]
fn an_entry_below_a_threshold_is_dropped() {
    let mut collector = polling(100);
    let action = collector.step(snapshots(3, 4, vec![histogram(&[1]), histogram(&[2])]));
    assert!(matches!(action, Action::CheckCanceled));
    assert!(matches!(collector.step(Event::Canceled(false)), Action::ReadEntry { worker: 0 }));
    assert_eq!(dropped(&mut collector, 60), vec![vec![word(3, 4)]]);
    assert!(matches!(collector.step(Event::Dropped), Action::CheckCanceled));
    assert!(collector.into_results()[0].1.merged().is_empty());
}

#[test]
fn a_stack_spread_over_two_cpus_reaches_the_thresholds_together() {
    let mut collector = polling_over(100, 10);
    let half = histogram(&[10; 6]);
    assert_eq!((half.total, half.total_count()), (60, 6));
    let action = collector.step(snapshots(3, 4, vec![half, half]));
    assert!(matches!(action, Action::Resolve { stack_id: 4, pid: 3 }));
    assert!(matches!(answer(&mut collector, action), Action::ReadEntry { worker: 0 }));
    assert_eq!(dropped(&mut collector, 60), vec![Vec::<u64>::new()]);
    let merged = collector.into_results()[0].1.merged();
    assert_eq!(merged[&word(3, 4)].total, 120);
    assert_eq!(merged[&word(3, 4)].total_count(), 12);
}

#[test]
fn a_small_share_of_a_kept_stack_counts_too() {
    let mut collector = polling(100);
    let action = collector.step(snapshots(3, 4, vec![histogram(&[950]), histogram(&[50])]));
    assert!(matches!(answer(&mut collector, action), Action::ReadEntry { worker: 0 }));
    assert_eq!(collector.into_results()[0].1.merged()[&word(3, 4)].total, 1000);
}

#[test]
fn an_entry_that_reaches_the_threshold_is_not_dropped() {
    let mut collector = polling(100);
    let action = collector.step(snapshots(3, 4, vec![histogram(&[1]), histogram(&[200])]));
    assert!(matches!(action, Action::Resolve { stack_id: 4, pid: 3 }));
    let action = collector.step(Event::Resolved(Err(ResolveError::Lookup(String::from("gone")))));
    assert!(matches!(action, Action::CheckCanceled));
    let action = collector.step(Event::Canceled(false));
    assert!(matches!(action, Action::Resolve { stack_id: 4, pid: 3 }));
    let action = collector.step(Event::Resolved(Err(ResolveError::Lookup(String::from("gone")))));
    assert!(matches!(action, Action::CheckCanceled));
    assert!(matches!(collector.step(Event::Canceled(false)), Action::CheckCanceled));
    assert!(matches!(collector.step(Event::Canceled(false)), Action::ReadEntry { worker: 0 }));
    assert!(matches!(collector.step(Event::Read(EntryRead::Failed)), Action::ReadEntry { worker: 0 }));
    assert_eq!(dropped(&mut collector, 61), vec![Vec::<u64>::new()]);
    let results = collector.into_results();
    assert_eq!(results[0].1.merged()[&word(3, 4)].total, 201);
    assert!(results[0].1.needs_resolution(4));
}

#[test]
fn the_latest_scan_decides_whether_a_key_is_dropped() {
    let mut collector = polling(100);
    for (stack_id, value) in [(4, 1), (5, 1), (4, 100)] {
        let action = collector.step(snapshots(3, stack_id, vec![histogram(&[value])]));
        assert!(matches!(answer(&mut collector, action), Action::ReadEntry { worker: 0 }));
    }
    assert_eq!(dropped(&mut collector, 60), vec![vec![word(3, 5)]]);
    assert!(matches!(collector.step(Event::Dropped), Action::CheckCanceled));
    assert!(matches!(collector.step(Event::Canceled(false)), Action::Sleep));
    assert!(matches!(collector.step(Event::Slept), Action::ReadEntry { worker: 0 }));
    assert_eq!(dropped(&mut collector, 60), vec![Vec::<u64>::new()]);
}

#[test]
fn a_canceled_collector_comes_to_an_end() {
    let mut collector = polling(0);
    assert!(matches!(
        collector.step(snapshots(3, 4, vec![histogram(&[1]), histogram(&[2])])),
        Action::Resolve { .. }
    ));
    let mut action = collector.step(Event::Resolved(Ok(trace(&["malloc"]))));
    let mut steps = 0;
    while !matches!(action, Action::Finish) {
        action = match action {
            Action::CheckCanceled => collector.step(Event::Canceled(true)),
            Action::ReadClock => collector.step(Event::Elapsed(Duration::from_secs(0))),
            _ => panic!("a canceled collector asks for no work"),
        };
        steps += 1;
        assert!(steps < 10);
    }
    assert_eq!(collector.into_results()[0].1.merged()[&word(3, 4)].total, 1);
}

#[test]
fn an_event_that_is_not_waited_for_changes_nothing() {
    let mut collector = polling(0);
    assert!(matches!(collector.step(Event::Slept), Action::ReadEntry { worker: 0 }));
    assert!(matches!(collector.step(Event::Dropped), Action::ReadEntry { worker: 0 }));
}

#[test]
fn a_collector_of_no_metric_polls_all_the_same() {
    let mut collector = Collector::new(&Vec::new(), Retention::default());
    assert!(matches!(collector.step(Event::Canceled(false)), Action::Sleep));
    assert!(matches!(collector.step(Event::Slept), Action::ReadClock));
    assert!(collector.into_results().is_empty());
}
