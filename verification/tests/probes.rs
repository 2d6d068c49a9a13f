//! What the probes do.

use jeprofl::common::{Config, Histogram, MetricMode};
use jeprofl::probe::{
    active, count_entry_key, count_entry_sampled, latency_entry, latency_entry_sampled,
    latency_return, pop_latency_sample, push_latency_sample, should_sample, update_hist,
    LatencyStack, MAX_LATENCY_STACK_DEPTH,
};

fn config(mode: MetricMode, sample_every: u32) -> Config {
    Config { mode: mode.code(), min_value: 0, max_value: u64::MAX, sample_every, _pad: 0 }
}

const THREAD: u64 = (77 << 32) | 78;

#[test]
fn every_nth_event_is_sampled() {
    let mut counter = Some(0);
    let sampled: Vec<bool> = (0..7).map(|_| should_sample(3, &mut counter)).collect();
    assert_eq!(sampled, vec![false, false, true, false, false, true, false]);
    assert_eq!(counter, Some(7));
}

#[test]
fn an_interval_of_one_or_none_samples_every_event() {
    for interval in [0, 1] {
        let mut counter = Some(5);
        assert!(should_sample(interval, &mut counter));
        assert_eq!(counter, Some(5));
    }
    let mut counter = None;
    assert!(should_sample(1000, &mut counter));
    assert_eq!(counter, None);
}

#[test]
fn the_counter_turns_over() {
    let mut counter = Some(u64::MAX);
    assert!(should_sample(3, &mut counter));
    assert_eq!(counter, Some(0));
}

#[test]
fn probes_work_only_in_their_mode() {
    let count = config(MetricMode::Count, 1);
    assert!(active(Some(count), MetricMode::Count).is_some());
    assert!(active(Some(count), MetricMode::DurationNs).is_none());
    assert!(active(None, MetricMode::Count).is_none());
    let mut counter = Some(0);
    assert!(count_entry_sampled(Some(count), &mut counter));
    assert!(!count_entry_sampled(Some(config(MetricMode::DurationNs, 1)), &mut counter));
    assert!(!count_entry_sampled(None, &mut counter));
    assert_eq!(latency_entry_sampled(Some(count), &mut counter), None);
    assert_eq!(
        latency_entry_sampled(Some(config(MetricMode::DurationNs, 2)), &mut counter),
        Some(false)
    );
    assert_eq!(
        latency_entry_sampled(Some(config(MetricMode::DurationNs, 2)), &mut counter),
        Some(true)
    );
    assert_eq!(counter, Some(2));
}

#[test]
fn counted_calls_go_to_process_and_stack() {
    let key = count_entry_key(Some(42), THREAD).expect("stack taken").into_parts();
    assert_eq!((key.pid, key.stack_id), (77, 42));
    assert!(count_entry_key(None, THREAD).is_none());
}

#[test]
fn a_call_is_measured() {
    let cfg = config(MetricMode::DurationNs, 1);
    let inflight = latency_entry(None, Some((1000, Some(5))));
    let result = latency_return(cfg, THREAD, 1250, Some(inflight));
    assert!(result.inflight.is_none());
    let event = result.event.expect("event");
    assert_eq!(event.value, 250);
    let key = event.key.into_parts();
    assert_eq!((key.pid, key.stack_id), (77, 5));
}

#[test]
fn nested_calls_are_measured_from_the_inside_out() {
    let cfg = config(MetricMode::DurationNs, 1);
    let outer = latency_entry(None, Some((100, Some(1))));
    let both = latency_entry(Some(outer), Some((150, Some(2))));
    let first = latency_return(cfg, THREAD, 160, Some(both));
    let event = first.event.expect("inner call");
    assert_eq!((event.value, event.key.into_parts().stack_id), (10, 2));
    let second = latency_return(cfg, THREAD, 300, first.inflight);
    let event = second.event.expect("outer call");
    assert_eq!((event.value, event.key.into_parts().stack_id), (200, 1));
    assert!(second.inflight.is_none());
}

#[test]
fn a_call_is_measured_whatever_calls_it_makes() {
    let cfg = config(MetricMode::DurationNs, 1);
    let mut inflight = Some(latency_entry(None, Some((100, Some(1)))));
    for round in 0..3u64 {
        let deep = 4 + 4 * round;
        for i in 0..deep {
            inflight = Some(latency_entry(inflight, Some((200 + i, Some(9)))));
        }
        for _ in 0..deep {
            inflight = latency_return(cfg, THREAD, 500, inflight).inflight;
        }
    }
    let result = latency_return(cfg, THREAD, 1000, inflight);
    let event = result.event.expect("outer call");
    assert_eq!((event.value, event.key.into_parts().stack_id), (900, 1));
    assert!(result.inflight.is_none());
}

#[test]
fn calls_without_sample_or_stack_are_not_measured() {
    let cfg = config(MetricMode::DurationNs, 1);
    for taken in [None, Some((1000, None)), Some((0, Some(5))), Some((1000, Some(-3)))] {
        let inflight = latency_entry(None, taken);
        assert!(latency_return(cfg, THREAD, 2000, Some(inflight)).event.is_none());
    }
    let nothing = latency_return(cfg, THREAD, 2000, None);
    assert!(nothing.event.is_none() && nothing.inflight.is_none());
}

#[test]
fn times_outside_the_bounds_are_not_recorded() {
    let cfg = Config { min_value: 10, max_value: 20, ..config(MetricMode::DurationNs, 1) };
    for (end, recorded) in [(100, false), (109, false), (110, true), (120, true), (121, false), (50, false)] {
        let inflight = latency_entry(None, Some((100, Some(5))));
        let result = latency_return(cfg, THREAD, end, Some(inflight));
        assert_eq!(result.event.is_some(), recorded, "{end}");
        assert!(result.inflight.is_none());
    }
}

#[test]
fn popping_undoes_pushing() {
    let mut stack = LatencyStack::new();
    for i in 0..MAX_LATENCY_STACK_DEPTH as u64 {
        push_latency_sample(&mut stack, 10 + i, i as i32);
    }
    for i in (0..MAX_LATENCY_STACK_DEPTH as u64).rev() {
        assert_eq!(pop_latency_sample(&mut stack), (10 + i, i as i32));
    }
    assert_eq!((stack.depth, stack.overflow), (0, 0));
    assert_eq!(stack.ts, [0; MAX_LATENCY_STACK_DEPTH]);
    assert_eq!(stack.stack_ids, [-1; MAX_LATENCY_STACK_DEPTH]);
    assert_eq!(pop_latency_sample(&mut stack), (0, -1));
}

#[test]
fn calls_nested_too_deep_are_only_counted() {
    let mut stack = LatencyStack::new();
    for i in 0..10 {
        push_latency_sample(&mut stack, 100 + i, i as i32);
    }
    assert_eq!((stack.depth, stack.overflow), (8, 2));
    assert_eq!(pop_latency_sample(&mut stack), (0, -1));
    assert_eq!(pop_latency_sample(&mut stack), (0, -1));
    assert_eq!(pop_latency_sample(&mut stack), (107, 7));
    assert_eq!((stack.depth, stack.overflow), (7, 0));
}

#[test]
fn overflow_stays_at_its_limit() {
    let mut stack = LatencyStack::new();
    stack.depth = 8;
    stack.overflow = u32::MAX;
    push_latency_sample(&mut stack, 1, 1);
    assert_eq!(stack.overflow, u32::MAX);
}

#[test]
fn histograms_get_one_event_more() {
    let first = update_hist(None, 5);
    assert_eq!((first.total, first.data[2]), (5, 1));
    let second = update_hist(Some(first), 6);
    assert_eq!((second.total, second.data[2]), (11, 2));
    let empty = update_hist(None, 0);
    assert_eq!((empty.total, empty.data), (0, Histogram::new().data));
}
