//! Reports on what was collected.

use jeprofl::aggregator::StatsAggregator;
use jeprofl::common::{Histogram, HistogramKey, UnpackedHistogramKey};
use jeprofl::model::{MetricKind, MetricSpec, OrderBy};
use jeprofl::report::csv::{self, fields_of, format_trace, headers, write_entries};
use jeprofl::report::flame::{self, plan_entries, FlameError, FlamePlan, FoldedStack};
use jeprofl::report::pretty::{
    entry_scales, render, render_entries, write_histogram, RowScale,
};
use jeprofl::report::{
    is_countable, keep_with_events, listing, ranked, sort, unpacked, weigh, Entry,
};
use jeprofl::resolver::{FrameSymbol, ResolvedStackTrace};

fn scale(count: u64, max: u64, total: u64) -> RowScale {
    let percentage = if total == 0 { 0.0 } else { (count as f64 / total as f64) * 100.0 };
    RowScale {
        percentage: format!("{percentage:.2}"),
        bar_length: ((count as f64 / max as f64) * 50.0).round() as usize,
    }
}

fn histogram(values: &[u64]) -> Histogram {
    let mut histogram = Histogram::new();
    for value in values {
        histogram.increment(*value);
    }
    histogram
}

fn word(pid: u32, stack_id: u32) -> u64 {
    HistogramKey::new(pid, stack_id).to_word()
}

fn trace(frames: &[(u64, &str)]) -> ResolvedStackTrace {
    ResolvedStackTrace {
        symbols: frames
            .iter()
            .map(|(address, name)| FrameSymbol { address: *address, symbol: String::from(*name) })
            .collect(),
    }
}

/// One stack with three small events, one with a single large one, and one without events;
/// only the first has symbols.
fn collected() -> StatsAggregator {
    let mut aggregator = StatsAggregator::new(MetricSpec::new(MetricKind::Count, 0, 0));
    let key = |pid: u32, stack_id: u32| UnpackedHistogramKey { pid, stack_id };
    aggregator.ingest_snapshot(key(7, 1), &histogram(&[1, 1, 1]), 0);
    aggregator.ingest_snapshot(key(7, 2), &histogram(&[1000]), 0);
    let mut without_events = Histogram::new();
    without_events.total = 5;
    aggregator.ingest_snapshot(key(7, 3), &without_events, 0);
    aggregator
        .finish_resolution(1, Ok(trace(&[(0x6ae5a0, "malloc"), (0xa7f00, "_start")])))
        .expect("resolved");
    aggregator
}

fn table(values: &[u64]) -> String {
    let mut text = String::new();
    write_histogram(
        &histogram(values),
        &mut text,
        MetricSpec::new(MetricKind::Count, 0, 0),
        &scale,
    );
    text
}

#[test]
fn stacks_are_rendered_by_count() {
    let aggregator = collected();
    let mut text = String::from("> ");
    render(&mut text, &aggregator.merged(), OrderBy::Count, &aggregator, &scale);
    let expected = [
        String::from("> total stack traces: 2\n\n"),
        format!("{}\n6ae5a0 - malloc\na7f00 - _start\n{}\n", "*".repeat(80), "-".repeat(80)),
        table(&[1, 1, 1]),
        format!("\n{}\nNo resolved stacktrace\n{}\n", "*".repeat(80), "-".repeat(80)),
        table(&[1000]),
        String::from("\n"),
    ];
    assert_eq!(text, expected.concat());
}

#[test]
fn stacks_are_rendered_by_traffic() {
    let aggregator = collected();
    let mut text = String::new();
    render(&mut text, &aggregator.merged(), OrderBy::Traffic, &aggregator, &scale);
    let large = text.find(&table(&[1000])).expect("large stack");
    let small = text.find(&table(&[1, 1, 1])).expect("small stack");
    assert!(large < small);
}

#[test]
fn nothing_collected_gives_an_empty_report() {
    let aggregator = StatsAggregator::new(MetricSpec::new(MetricKind::Count, 0, 0));
    let mut text = String::new();
    render(&mut text, &aggregator.merged(), OrderBy::Count, &aggregator, &scale);
    assert_eq!(text, "total stack traces: 0\n\n");
}

#[test]
fn entries_are_rendered_in_the_given_order() {
    let aggregator = collected();
    let (a, b) = (histogram(&[1]), histogram(&[2, 2]));
    let entries = vec![
        Entry { word: word(9, 5), hist: &a },
        Entry { word: word(9, 1), hist: &b },
    ];
    let scales = entry_scales(&entries, &scale);
    let mut text = String::new();
    render_entries(&mut text, &entries, &scales, &aggregator);
    let expected = [
        format!(
            "total stack traces: 2\n\n{}\nNo resolved stacktrace\n{}\n",
            "*".repeat(80),
            "-".repeat(80)
        ),
        table(&[1]),
        format!(
            "\n{}\n6ae5a0 - malloc\na7f00 - _start\n{}\n",
            "*".repeat(80),
            "-".repeat(80)
        ),
        table(&[2, 2]),
        String::from("\n"),
    ];
    assert_eq!(text, expected.concat());
}

#[test]
fn heavier_items_come_first() {
    assert_eq!(ranked(&vec![5, 9, 5, 7], true), vec![1, 3, 2, 0]);
    assert_eq!(ranked(&vec![5, 9, 5, 7], false), vec![1, 3, 0, 2]);
    assert_eq!(ranked(&vec![], true), Vec::<usize>::new());
    assert_eq!(ranked(&vec![1, 1, 1, 1, 1], true), vec![4, 3, 2, 1, 0]);
    assert_eq!(ranked(&vec![1, 2, 3, 4, 5, 6, 7], false), vec![6, 5, 4, 3, 2, 1, 0]);
}

#[test]
fn entries_are_sorted_by_their_weight() {
    let (few, many, none) = (histogram(&[100]), histogram(&[2, 2]), Histogram::new());
    let entries = vec![
        Entry { word: 1, hist: &few },
        Entry { word: 2, hist: &many },
        Entry { word: 3, hist: &none },
    ];
    let words = |sorted: Vec<Entry>| sorted.iter().map(|entry| entry.word).collect::<Vec<u64>>();
    assert_eq!(words(sort(&entries, OrderBy::Count, true)), vec![2, 1, 3]);
    assert_eq!(words(sort(&entries, OrderBy::Traffic, true)), vec![1, 2, 3]);
    assert_eq!(words(keep_with_events(&entries)), vec![1, 2]);
    assert_eq!(weigh(OrderBy::Count, &many), 2);
    assert_eq!(weigh(OrderBy::Traffic, &many), 4);
}

#[test]
fn listings_hold_every_stack_once() {
    let merged = collected().merged();
    let mut words: Vec<u64> = listing(&merged).iter().map(|entry| entry.word).collect();
    words.sort();
    assert_eq!(words, vec![word(7, 1), word(7, 2), word(7, 3)]);
    let parts = unpacked(word(7, 3));
    assert_eq!((parts.pid, parts.stack_id), (7, 3));
}

#[test]
fn counts_that_do_not_fit_are_found() {
    let mut merged = collected().merged();
    assert!(is_countable(&merged));
    let mut large = Histogram::new();
    large.data[0] = u64::MAX;
    large.data[1] = 1;
    merged.insert(word(1, 1), large);
    assert!(!is_countable(&merged));
}

#[test]
fn files_hold_every_stack_by_total() {
    let aggregator = collected();
    let text = csv::write(&aggregator.merged(), &aggregator, &scale);
    let mut empty = String::new();
    let mut without_events = Histogram::new();
    without_events.total = 5;
    write_histogram(
        &without_events,
        &mut empty,
        MetricSpec::new(MetricKind::Count, 0, 0),
        &scale,
    );
    let expected = [
        String::from("pid,stack_id,total,count,histogram,stacktrace\n"),
        format!("7,2,1000,1,\"{}\",No resolved stacktrace\n", table(&[1000])),
        format!("7,3,5,0,\"{empty}\",No resolved stacktrace\n"),
        format!("7,1,3,3,\"{}\",\"6ae5a0 - malloc\na7f00 - _start\"\n", table(&[1, 1, 1])),
    ];
    assert_eq!(text, expected.concat());
}

#[test]
fn quotes_in_fields_are_doubled() {
    let mut aggregator = StatsAggregator::new(MetricSpec::new(MetricKind::Count, 0, 0));
    aggregator
        .finish_resolution(1, Ok(trace(&[(1, "operator\"\" _x"), (2, "f(int, int)")])))
        .expect("resolved");
    let hist = histogram(&[1]);
    let entries = vec![Entry { word: word(2, 1), hist: &hist }];
    let scales = entry_scales(&entries, &scale);
    let text = write_entries(&entries, &scales, &aggregator);
    let expected = format!(
        "pid,stack_id,total,count,histogram,stacktrace\n2,1,1,1,\"{}\",\"1 - operator\"\"\"\" _x\n2 - f(int, int)\"\n",
        table(&[1])
    );
    assert_eq!(text, expected);
    let trace = "1 - operator\"\" _x\n2 - f(int, int)";
    assert_eq!(fields_of(&entries[0], &scales[0], &aggregator)[5], trace);
    let field = text.rsplit(",\"1").next().and_then(|rest| rest.strip_suffix("\"\n"));
    assert_eq!(field.map(|rest| format!("1{}", rest.replace("\"\"", "\""))).as_deref(), Some(trace));
}

#[test]
fn a_single_frame_needs_no_quotes() {
    let mut aggregator = StatsAggregator::new(MetricSpec::new(MetricKind::Count, 0, 0));
    aggregator.finish_resolution(1, Ok(trace(&[(255, "main")]))).expect("resolved");
    let hist = histogram(&[1]);
    let entry = Entry { word: word(2, 1), hist: &hist };
    let scales = entry_scales(&vec![entry], &scale);
    let fields = fields_of(&entry, &scales[0], &aggregator);
    assert_eq!(fields[5], "ff - main");
    let text = write_entries(&vec![entry], &scales, &aggregator);
    assert!(text.ends_with("\",ff - main\n"));
}

#[test]
fn columns_and_traces_of_files() {
    assert_eq!(
        headers(),
        vec!["pid", "stack_id", "total", "count", "histogram", "stacktrace"]
    );
    assert_eq!(format_trace(None), "No resolved stacktrace");
    assert_eq!(format_trace(Some(&trace(&[]))), "");
    assert_eq!(format_trace(Some(&trace(&[(10, "a"), (11, "b")]))), "a - a\nb - b");
}

#[test]
fn stacks_with_symbols_and_weight_are_drawn() {
    let aggregator = collected();
    let plan = flame::plan(&aggregator.merged(), &aggregator, OrderBy::Count);
    assert_eq!(plan.stacks.len(), 1);
    assert_eq!(plan.stacks[0].line, "malloc;_start 3");
    assert_eq!(plan.stacks[0].stack, "malloc;_start");
    assert_eq!(plan.stacks[0].weight, 3);
    assert_eq!(plan.count_name, "event count");
    assert!(plan.reverse_stack_order);
    let plan = flame::plan(&aggregator.merged(), &aggregator, OrderBy::Traffic);
    assert_eq!(plan.count_name, "count");
}

#[test]
fn stacks_without_weight_are_not_drawn() {
    let aggregator = collected();
    let mut no_traffic = Histogram::new();
    no_traffic.data[0] = 4;
    let entries = vec![Entry { word: word(7, 1), hist: &no_traffic }];
    assert!(plan_entries(&entries, &aggregator, OrderBy::Traffic).stacks.is_empty());
    assert_eq!(plan_entries(&entries, &aggregator, OrderBy::Count).stacks[0].line, "malloc;_start 4");
}

fn drawing(stacks: &[(&str, u64)]) -> FlamePlan {
    FlamePlan {
        stacks: stacks
            .iter()
            .map(|(stack, weight)| FoldedStack {
                line: format!("{stack} {weight}"),
                stack: String::from(*stack),
                weight: *weight,
            })
            .collect(),
        count_name: String::from("event count"),
        reverse_stack_order: true,
    }
}

#[test]
fn a_flame_graph_is_an_svg_picture() {
    let aggregator = collected();
    let plan = flame::plan(&aggregator.merged(), &aggregator, OrderBy::Count);
    assert!(plan.is_drawable());
    let svg = flame::write(&plan).expect("drawn").expect("a stack to draw");
    let text = String::from_utf8(svg).expect("text");
    assert!(text.contains("<svg"));
    assert!(text.contains("malloc (3 event count, 100.00%)"));
    assert!(text.contains("_start (3 event count, 100.00%)"));
}

#[test]
fn what_was_drawn_is_written() {
    assert!(matches!(flame::drawn(vec![1, 2], Ok(())), Ok(Some(bytes)) if bytes == [1, 2]));
    let failed = flame::drawn(vec![3], Err(std::io::Error::other("unfit")));
    match failed {
        Err(FlameError::Draw { error, written }) => {
            assert_eq!(error.to_string(), "unfit");
            assert_eq!(written, vec![3]);
        }
        Ok(_) => panic!("nothing was drawn"),
    }
}

#[test]
fn nothing_is_drawn_of_no_stack() {
    let plan = drawing(&[]);
    assert!(plan.is_drawable());
    assert!(matches!(flame::write(&plan), Ok(None)));
}

#[test]
fn a_stack_without_names_cannot_be_drawn() {
    let plan = drawing(&[("", 5)]);
    assert!(plan.is_drawable());
    match flame::write(&plan) {
        Err(FlameError::Draw { error, written }) => {
            assert_eq!(error.to_string(), "No stack counts found");
            let text = String::from_utf8(written).expect("text");
            assert!(text.contains("ERROR: No valid input provided to flamegraph"));
        }
        Ok(_) => panic!("there is nothing to draw"),
    }
}

#[test]
fn the_unit_and_the_order_show_in_the_picture() {
    let mut plan = drawing(&[("inner;outer", 7)]);
    plan.count_name = String::from("time (ns)");
    let svg = flame::write(&plan).expect("drawn").expect("a stack to draw");
    let text = String::from_utf8(svg).expect("text");
    assert!(text.contains("inner (7 time (ns), 100.00%)"));
    let outer = text.find("outer (7").expect("outer frame");
    let inner = text.find("inner (7").expect("inner frame");
    assert!(outer < inner);
    let svg = flame::write(&drawing(&[("outer;inner", 7)])).expect("drawn").expect("a stack");
    let text = String::from_utf8(svg).expect("text");
    let outer = text.find("outer (7").expect("outer frame");
    let inner = text.find("inner (7").expect("inner frame");
    assert!(inner < outer);
}

#[test]
fn stacks_too_heavy_together_cannot_be_drawn() {
    assert!(drawing(&[("a", u64::MAX)]).is_drawable());
    assert!(!drawing(&[("a", u64::MAX), ("b", 1)]).is_drawable());
}

#[test]
fn two_weights_have_to_be_close() {
    let limit = isize::MAX as u64 / 150;
    assert!(drawing(&[("foo 1234567", 1000)]).is_drawable());
    for stack in ["foo 7", "foo 7;bar", "foo 7 ;bar", "foo 7\t", "a;foo 7", "a; 7", " foo 7.25"] {
        assert!(drawing(&[(stack, limit + 7)]).is_drawable(), "{stack}");
        assert!(!drawing(&[(stack, limit + 8)]).is_drawable(), "{stack}");
    }
    assert!(drawing(&[(&format!("foo {}", limit + 1), 1)]).is_drawable());
    assert!(!drawing(&[(&format!("foo {}", limit + 2), 1)]).is_drawable());
}

#[test]
fn two_weights_have_to_be_signed_numbers() {
    let max = isize::MAX as u64;
    assert!(drawing(&[(&format!("foo {max}"), max)]).is_drawable());
    assert!(!drawing(&[(&format!("foo {}", max + 1), max)]).is_drawable());
    assert!(!drawing(&[(&format!("foo {max}"), max + 1)]).is_drawable());
    assert!(!drawing(&[(&format!("foo {}", u64::MAX), u64::MAX)]).is_drawable());
}

#[test]
fn other_numbers_in_a_stack_do_not_matter() {
    let stacks = [
        "foo",
        "12",
        " 12",
        "12;bar",
        "a;foo 7;bar",
        "<[u8; 12] as Foo>::bar;baz",
        "foo .5",
        "foo 1.2.3",
        "foo 7x",
        "foo 99999999999999999999",
        "foo 7;bar 99999999999999999999",
        "a;foo 7 ",
        "",
    ];
    for stack in stacks {
        assert!(drawing(&[(stack, u64::MAX)]).is_drawable(), "{stack}");
    }
}

#[test]
fn stacks_with_second_weights_are_drawn() {
    let limit = isize::MAX as u64 / 150;
    let plan = drawing(&[
        ("foo 1234567", 1000),
        ("bar 999999", 7),
        ("12;x", 8),
        ("a 5 ;b", limit),
        ("y;z 0", limit),
        (&format!("w {limit}"), 0),
        ("tab 7\t", limit),
    ]);
    assert!(plan.is_drawable());
    assert!(flame::write(&plan).is_ok());
}

#[test]
fn the_largest_second_weights_are_drawn() {
    let max = isize::MAX as u64;
    let limit = max / 150;
    let plan = drawing(&[
        (&format!("up {}", max - limit), max),
        (&format!("down {max}"), max - limit),
        ("even 3", 3),
        ("more 3", 4),
    ]);
    assert!(plan.is_drawable());
    assert!(flame::write(&plan).is_ok());
}

#[test]
fn a_number_before_trailing_space_is_no_second_weight() {
    let plan = drawing(&[("a;foo 9000000000000000000 ", 5), ("b 3", 2)]);
    assert!(plan.is_drawable());
    assert!(flame::write(&plan).is_ok());
}
