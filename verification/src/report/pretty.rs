//! Histograms and stack traces as text.

use crate::aggregator::StatsAggregator;
use crate::common::{Counts, Histogram, HISTOGRAM_BUCKETS};
use crate::model::{MetricKind, MetricSpec, OrderBy};
use crate::report::{keep_with_events, listing, sort, unpacked, Entry};
use crate::resolver::{Frame, FrameSymbol, ResolvedStackTrace};
use crate::text::{
    owned, push_decimal, push_hex, push_left_aligned, push_repeated, push_right_aligned,
};
use jiff::fmt::friendly::{Designator, FractionalUnit, SpanPrinter};
use jiff::Span;
use rustc_hash::FxHashMap;
use vstd::arithmetic::power2;
use vstd::prelude::*;

verus! {

pub const SECTION_WIDTH: usize = 80;

pub const BAR_WIDTH: usize = 50;

pub const LABEL_WIDTH_DURATION: usize = 24;

pub const HUMAN_WIDTH: usize = 18;

pub const LABEL_WIDTH_COUNT: usize = 10;

pub const COUNT_WIDTH: usize = 9;

pub const PERCENT_WIDTH: usize = 9;

pub const PERCENT_NUMBER_WIDTH: usize = PERCENT_WIDTH - 1;

/// A line of `fill`.
pub open spec fn section(fill: char) -> Seq<char> {
    crate::text::repeated(fill, SECTION_WIDTH as nat).push('\n')
}

/// Writes a line of `fill`.
pub fn write_section(writer: &mut String, fill: char)
    ensures
        final(writer)@ == old(writer)@ + section(fill),
{
    push_repeated(writer, fill, SECTION_WIDTH);
    writer.push('\n');
    assert(writer@ =~= old(writer)@ + section(fill));
}

/// The largest value that falls into a bucket.
pub open spec fn upper_bound(bucket: int) -> u64 {
    if bucket + 1 >= HISTOGRAM_BUCKETS {
        u64::MAX
    } else {
        (power2::pow2((bucket + 1) as nat) - 1) as u64
    }
}

/// The largest value that falls into a bucket.
pub fn bucket_upper_bound(index: usize) -> (bound: u64)
    requires
        index < usize::MAX,
    ensures
        bound == upper_bound(index as int),
{
    if index + 1 >= HISTOGRAM_BUCKETS {
        u64::MAX
    } else {
        let shift: u64 = index as u64 + 1;
        proof {
            power2::lemma_pow2_strictly_increases(shift as nat, 64);
            power2::lemma2_to64_rest();
            power2::lemma_pow2_pos(shift as nat);
            vstd::bits::lemma_u64_shl_is_mul(1, shift);
        }
        (1u64 << shift) - 1
    }
}

/// A value is at most the bound of its bucket, and above the bound of the bucket below.
pub proof fn law_bound_of_bucket_of_value(value: u64)
    requires
        value > 0,
    ensures
        value <= upper_bound(crate::common::bucket_of(value)),
        crate::common::bucket_of(value) > 0 ==> value > upper_bound(
            crate::common::bucket_of(value) - 1,
        ),
{
    let bucket = crate::common::bucket_of(value);
    crate::common::law_bucket_brackets_value(value);
    assert forall|n: nat| n < 64 implies 0 < #[trigger] power2::pow2(n) <= u64::MAX by {
        power2::lemma_pow2_strictly_increases(n, 64);
        power2::lemma2_to64_rest();
        power2::lemma_pow2_pos(n);
    }
    assert(0 < power2::pow2((bucket + 1) as nat) <= u64::MAX);
    assert(0 < power2::pow2(bucket as nat) <= u64::MAX);
}

/// Nanoseconds as seconds: the whole ones, and the digits of the rest, where there is one,
/// behind a point.
pub open spec fn span_text(ns: nat) -> Seq<char> {
    let rest = ns % 1_000_000_000;
    crate::text::decimal(ns / 1_000_000_000) + (if rest == 0 {
        seq![]
    } else {
        seq!['.'] + crate::text::without_trailing_zeros(crate::text::low_digits(rest, 9))
    }) + "s"@
}

/// `SpanPrinter::span_to_string` writes a span of nanoseconds, with the designators of
/// `Designator::HumanTime` and fractional seconds, as so many seconds: the whole ones, up to
/// nine digits of the rest without trailing zeros, and the letter s.
#[verifier::external_body]
fn print_span(ns: i64) -> (text: String)
    requires
        ns >= 0,
    ensures
        text@ == span_text(ns as nat),
{
    SpanPrinter::new().designator(Designator::HumanTime).fractional(
        Some(FractionalUnit::Second),
    ).span_to_string(&Span::new().nanoseconds(ns))
}

/// A number of nanoseconds as people write it, where a span can hold it.
pub open spec fn human(ns: u64) -> Option<Seq<char>> {
    if ns > i64::MAX {
        None
    } else {
        Some(span_text(ns as nat))
    }
}

/// The text of an optional string.
pub open spec fn text_of(text: Option<String>) -> Option<Seq<char>> {
    match text {
        Some(text) => Some(text@),
        None => None,
    }
}

/// A number of nanoseconds as people write it, where a span can hold it.
pub fn humanize_ns(ns: u64) -> (text: Option<String>)
    ensures
        text_of(text) == human(ns),
{
    if ns > i64::MAX as u64 {
        return None;
    }
    Some(print_span(ns as i64))
}

/// The label of a bucket with this bound.
pub open spec fn bound_text(bound: u64) -> Seq<char> {
    "<="@ + crate::text::decimal(bound as nat)
}

/// The label of a bucket with this bound.
pub fn format_bound(bound: u64) -> (text: String)
    ensures
        text@ == bound_text(bound),
{
    let mut text = String::new();
    text.append("<=");
    push_decimal(&mut text, bound);
    assert(text@ =~= bound_text(bound));
    text
}

/// A duration that has no text is shown as a dash.
pub open spec fn human_or_dash(human: Option<Seq<char>>) -> Seq<char> {
    match human {
        Some(text) => text,
        None => "-"@,
    }
}

/// The two labels of a bucket of durations, given how people write its bound.
pub fn duration_labels(ns: u64, human: Option<String>) -> (labels: (String, String))
    ensures
        labels.0@ == bound_text(ns),
        labels.1@ == human_or_dash(text_of(human)),
{
    let absolute = format_bound(ns);
    let human = match human {
        Some(text) => text,
        None => owned("-"),
    };
    (absolute, human)
}

/// The two labels of a bucket of durations.
pub fn format_duration_bucket(ns: u64) -> (labels: (String, String))
    ensures
        labels.0@ == bound_text(ns),
        labels.1@ == human_or_dash(human(ns)),
{
    let human = humanize_ns(ns);
    duration_labels(ns, human)
}

/// A total duration in brackets, or nothing where it has no text.
pub open spec fn in_brackets(human: Option<Seq<char>>) -> Seq<char> {
    match human {
        Some(text) => " ("@ + text + ")"@,
        None => seq![],
    }
}

/// A total duration in brackets, given how people write it.
pub fn total_label(human: Option<String>) -> (text: String)
    ensures
        text@ == in_brackets(text_of(human)),
{
    let mut text = String::new();
    if let Some(value) = human {
        text.append(" (");
        text.append(value.as_str());
        text.append(")");
        assert(text@ =~= " ("@ + value@ + ")"@);
    }
    text
}

/// A total duration in brackets.
pub fn total_human_time(total_ns: u64) -> (text: String)
    ensures
        text@ == in_brackets(human(total_ns)),
{
    let human = humanize_ns(total_ns);
    total_label(human)
}

/// A number of percent, filled up to its column.
pub open spec fn percent_cell(percentage: Seq<char>) -> Seq<char> {
    crate::text::right_aligned(
        crate::text::right_aligned(percentage, PERCENT_NUMBER_WIDTH as nat).push('%'),
        PERCENT_WIDTH as nat,
    )
}

fn push_percent_cell(writer: &mut String, percentage: &str)
    ensures
        final(writer)@ == old(writer)@ + percent_cell(percentage@),
{
    let mut cell = String::new();
    push_right_aligned(&mut cell, percentage, PERCENT_NUMBER_WIDTH);
    cell.push('%');
    assert(cell@ =~= crate::text::right_aligned(
        percentage@,
        PERCENT_NUMBER_WIDTH as nat,
    ).push('%'));
    push_right_aligned(writer, cell.as_str(), PERCENT_WIDTH);
}

/// The columns behind the labels: count, percentage and bar.
pub open spec fn measure_columns(count: u64, percentage: Seq<char>, bar_length: nat) -> Seq<char> {
    " | "@ + crate::text::right_aligned(crate::text::decimal(count as nat), COUNT_WIDTH as nat)
        + " | "@ + percent_cell(percentage) + " | "@ + crate::text::repeated('#', bar_length) + "\n"@
}

fn push_measure_columns(writer: &mut String, count: u64, percentage: &str, bar_length: usize)
    ensures
        final(writer)@ == old(writer)@ + measure_columns(count, percentage@, bar_length as nat),
{
    let mut number = String::new();
    push_decimal(&mut number, count);
    assert(number@ =~= crate::text::decimal(count as nat));
    writer.append(" | ");
    push_right_aligned(writer, number.as_str(), COUNT_WIDTH);
    writer.append(" | ");
    push_percent_cell(writer, percentage);
    writer.append(" | ");
    push_repeated(writer, '#', bar_length);
    writer.append("\n");
    assert(writer@ =~= old(writer)@ + measure_columns(count, percentage@, bar_length as nat));
}

/// The columns of the header behind the labels.
pub open spec fn header_columns() -> Seq<char> {
    " | "@ + crate::text::right_aligned("Count"@, COUNT_WIDTH as nat) + " | "@
        + crate::text::right_aligned("Percentage"@, PERCENT_WIDTH as nat) + " | "@
        + crate::text::repeated('#', BAR_WIDTH as nat) + "\n"@
}

fn push_header_columns(writer: &mut String)
    ensures
        final(writer)@ == old(writer)@ + header_columns(),
{
    writer.append(" | ");
    push_right_aligned(writer, "Count", COUNT_WIDTH);
    writer.append(" | ");
    push_right_aligned(writer, "Percentage", PERCENT_WIDTH);
    writer.append(" | ");
    push_repeated(writer, '#', BAR_WIDTH);
    writer.append("\n");
    assert(writer@ =~= old(writer)@ + header_columns());
}

/// The columns of the line under the header behind the labels.
pub open spec fn rule_columns() -> Seq<char> {
    "+"@ + crate::text::repeated('-', (COUNT_WIDTH + 2) as nat) + "+"@ + crate::text::repeated(
        '-',
        (PERCENT_WIDTH + 2) as nat,
    ) + "+"@ + crate::text::repeated('-', BAR_WIDTH as nat) + "\n"@
}

fn push_rule_columns(writer: &mut String)
    ensures
        final(writer)@ == old(writer)@ + rule_columns(),
{
    writer.append("+");
    push_repeated(writer, '-', COUNT_WIDTH + 2);
    writer.append("+");
    push_repeated(writer, '-', PERCENT_WIDTH + 2);
    writer.append("+");
    push_repeated(writer, '-', BAR_WIDTH);
    writer.append("\n");
    assert(writer@ =~= old(writer)@ + rule_columns());
}

/// The head of a table of durations.
pub open spec fn duration_header() -> Seq<char> {
    crate::text::left_aligned("≤UpperBound (ns)"@, LABEL_WIDTH_DURATION as nat) + " | "@
        + crate::text::left_aligned("Human"@, HUMAN_WIDTH as nat) + header_columns()
        + crate::text::repeated('-', LABEL_WIDTH_DURATION as nat) + "+"@ + crate::text::repeated(
        '-',
        (HUMAN_WIDTH + 2) as nat,
    ) + rule_columns()
}

/// Writes the head of a table of durations.
pub fn write_duration_header(writer: &mut String)
    ensures
        final(writer)@ == old(writer)@ + duration_header(),
{
    push_left_aligned(writer, "≤UpperBound (ns)", LABEL_WIDTH_DURATION);
    writer.append(" | ");
    push_left_aligned(writer, "Human", HUMAN_WIDTH);
    push_header_columns(writer);
    push_repeated(writer, '-', LABEL_WIDTH_DURATION);
    writer.append("+");
    push_repeated(writer, '-', HUMAN_WIDTH + 2);
    push_rule_columns(writer);
    assert(writer@ =~= old(writer)@ + duration_header());
}

/// A row of a table of durations.
pub open spec fn duration_row(
    absolute: Seq<char>,
    human: Seq<char>,
    count: u64,
    percentage: Seq<char>,
    bar_length: nat,
) -> Seq<char> {
    crate::text::left_aligned(absolute, LABEL_WIDTH_DURATION as nat) + " | "@
        + crate::text::left_aligned(human, HUMAN_WIDTH as nat) + measure_columns(
        count,
        percentage,
        bar_length,
    )
}

/// Writes a row of a table of durations.
pub fn write_duration_row(
    writer: &mut String,
    absolute: &str,
    human: &str,
    count: u64,
    percentage: &str,
    bar_length: usize,
)
    ensures
        final(writer)@ == old(writer)@ + duration_row(
            absolute@,
            human@,
            count,
            percentage@,
            bar_length as nat,
        ),
{
    push_left_aligned(writer, absolute, LABEL_WIDTH_DURATION);
    writer.append(" | ");
    push_left_aligned(writer, human, HUMAN_WIDTH);
    push_measure_columns(writer, count, percentage, bar_length);
    assert(writer@ =~= old(writer)@ + duration_row(
        absolute@,
        human@,
        count,
        percentage@,
        bar_length as nat,
    ));
}

/// The head of a table of counts.
pub open spec fn count_header() -> Seq<char> {
    crate::text::left_aligned("≤UpperBound"@, LABEL_WIDTH_COUNT as nat) + header_columns()
        + crate::text::repeated('-', LABEL_WIDTH_COUNT as nat) + rule_columns()
}

/// Writes the head of a table of counts.
pub fn write_count_header(writer: &mut String)
    ensures
        final(writer)@ == old(writer)@ + count_header(),
{
    push_left_aligned(writer, "≤UpperBound", LABEL_WIDTH_COUNT);
    push_header_columns(writer);
    push_repeated(writer, '-', LABEL_WIDTH_COUNT);
    push_rule_columns(writer);
    assert(writer@ =~= old(writer)@ + count_header());
}

/// A row of a table of counts.
pub open spec fn count_row(
    absolute: Seq<char>,
    count: u64,
    percentage: Seq<char>,
    bar_length: nat,
) -> Seq<char> {
    crate::text::left_aligned(absolute, LABEL_WIDTH_COUNT as nat) + measure_columns(
        count,
        percentage,
        bar_length,
    )
}

/// Writes a row of a table of counts.
pub fn write_count_row(
    writer: &mut String,
    absolute: &str,
    count: u64,
    percentage: &str,
    bar_length: usize,
)
    ensures
        final(writer)@ == old(writer)@ + count_row(
            absolute@,
            count,
            percentage@,
            bar_length as nat,
        ),
{
    push_left_aligned(writer, absolute, LABEL_WIDTH_COUNT);
    push_measure_columns(writer, count, percentage, bar_length);
    assert(writer@ =~= old(writer)@ + count_row(absolute@, count, percentage@, bar_length as nat));
}

/// A bucket that is not empty.
#[derive(Clone, Copy, Debug, PartialEq, Eq, Structural)]
pub struct Row {
    pub bucket: usize,
    pub count: u64,
}

/// How a row measures up to the others: its percentage with two decimals, and the length of
/// its bar.
#[derive(Clone, Debug)]
pub struct RowScale {
    pub percentage: String,
    pub bar_length: usize,
}

/// Of the first `n` buckets those that are not empty, in order.
pub open spec fn rows_before(buckets: Seq<u64>, n: int) -> Seq<Row>
    decreases n,
{
    if n <= 0 {
        seq![]
    } else if buckets[n - 1] > 0 {
        rows_before(buckets, n - 1).push(Row { bucket: (n - 1) as usize, count: buckets[n - 1] })
    } else {
        rows_before(buckets, n - 1)
    }
}

/// The buckets that are not empty, in order.
pub open spec fn rows(counts: Counts) -> Seq<Row> {
    rows_before(counts.buckets, counts.buckets.len() as int)
}

proof fn lemma_row_buckets(buckets: Seq<u64>, n: int)
    requires
        n <= HISTOGRAM_BUCKETS,
    ensures
        forall|i: int|
            0 <= i < rows_before(buckets, n).len() ==> (#[trigger] rows_before(buckets, n)[i]).bucket
                < HISTOGRAM_BUCKETS,
    decreases n,
{
    if n > 0 {
        lemma_row_buckets(buckets, n - 1);
        assert forall|i: int| 0 <= i < rows_before(buckets, n).len() implies (
        #[trigger] rows_before(buckets, n)[i]).bucket < HISTOGRAM_BUCKETS by {
            if i < rows_before(buckets, n - 1).len() {
                assert(rows_before(buckets, n)[i] == rows_before(buckets, n - 1)[i]);
            }
        }
    }
}

/// The buckets that are not empty, in order.
pub fn histogram_rows(hist: &Histogram) -> (out: Vec<Row>)
    ensures
        out@ == rows(hist@),
{
    let mut out: Vec<Row> = Vec::new();
    let mut i: usize = 0;
    while i < HISTOGRAM_BUCKETS
        invariant
            i <= HISTOGRAM_BUCKETS,
            out@ == rows_before(hist.data@, i as int),
        decreases HISTOGRAM_BUCKETS - i,
    {
        if hist.data[i] > 0 {
            out.push(Row { bucket: i, count: hist.data[i] });
        }
        i += 1;
    }
    out
}

/// The highest count of the rows; one where there is no row.
pub open spec fn highest(rows: Seq<Row>) -> u64
    decreases rows.len(),
{
    if rows.len() == 0 {
        1
    } else if rows.last().count > highest(rows.drop_last()) {
        rows.last().count
    } else {
        highest(rows.drop_last())
    }
}

/// The highest count of the rows; one where there is no row.
pub fn max_count(rows: &Vec<Row>) -> (max: u64)
    ensures
        max == highest(rows@),
{
    let mut max: u64 = 1;
    let mut i: usize = 0;
    while i < rows.len()
        invariant
            i <= rows@.len(),
            max == highest(rows@.take(i as int)),
        decreases rows@.len() - i,
    {
        assert(rows@.take(i + 1).drop_last() =~= rows@.take(i as int));
        if rows[i].count > max {
            max = rows[i].count;
        }
        i += 1;
    }
    assert(rows@.take(i as int) =~= rows@);
    max
}

/// A row as text.
pub open spec fn row_text(kind: MetricKind, row: Row, scale: RowScale) -> Seq<char> {
    let bound = upper_bound(row.bucket as int);
    match kind {
        MetricKind::Duration => duration_row(
            bound_text(bound),
            human_or_dash(human(bound)),
            row.count,
            scale.percentage@,
            scale.bar_length as nat,
        ),
        MetricKind::Count => count_row(
            bound_text(bound),
            row.count,
            scale.percentage@,
            scale.bar_length as nat,
        ),
    }
}

/// The first `n` rows as text.
pub open spec fn rows_text(
    kind: MetricKind,
    rows: Seq<Row>,
    scales: Seq<RowScale>,
    n: int,
) -> Seq<char>
    decreases n,
{
    if n <= 0 {
        seq![]
    } else {
        rows_text(kind, rows, scales, n - 1) + row_text(kind, rows[n - 1], scales[n - 1])
    }
}

/// The head of a table.
pub open spec fn header(kind: MetricKind) -> Seq<char> {
    match kind {
        MetricKind::Duration => duration_header(),
        MetricKind::Count => count_header(),
    }
}

/// The line under a table.
pub open spec fn total_line(counts: Counts, metric: MetricSpec) -> Seq<char> {
    "Total "@ + metric.value_label@ + ": "@ + crate::text::decimal(counts.total as nat) + (
    match metric.kind {
        MetricKind::Duration => in_brackets(human(counts.total)),
        MetricKind::Count => seq![],
    }) + " across "@ + crate::text::decimal(counts.count()) + " events\n"@
}

/// A histogram as a table.
pub open spec fn histogram_text(
    counts: Counts,
    metric: MetricSpec,
    scales: Seq<RowScale>,
) -> Seq<char> {
    header(metric.kind) + rows_text(
        metric.kind,
        rows(counts),
        scales,
        rows(counts).len() as int,
    ) + total_line(counts, metric)
}

fn write_row(writer: &mut String, kind: MetricKind, row: &Row, scale: &RowScale)
    requires
        row.bucket < usize::MAX,
    ensures
        final(writer)@ == old(writer)@ + row_text(kind, *row, *scale),
{
    let bound: u64 = bucket_upper_bound(row.bucket);
    match kind {
        MetricKind::Duration => {
            let (absolute, human) = format_duration_bucket(bound);
            write_duration_row(
                writer,
                absolute.as_str(),
                human.as_str(),
                row.count,
                scale.percentage.as_str(),
                scale.bar_length,
            );
        },
        MetricKind::Count => {
            let absolute = format_bound(bound);
            write_count_row(
                writer,
                absolute.as_str(),
                row.count,
                scale.percentage.as_str(),
                scale.bar_length,
            );
        },
    }
}

fn write_total_line(writer: &mut String, hist: &Histogram, spec: &MetricSpec, total_count: u64)
    requires
        total_count == hist@.count(),
    ensures
        final(writer)@ == old(writer)@ + total_line(hist@, *spec),
{
    writer.append("Total ");
    writer.append(spec.value_label);
    writer.append(": ");
    push_decimal(writer, hist.total);
    match spec.kind {
        MetricKind::Duration => {
            let human = total_human_time(hist.total);
            writer.append(human.as_str());
        },
        MetricKind::Count => {},
    }
    writer.append(" across ");
    push_decimal(writer, total_count);
    writer.append(" events\n");
    assert(writer@ =~= old(writer)@ + total_line(hist@, *spec));
}

/// Writes a histogram as a table, given how its rows measure up.
pub fn write_scaled_histogram(
    hist: &Histogram,
    writer: &mut String,
    spec: MetricSpec,
    scales: &Vec<RowScale>,
)
    requires
        hist@.count() <= u64::MAX,
        scales@.len() == rows(hist@).len(),
    ensures
        final(writer)@ == old(writer)@ + histogram_text(hist@, spec, scales@),
{
    let entries = histogram_rows(hist);
    let total_count: u64 = hist.total_count();
    let ghost kind = spec.kind;
    match spec.kind {
        MetricKind::Duration => write_duration_header(writer),
        MetricKind::Count => write_count_header(writer),
    }
    let mut i: usize = 0;
    assert(writer@ =~= old(writer)@ + (header(kind) + rows_text(kind, entries@, scales@, 0)));
    while i < entries.len()
        invariant
            i <= entries@.len(),
            entries@ == rows(hist@),
            scales@.len() == entries@.len(),
            kind == spec.kind,
            writer@ == old(writer)@ + (header(kind) + rows_text(
                kind,
                entries@,
                scales@,
                i as int,
            )),
        decreases entries@.len() - i,
    {
        proof {
            lemma_row_buckets(hist.data@, HISTOGRAM_BUCKETS as int);
        }
        let ghost before = writer@;
        write_row(writer, spec.kind, &entries[i], &scales[i]);
        i += 1;
        assert(writer@ =~= old(writer)@ + (header(kind) + rows_text(
            kind,
            entries@,
            scales@,
            i as int,
        )));
    }
    write_total_line(writer, hist, &spec, total_count);
    assert(writer@ =~= old(writer)@ + histogram_text(hist@, spec, scales@));
}

/// Whether `scales` may be what `scale` gives for the rows of a histogram: it is asked with
/// the count of a row, the highest count and the count of all events.
pub open spec fn scaled<F: Fn(u64, u64, u64) -> RowScale>(
    scale: F,
    counts: Counts,
    scales: Seq<RowScale>,
) -> bool {
    &&& scales.len() == rows(counts).len()
    &&& forall|i: int|
        0 <= i < scales.len() ==> call_ensures(
            scale,
            (rows(counts)[i].count, highest(rows(counts)), counts.count() as u64),
            #[trigger] scales[i],
        )
}

/// How the rows of a histogram measure up.
pub fn row_scales<F: Fn(u64, u64, u64) -> RowScale>(hist: &Histogram, scale: &F) -> (scales: Vec<
    RowScale,
>)
    requires
        hist@.count() <= u64::MAX,
        forall|count: u64, max: u64, total: u64| #[trigger]
            call_requires(*scale, (count, max, total)),
    ensures
        scaled(*scale, hist@, scales@),
{
    let entries = histogram_rows(hist);
    let max: u64 = max_count(&entries);
    let total: u64 = hist.total_count();
    let mut scales: Vec<RowScale> = Vec::new();
    let mut i: usize = 0;
    while i < entries.len()
        invariant
            i <= entries@.len(),
            forall|count: u64, max: u64, total: u64| #[trigger]
                call_requires(*scale, (count, max, total)),
            scales@.len() == i,
            forall|j: int|
                0 <= j < i ==> call_ensures(
                    *scale,
                    (entries@[j].count, max, total),
                    #[trigger] scales@[j],
                ),
        decreases entries@.len() - i,
    {
        let row_scale = scale(entries[i].count, max, total);
        scales.push(row_scale);
        i += 1;
    }
    scales
}

/// Writes a histogram as a table. `scale` says how a row measures up, from the count of the
/// row, the highest count and the count of all events.
pub fn write_histogram<F: Fn(u64, u64, u64) -> RowScale>(
    hist: &Histogram,
    writer: &mut String,
    spec: MetricSpec,
    scale: &F,
)
    requires
        hist@.count() <= u64::MAX,
        forall|count: u64, max: u64, total: u64| #[trigger]
            call_requires(*scale, (count, max, total)),
    ensures
        exists|scales: Seq<RowScale>|
            scaled(*scale, hist@, scales) && final(writer)@ == old(writer)@
                + #[trigger] histogram_text(hist@, spec, scales),
{
    let scales = row_scales(hist, scale);
    write_scaled_histogram(hist, writer, spec, &scales);
}

/// A frame as text.
pub open spec fn frame_text(frame: Frame) -> Seq<char> {
    crate::text::hex(frame.address as nat) + " - "@ + frame.symbol
}

/// Appends a frame as text.
pub fn push_frame(out: &mut String, frame: &FrameSymbol)
    ensures
        final(out)@ == old(out)@ + frame_text(frame@),
{
    push_hex(out, frame.address);
    out.append(" - ");
    out.append(frame.symbol.as_str());
    assert(out@ =~= old(out)@ + frame_text(frame@));
}

/// The first `n` frames, one a line.
pub open spec fn frame_lines(frames: Seq<Frame>, n: int) -> Seq<char>
    decreases n,
{
    if n <= 0 {
        seq![]
    } else {
        frame_lines(frames, n - 1) + frame_text(frames[n - 1]) + "\n"@
    }
}

/// A stack trace as text.
pub open spec fn trace_lines(trace: Option<Seq<Frame>>) -> Seq<char> {
    match trace {
        Some(frames) => frame_lines(frames, frames.len() as int),
        None => "No resolved stacktrace\n"@,
    }
}

fn write_trace(writer: &mut String, trace: Option<&ResolvedStackTrace>)
    ensures
        final(writer)@ == old(writer)@ + trace_lines(
            match trace {
                Some(trace) => Some(trace@),
                None => None,
            },
        ),
{
    match trace {
        Some(trace) => {
            let mut i: usize = 0;
            assert(writer@ =~= old(writer)@ + frame_lines(trace@, 0));
            while i < trace.symbols.len()
                invariant
                    i <= trace.symbols@.len(),
                    writer@ == old(writer)@ + frame_lines(trace@, i as int),
                decreases trace.symbols@.len() - i,
            {
                assert(trace@[i as int] == trace.symbols@[i as int]@);
                push_frame(writer, &trace.symbols[i]);
                writer.append("\n");
                i += 1;
                assert(writer@ =~= old(writer)@ + frame_lines(trace@, i as int));
            }
        },
        None => {
            writer.append("No resolved stacktrace\n");
        },
    }
}

/// A stack with its trace and its histogram.
pub open spec fn entry_text(
    entry: (u64, Counts),
    traces: Map<u32, Seq<Frame>>,
    metric: MetricSpec,
    scales: Seq<RowScale>,
) -> Seq<char> {
    section('*') + trace_lines(
        crate::report::trace_at(traces, crate::report::stack_of(entry.0)),
    ) + section('-') + histogram_text(entry.1, metric, scales) + "\n"@
}

fn write_entry(
    writer: &mut String,
    entry: &Entry,
    scales: &Vec<RowScale>,
    aggregator: &StatsAggregator,
)
    requires
        entry.hist@.count() <= u64::MAX,
        scales@.len() == rows(entry.hist@).len(),
    ensures
        final(writer)@ == old(writer)@ + entry_text(
            (entry.word, entry.hist@),
            aggregator@.traces,
            aggregator.metric(),
            scales@,
        ),
{
    write_section(writer, '*');
    write_trace(writer, aggregator.resolved(unpacked(entry.word).stack_id));
    write_section(writer, '-');
    write_scaled_histogram(entry.hist, writer, aggregator.spec(), scales);
    writer.append("\n");
    assert(writer@ =~= old(writer)@ + entry_text(
        (entry.word, entry.hist@),
        aggregator@.traces,
        aggregator.metric(),
        scales@,
    ));
}

/// The first `n` entries as text.
pub open spec fn entries_text(
    entries: Seq<(u64, Counts)>,
    traces: Map<u32, Seq<Frame>>,
    metric: MetricSpec,
    scales: Seq<Vec<RowScale>>,
    n: int,
) -> Seq<char>
    decreases n,
{
    if n <= 0 {
        seq![]
    } else {
        entries_text(entries, traces, metric, scales, n - 1) + entry_text(
            entries[n - 1],
            traces,
            metric,
            scales[n - 1]@,
        )
    }
}

/// A report on some entries.
pub open spec fn report_text(
    entries: Seq<(u64, Counts)>,
    traces: Map<u32, Seq<Frame>>,
    metric: MetricSpec,
    scales: Seq<Vec<RowScale>>,
) -> Seq<char> {
    "total stack traces: "@ + crate::text::decimal(entries.len()) + "\n\n"@ + entries_text(
        entries,
        traces,
        metric,
        scales,
        entries.len() as int,
    )
}

/// Writes a report on entries in the order in which they are given, given how the rows of
/// their histograms measure up.
pub fn render_entries(
    writer: &mut String,
    entries: &Vec<Entry>,
    scales: &Vec<Vec<RowScale>>,
    aggregator: &StatsAggregator,
)
    requires
        scales@.len() == entries@.len(),
        forall|i: int|
            0 <= i < entries@.len() ==> (#[trigger] entries@[i]).hist@.count() <= u64::MAX
                && scales@[i]@.len() == rows(entries@[i].hist@).len(),
    ensures
        final(writer)@ == old(writer)@ + report_text(
            crate::report::entries_of(entries@),
            aggregator@.traces,
            aggregator.metric(),
            scales@,
        ),
{
    let ghost views = crate::report::entries_of(entries@);
    let ghost traces = aggregator@.traces;
    let ghost metric = aggregator.metric();
    let ghost head = "total stack traces: "@ + crate::text::decimal(views.len()) + "\n\n"@;
    writer.append("total stack traces: ");
    push_decimal(writer, entries.len() as u64);
    writer.append("\n\n");
    let mut i: usize = 0;
    assert(writer@ =~= old(writer)@ + (head + entries_text(views, traces, metric, scales@, 0)));
    while i < entries.len()
        invariant
            i <= entries@.len(),
            scales@.len() == entries@.len(),
            views == crate::report::entries_of(entries@),
            traces == aggregator@.traces,
            metric == aggregator.metric(),
            forall|j: int|
                0 <= j < entries@.len() ==> (#[trigger] entries@[j]).hist@.count() <= u64::MAX
                    && scales@[j]@.len() == rows(entries@[j].hist@).len(),
            writer@ == old(writer)@ + (head + entries_text(
                views,
                traces,
                metric,
                scales@,
                i as int,
            )),
        decreases entries@.len() - i,
    {
        assert(views[i as int] == (entries@[i as int].word, entries@[i as int].hist@));
        write_entry(writer, &entries[i], &scales[i], aggregator);
        i += 1;
        assert(writer@ =~= old(writer)@ + (head + entries_text(
            views,
            traces,
            metric,
            scales@,
            i as int,
        )));
    }
}

/// How the rows of the histograms of some entries measure up.
pub open spec fn all_scaled<F: Fn(u64, u64, u64) -> RowScale>(
    scale: F,
    entries: Seq<(u64, Counts)>,
    scales: Seq<Vec<RowScale>>,
) -> bool {
    &&& scales.len() == entries.len()
    &&& forall|i: int|
        0 <= i < entries.len() ==> scaled(scale, (#[trigger] entries[i]).1, scales[i]@)
}

/// How the rows of the histograms of some entries measure up.
pub fn entry_scales<F: Fn(u64, u64, u64) -> RowScale>(entries: &Vec<Entry>, scale: &F) -> (scales:
    Vec<Vec<RowScale>>)
    requires
        forall|i: int|
            0 <= i < entries@.len() ==> (#[trigger] entries@[i]).hist@.count() <= u64::MAX,
        forall|count: u64, max: u64, total: u64| #[trigger]
            call_requires(*scale, (count, max, total)),
    ensures
        all_scaled(*scale, crate::report::entries_of(entries@), scales@),
{
    let ghost views = crate::report::entries_of(entries@);
    let mut scales: Vec<Vec<RowScale>> = Vec::new();
    let mut i: usize = 0;
    while i < entries.len()
        invariant
            i <= entries@.len(),
            views == crate::report::entries_of(entries@),
            forall|j: int|
                0 <= j < entries@.len() ==> (#[trigger] entries@[j]).hist@.count() <= u64::MAX,
            forall|count: u64, max: u64, total: u64| #[trigger]
                call_requires(*scale, (count, max, total)),
            scales@.len() == i,
            forall|j: int| 0 <= j < i ==> scaled(*scale, (#[trigger] views[j]).1, scales@[j]@),
        decreases entries@.len() - i,
    {
        let ghost before = scales@;
        let row_scales = row_scales(entries[i].hist, scale);
        scales.push(row_scales);
        i += 1;
        assert forall|j: int| 0 <= j < i implies scaled(
            *scale,
            (#[trigger] views[j]).1,
            scales@[j]@,
        ) by {
            if j < i - 1 {
                assert(scales@[j] == before[j]);
            }
        }
    }
    scales
}

/// Writes a report on the stacks with events, the heaviest first. `scale` says how a row of a
/// histogram measures up, from the count of the row, the highest count and the count of all
/// events. Which of two stacks of the same weight comes first is left open.
pub fn render<F: Fn(u64, u64, u64) -> RowScale>(
    writer: &mut String,
    stats: &FxHashMap<u64, Histogram>,
    order_by: OrderBy,
    aggregator: &StatsAggregator,
    scale: &F,
)
    requires
        crate::report::all_countable(stats@),
        forall|count: u64, max: u64, total: u64| #[trigger]
            call_requires(*scale, (count, max, total)),
    ensures
        exists|entries: Seq<(u64, Counts)>, scales: Seq<Vec<RowScale>>|
            crate::report::is_listing(stats@, true, entries) && crate::report::descends(
                order_by,
                entries,
            ) && all_scaled(*scale, entries, scales) && final(writer)@ == old(writer)@
                + #[trigger] report_text(entries, aggregator@.traces, aggregator.metric(), scales),
{
    let all = listing(stats);
    let ghost views = crate::report::entries_of(all@);
    assert forall|i: int| 0 <= i < all@.len() implies (#[trigger] all@[i]).hist@.count()
        <= u64::MAX by {
        assert(views[i].0 == all@[i].word);
    }
    let counted = keep_with_events(&all);
    let ghost kept = crate::report::entries_of(counted@);
    proof {
        crate::report::lemma_listing_with_events(stats@, views);
        assert forall|i: int| 0 <= i < counted@.len() implies (#[trigger] counted@[i]).hist@.count()
            <= u64::MAX by {
            assert(kept[i].0 == counted@[i].word);
        }
    }
    let entries = sort(&counted, order_by, true);
    let ghost sorted = crate::report::entries_of(entries@);
    proof {
        crate::report::lemma_sorted_listing(stats@, true, order_by, true, kept, sorted);
        assert forall|i: int| 0 <= i < entries@.len() implies (#[trigger] entries@[i]).hist@.count()
            <= u64::MAX by {
            assert(sorted[i].0 == entries@[i].word);
        }
    }
    let scales = entry_scales(&entries, scale);
    proof {
        assert forall|i: int| 0 <= i < entries@.len() implies scales@[i]@.len() == rows(
            (#[trigger] entries@[i]).hist@,
        ).len() by {
            assert(sorted[i].1 == entries@[i].hist@);
        }
    }
    render_entries(writer, &entries, &scales, aggregator);
}

proof fn lemma_rows_sum(buckets: Seq<u64>, n: int)
    requires
        0 <= n <= buckets.len(),
    ensures
        row_sum(rows_before(buckets, n)) == crate::common::sum(buckets.take(n)),
    decreases n,
{
    if n > 0 {
        lemma_rows_sum(buckets, n - 1);
        assert(buckets.take(n).drop_last() =~= buckets.take(n - 1));
        if buckets[n - 1] > 0 {
            assert(rows_before(buckets, n).drop_last() =~= rows_before(buckets, n - 1));
        }
    }
}

/// The counts of some rows added up.
pub open spec fn row_sum(rows: Seq<Row>) -> nat
    decreases rows.len(),
{
    if rows.len() == 0 {
        0
    } else {
        row_sum(rows.drop_last()) + rows.last().count as nat
    }
}

/// The rows of a table hold every event.
pub proof fn law_rows_hold_every_event(counts: Counts)
    ensures
        row_sum(rows(counts)) == counts.count(),
{
    lemma_rows_sum(counts.buckets, counts.buckets.len() as int);
    assert(counts.buckets.take(counts.buckets.len() as int) =~= counts.buckets);
}

/// A table has a row for a bucket if and only if the bucket is not empty, with its count.
pub proof fn law_row_for_each_bucket_with_events(counts: Counts, bucket: usize)
    requires
        bucket < counts.buckets.len() <= usize::MAX,
    ensures
        rows(counts).contains(Row { bucket, count: counts.buckets[bucket as int] })
            <==> counts.buckets[bucket as int] > 0,
{
    lemma_rows(counts.buckets, counts.buckets.len() as int);
    let row = Row { bucket, count: counts.buckets[bucket as int] };
    if rows(counts).contains(row) {
        let i = choose|i: int| 0 <= i < rows(counts).len() && rows(counts)[i] == row;
        assert(rows(counts)[i].count > 0);
    }
    if counts.buckets[bucket as int] > 0 {
        let i = lemma_row_of_bucket(
            counts.buckets,
            counts.buckets.len() as int,
            bucket as int,
        );
        assert(rows(counts)[i] == row);
    }
}

/// The rows of a table go from low buckets to high ones; each is for a bucket that is not empty,
/// and holds its count.
pub proof fn law_rows_go_up(counts: Counts)
    requires
        counts.buckets.len() <= usize::MAX,
    ensures
        forall|i: int|
            0 <= i < rows(counts).len() ==> {
                let row = #[trigger] rows(counts)[i];
                &&& row.bucket < counts.buckets.len()
                &&& row.count == counts.buckets[row.bucket as int]
                &&& row.count > 0
            },
        forall|i: int, j: int|
            0 <= i < j < rows(counts).len() ==> (#[trigger] rows(counts)[i]).bucket < (
            #[trigger] rows(counts)[j]).bucket,
{
    lemma_rows(counts.buckets, counts.buckets.len() as int);
}

proof fn lemma_rows(buckets: Seq<u64>, n: int)
    requires
        0 <= n <= buckets.len() <= usize::MAX,
    ensures
        forall|i: int|
            0 <= i < rows_before(buckets, n).len() ==> {
                let row = #[trigger] rows_before(buckets, n)[i];
                &&& row.bucket < n
                &&& row.count == buckets[row.bucket as int]
                &&& row.count > 0
            },
        forall|i: int, j: int|
            0 <= i < j < rows_before(buckets, n).len() ==> (#[trigger] rows_before(
                buckets,
                n,
            )[i]).bucket < (#[trigger] rows_before(buckets, n)[j]).bucket,
    decreases n,
{
    if n > 0 {
        lemma_rows(buckets, n - 1);
        let before = rows_before(buckets, n - 1);
        let now = rows_before(buckets, n);
        assert forall|i: int| 0 <= i < now.len() implies {
            let row = #[trigger] now[i];
            &&& row.bucket < n
            &&& row.count == buckets[row.bucket as int]
            &&& row.count > 0
        } by {
            if i < before.len() {
                assert(now[i] == before[i]);
            }
        }
        assert forall|i: int, j: int| 0 <= i < j < now.len() implies (#[trigger] now[i]).bucket < (
        #[trigger] now[j]).bucket by {
            assert(now[i] == before[i]);
            if j < before.len() {
                assert(now[j] == before[j]);
            }
        }
    }
}

proof fn lemma_row_of_bucket(buckets: Seq<u64>, n: int, bucket: int) -> (i: int)
    requires
        0 <= bucket < n <= buckets.len() <= usize::MAX,
        buckets[bucket] > 0,
    ensures
        0 <= i < rows_before(buckets, n).len(),
        rows_before(buckets, n)[i] == (Row { bucket: bucket as usize, count: buckets[bucket] }),
    decreases n,
{
    if bucket < n - 1 {
        lemma_row_of_bucket(buckets, n - 1, bucket)
    } else {
        rows_before(buckets, n).len() - 1
    }
}

/// The count that bars are measured against is that of some row, and no row has a higher one.
/// Where there is no row, it is one.
pub proof fn law_bars_are_measured_against_the_highest_count(rows: Seq<Row>)
    requires
        forall|i: int| 0 <= i < rows.len() ==> (#[trigger] rows[i]).count > 0,
    ensures
        forall|i: int| 0 <= i < rows.len() ==> (#[trigger] rows[i]).count <= highest(rows),
        rows.len() > 0 ==> exists|i: int|
            0 <= i < rows.len() && (#[trigger] rows[i]).count == highest(rows),
        rows.len() == 0 ==> highest(rows) == 1,
    decreases rows.len(),
{
    if rows.len() > 0 {
        let front = rows.drop_last();
        assert forall|i: int| 0 <= i < front.len() implies (#[trigger] front[i]).count > 0 by {
            assert(front[i] == rows[i]);
        }
        law_bars_are_measured_against_the_highest_count(front);
        assert(rows[rows.len() - 1].count > 0);
        assert forall|i: int| 0 <= i < rows.len() implies (#[trigger] rows[i]).count <= highest(
            rows,
        ) by {
            if i < front.len() {
                assert(front[i].count <= highest(front));
            }
        }
        if rows.last().count > highest(front) || front.len() == 0 {
            assert(rows[rows.len() - 1].count == highest(rows));
        } else {
            let i = choose|i: int| 0 <= i < front.len() && (#[trigger] front[i]).count == highest(
                front,
            );
            assert(rows[i].count == highest(rows));
        }
    }
}

/// No row of a histogram has a higher count than that which its bars are measured against, and
/// some row has that count, where there is an event.
pub proof fn law_highest_count_of_a_histogram(counts: Counts)
    requires
        counts.buckets.len() <= usize::MAX,
    ensures
        forall|i: int|
            0 <= i < counts.buckets.len() ==> #[trigger] counts.buckets[i] <= highest(rows(counts)),
        counts.count() > 0 ==> counts.buckets.contains(highest(rows(counts))),
        counts.count() == 0 ==> highest(rows(counts)) == 1,
{
    law_rows_go_up(counts);
    law_bars_are_measured_against_the_highest_count(rows(counts));
    law_rows_hold_every_event(counts);
    assert forall|i: int| 0 <= i < counts.buckets.len() implies #[trigger] counts.buckets[i]
        <= highest(rows(counts)) by {
        if counts.buckets[i] > 0 {
            let k = lemma_row_of_bucket(counts.buckets, counts.buckets.len() as int, i);
            assert(rows(counts)[k].count <= highest(rows(counts)));
        }
    }
    if rows(counts).len() > 0 {
        let k = choose|k: int|
            0 <= k < rows(counts).len() && (#[trigger] rows(counts)[k]).count == highest(
                rows(counts),
            );
        assert(counts.buckets[rows(counts)[k].bucket as int] == highest(rows(counts)));
        counts.law_no_events_iff_all_buckets_empty();
        if counts.count() == 0 {
            assert(counts.buckets[rows(counts)[k].bucket as int] == 0);
        }
    }
}

/// Each row is measured by its own count, against the highest count of all rows and the number
/// of all events.
pub proof fn law_rows_are_measured_against_all<F: Fn(u64, u64, u64) -> RowScale>(
    scale: F,
    counts: Counts,
    scales: Seq<RowScale>,
    i: int,
) -> (max: u64)
    requires
        scaled(scale, counts, scales),
        counts.buckets.len() <= usize::MAX,
        counts.count() <= u64::MAX,
        0 <= i < rows(counts).len(),
    ensures
        scales.len() == rows(counts).len(),
        forall|k: int| 0 <= k < counts.buckets.len() ==> #[trigger] counts.buckets[k] <= max,
        counts.buckets.contains(max),
        call_ensures(
            scale,
            (
                counts.buckets[rows(counts)[i].bucket as int],
                max,
                counts.buckets.fold_left(0int, |sum: int, count: u64| sum + count) as u64,
            ),
            scales[i],
        ),
{
    law_rows_go_up(counts);
    law_highest_count_of_a_histogram(counts);
    counts.law_count_adds_all_buckets();
    assert(rows(counts)[i].count > 0);
    counts.law_no_events_iff_all_buckets_empty();
    assert(counts.count() > 0) by {
        if counts.count() == 0 {
            assert(counts.buckets[rows(counts)[i].bucket as int] == 0);
        }
    }
    assert(call_ensures(
        scale,
        (rows(counts)[i].count, highest(rows(counts)), counts.count() as u64),
        scales[i],
    ));
    highest(rows(counts))
}

/// A row of counts: the bound of its bucket behind a less-or-equal sign, filled up to ten, the
/// count and the percentage filled up to nine, and a bar of so many signs.
pub proof fn law_row_of_counts(row: Row, scale: RowScale)
    ensures
        row_text(MetricKind::Count, row, scale) == crate::text::left_aligned(
            "<="@ + crate::text::decimal(upper_bound(row.bucket as int) as nat),
            10,
        ) + " | "@ + crate::text::right_aligned(crate::text::decimal(row.count as nat), 9) + " | "@
            + crate::text::right_aligned(
            crate::text::right_aligned(scale.percentage@, 8) + seq!['%'],
            9,
        ) + " | "@ + crate::text::repeated('#', scale.bar_length as nat) + seq!['\n'],
{
    reveal_strlit("\n");
    let percent = crate::text::right_aligned(scale.percentage@, 8);
    assert(percent.push('%') =~= percent + seq!['%']);
    assert("\n"@ =~= seq!['\n']);
    assert(row_text(MetricKind::Count, row, scale) =~= crate::text::left_aligned(
        "<="@ + crate::text::decimal(upper_bound(row.bucket as int) as nat),
        10,
    ) + " | "@ + crate::text::right_aligned(crate::text::decimal(row.count as nat), 9) + " | "@
        + crate::text::right_aligned(
        crate::text::right_aligned(scale.percentage@, 8) + seq!['%'],
        9,
    ) + " | "@ + crate::text::repeated('#', scale.bar_length as nat) + seq!['\n']);
}

/// A row of durations is one of counts with the bound filled up to twenty-four, and beside it
/// the bound as people write it, or a dash, filled up to eighteen.
pub proof fn law_row_of_durations(row: Row, scale: RowScale)
    ensures
        ({
            let bound = upper_bound(row.bucket as int);
            let human = if bound <= i64::MAX {
                span_text(bound as nat)
            } else {
                "-"@
            };
            row_text(MetricKind::Duration, row, scale) == crate::text::left_aligned(
                "<="@ + crate::text::decimal(bound as nat),
                24,
            ) + " | "@ + crate::text::left_aligned(human, 18) + " | "@
                + crate::text::right_aligned(crate::text::decimal(row.count as nat), 9) + " | "@
                + crate::text::right_aligned(
                crate::text::right_aligned(scale.percentage@, 8) + seq!['%'],
                9,
            ) + " | "@ + crate::text::repeated('#', scale.bar_length as nat) + seq!['\n']
        }),
{
    reveal_strlit("\n");
    let bound = upper_bound(row.bucket as int);
    let human = if bound <= i64::MAX {
        span_text(bound as nat)
    } else {
        "-"@
    };
    let percent = crate::text::right_aligned(scale.percentage@, 8);
    assert(percent.push('%') =~= percent + seq!['%']);
    assert("\n"@ =~= seq!['\n']);
    assert(row_text(MetricKind::Duration, row, scale) =~= crate::text::left_aligned(
        "<="@ + crate::text::decimal(bound as nat),
        24,
    ) + " | "@ + crate::text::left_aligned(human, 18) + " | "@ + crate::text::right_aligned(
        crate::text::decimal(row.count as nat),
        9,
    ) + " | "@ + crate::text::right_aligned(
        crate::text::right_aligned(scale.percentage@, 8) + seq!['%'],
        9,
    ) + " | "@ + crate::text::repeated('#', scale.bar_length as nat) + seq!['\n']);
}

proof fn lemma_rows_text(kind: MetricKind, rows: Seq<Row>, scales: Seq<RowScale>, n: int)
    requires
        0 <= n,
    ensures
        rows_text(kind, rows, scales, n) == Seq::new(
            n as nat,
            |i: int| row_text(kind, rows[i], scales[i]),
        ).flatten(),
    decreases n,
{
    let texts = Seq::new(n as nat, |i: int| row_text(kind, rows[i], scales[i]));
    if n > 0 {
        lemma_rows_text(kind, rows, scales, n - 1);
        let before = Seq::new((n - 1) as nat, |i: int| row_text(kind, rows[i], scales[i]));
        assert(texts =~= before.push(row_text(kind, rows[n - 1], scales[n - 1])));
        before.lemma_flatten_push(row_text(kind, rows[n - 1], scales[n - 1]));
    } else {
        assert(texts.flatten() =~= Seq::<char>::empty());
    }
}

/// A table is its head, every row once and in order, and a line with the total of the values,
/// with how people write it where they are durations, and the number of events.
pub proof fn law_table_shows_every_row(counts: Counts, metric: MetricSpec, scales: Seq<RowScale>)
    ensures
        ({
            let total = crate::text::decimal(counts.total as nat);
            let human = if metric.kind == MetricKind::Duration && counts.total <= i64::MAX {
                " ("@ + span_text(counts.total as nat) + ")"@
            } else {
                Seq::<char>::empty()
            };
            let head = match metric.kind {
                MetricKind::Count => count_header(),
                MetricKind::Duration => duration_header(),
            };
            histogram_text(counts, metric, scales) == head + Seq::new(
                rows(counts).len(),
                |i: int| row_text(metric.kind, rows(counts)[i], scales[i]),
            ).flatten() + ("Total "@ + metric.value_label@ + ": "@ + total + human + " across "@
                + crate::text::decimal(counts.count()) + " events\n"@)
        }),
{
    lemma_rows_text(metric.kind, rows(counts), scales, rows(counts).len() as int);
}

proof fn lemma_frame_lines(frames: Seq<Frame>, n: int)
    requires
        0 <= n,
    ensures
        frame_lines(frames, n) == Seq::new(
            n as nat,
            |i: int| frame_text(frames[i]) + "\n"@,
        ).flatten(),
    decreases n,
{
    let lines = Seq::new(n as nat, |i: int| frame_text(frames[i]) + "\n"@);
    if n > 0 {
        lemma_frame_lines(frames, n - 1);
        let before = Seq::new((n - 1) as nat, |i: int| frame_text(frames[i]) + "\n"@);
        let line = frame_text(frames[n - 1]) + "\n"@;
        assert(lines =~= before.push(line));
        before.lemma_flatten_push(line);
        assert(frame_lines(frames, n) =~= lines.flatten());
    } else {
        assert(lines.flatten() =~= Seq::<char>::empty());
    }
}

/// A stack trace shows every frame once and in order, one a line: the address in hexadecimal, a
/// dash and the name. A stack without symbols says so.
pub proof fn law_trace_shows_every_frame(frames: Seq<Frame>)
    ensures
        trace_lines(Some(frames)) == Seq::new(
            frames.len(),
            |i: int|
                crate::text::hex(frames[i].address as nat) + " - "@ + frames[i].symbol + "\n"@,
        ).flatten(),
        trace_lines(None) == "No resolved stacktrace\n"@,
{
    lemma_frame_lines(frames, frames.len() as int);
    assert(Seq::new(frames.len(), |i: int| frame_text(frames[i]) + "\n"@) =~= Seq::new(
        frames.len(),
        |i: int| crate::text::hex(frames[i].address as nat) + " - "@ + frames[i].symbol + "\n"@,
    ));
}

proof fn lemma_entries_text(
    entries: Seq<(u64, Counts)>,
    traces: Map<u32, Seq<Frame>>,
    metric: MetricSpec,
    scales: Seq<Vec<RowScale>>,
    n: int,
)
    requires
        0 <= n,
    ensures
        entries_text(entries, traces, metric, scales, n) == Seq::new(
            n as nat,
            |i: int| entry_text(entries[i], traces, metric, scales[i]@),
        ).flatten(),
    decreases n,
{
    let texts = Seq::new(
        n as nat,
        |i: int| entry_text(entries[i], traces, metric, scales[i]@),
    );
    if n > 0 {
        lemma_entries_text(entries, traces, metric, scales, n - 1);
        let before = Seq::new(
            (n - 1) as nat,
            |i: int| entry_text(entries[i], traces, metric, scales[i]@),
        );
        let text = entry_text(entries[n - 1], traces, metric, scales[n - 1]@);
        assert(texts =~= before.push(text));
        before.lemma_flatten_push(text);
    } else {
        assert(texts.flatten() =~= Seq::<char>::empty());
    }
}

/// A report says how many stacks there are, and shows every one of them once and in order: a
/// line of stars, its trace, a line of dashes, its table and an empty line.
pub proof fn law_report_shows_every_stack(
    entries: Seq<(u64, Counts)>,
    traces: Map<u32, Seq<Frame>>,
    metric: MetricSpec,
    scales: Seq<Vec<RowScale>>,
)
    ensures
        report_text(entries, traces, metric, scales) == "total stack traces: "@
            + crate::text::decimal(entries.len()) + "\n\n"@ + Seq::new(
            entries.len(),
            |i: int|
                crate::text::repeated('*', 80) + seq!['\n'] + trace_lines(
                    if traces.contains_key((entries[i].0 % 0x1_0000_0000) as u32) {
                        Some(traces[(entries[i].0 % 0x1_0000_0000) as u32])
                    } else {
                        None
                    },
                ) + (crate::text::repeated('-', 80) + seq!['\n']) + histogram_text(
                    entries[i].1,
                    metric,
                    scales[i]@,
                ) + "\n"@,
        ).flatten(),
{
    lemma_entries_text(entries, traces, metric, scales, entries.len() as int);
    let shown = Seq::new(
        entries.len(),
        |i: int|
            crate::text::repeated('*', 80) + seq!['\n'] + trace_lines(
                if traces.contains_key((entries[i].0 % 0x1_0000_0000) as u32) {
                    Some(traces[(entries[i].0 % 0x1_0000_0000) as u32])
                } else {
                    None
                },
            ) + (crate::text::repeated('-', 80) + seq!['\n']) + histogram_text(
                entries[i].1,
                metric,
                scales[i]@,
            ) + "\n"@,
    );
    let texts = Seq::new(
        entries.len(),
        |i: int| entry_text(entries[i], traces, metric, scales[i]@),
    );
    assert(section('*') =~= crate::text::repeated('*', 80) + seq!['\n']);
    assert(section('-') =~= crate::text::repeated('-', 80) + seq!['\n']);
    assert forall|i: int| 0 <= i < entries.len() implies #[trigger] texts[i] == shown[i] by {}
    assert(texts =~= shown);
}

/// A duration has a text if and only if a span can hold it.
pub proof fn law_durations_within_a_span_have_a_text(ns: u64)
    ensures
        human(ns) is Some <==> ns <= 0x7fff_ffff_ffff_ffff,
        human(ns) is Some ==> human(ns)->0 == span_text(ns as nat),
{
}

/// The bounds of the buckets are one less than the powers of two, and that of the last bucket
/// is the largest number.
pub proof fn law_bounds_are_below_powers_of_two(bucket: int)
    requires
        0 <= bucket < 40,
    ensures
        bucket < 39 ==> upper_bound(bucket) + 1 == power2::pow2((bucket + 1) as nat),
        bucket == 39 ==> upper_bound(bucket) == 0xffff_ffff_ffff_ffff,
{
    power2::lemma_pow2_strictly_increases((bucket + 1) as nat, 64);
    power2::lemma2_to64_rest();
    power2::lemma_pow2_pos((bucket + 1) as nat);
}

/// The histogram of every entry is measured on its own.
pub proof fn law_every_entry_is_measured<F: Fn(u64, u64, u64) -> RowScale>(
    scale: F,
    entries: Seq<(u64, Counts)>,
    scales: Seq<Vec<RowScale>>,
    i: int,
)
    requires
        all_scaled(scale, entries, scales),
        0 <= i < entries.len(),
    ensures
        scales.len() == entries.len(),
        scaled(scale, entries[i].1, scales[i]@),
{
    assert(scaled(scale, entries[i].1, scales[i]@));
}

/// A text that is there is itself.
pub proof fn law_text_is_itself(text: String)
    ensures
        text_of(Some(text)) == Some(text@),
        text_of(None) == None::<Seq<char>>,
{
}

} // verus!
