//! Stacks and histograms as comma-separated values.

use crate::aggregator::StatsAggregator;
use crate::common::{Counts, Histogram};
use crate::model::{MetricSpec, OrderBy};
use crate::report::pretty::{entry_scales, push_frame, write_scaled_histogram, RowScale};
use crate::report::{listing, sort, unpacked, Entry};
use crate::resolver::{Frame, ResolvedStackTrace};
use crate::text::{owned, push_decimal};
use rustc_hash::FxHashMap;
use vstd::prelude::*;

verus! {

/// Whether a field with this character is put in quotes.
pub open spec fn is_special(c: char) -> bool {
    c == ',' || c == '"' || c == '\r' || c == '\n'
}

/// A field with its quotes doubled.
pub open spec fn quotes_doubled(field: Seq<char>) -> Seq<char>
    decreases field.len(),
{
    if field.len() == 0 {
        seq![]
    } else if field.last() == '"' {
        quotes_doubled(field.drop_last()).push('"').push('"')
    } else {
        quotes_doubled(field.drop_last()).push(field.last())
    }
}

/// A field as it stands in a record: in quotes where it has to be.
pub open spec fn field_text(field: Seq<char>) -> Seq<char> {
    if exists|i: int| 0 <= i < field.len() && is_special(#[trigger] field[i]) {
        seq!['"'] + quotes_doubled(field) + seq!['"']
    } else {
        field
    }
}

/// A text with each pair of quotes made one.
pub open spec fn quotes_halved(text: Seq<char>) -> Seq<char>
    decreases text.len(),
{
    if text.len() == 0 {
        seq![]
    } else if text.last() == '"' && text.len() > 1 {
        quotes_halved(text.drop_last().drop_last()).push('"')
    } else {
        quotes_halved(text.drop_last()).push(text.last())
    }
}

/// The field that stands in a record.
pub open spec fn read_field(text: Seq<char>) -> Seq<char> {
    if text.len() > 0 && text.first() == '"' {
        quotes_halved(text.subrange(1, text.len() - 1))
    } else {
        text
    }
}

proof fn lemma_halved_doubled(field: Seq<char>)
    ensures
        quotes_halved(quotes_doubled(field)) == field,
    decreases field.len(),
{
    if field.len() > 0 {
        let before = quotes_doubled(field.drop_last());
        lemma_halved_doubled(field.drop_last());
        if field.last() == '"' {
            assert(quotes_doubled(field).drop_last().drop_last() =~= before);
        } else {
            assert(quotes_doubled(field).drop_last() =~= before);
        }
        assert(quotes_halved(quotes_doubled(field)) =~= field);
    } else {
        assert(quotes_halved(quotes_doubled(field)) =~= field);
    }
}

/// A field can be read back from its record.
pub proof fn law_field_reads_back(field: Seq<char>)
    ensures
        read_field(field_text(field)) == field,
{
    if exists|i: int| 0 <= i < field.len() && is_special(#[trigger] field[i]) {
        let text = field_text(field);
        assert(text.subrange(1, text.len() - 1) =~= quotes_doubled(field));
        lemma_halved_doubled(field);
    } else if field.len() > 0 {
        assert(!is_special(field[0]));
    }
}

/// A record: its fields with commas between them, and the end of the line.
pub open spec fn record_text(fields: Seq<Seq<char>>) -> Seq<char> {
    crate::text::joined(
        fields.map_values(|field: Seq<char>| field_text(field)),
        seq![','],
    ).push('\n')
}

/// The texts of some strings.
pub open spec fn texts_of(fields: Seq<String>) -> Seq<Seq<char>> {
    fields.map_values(|field: String| field@)
}

/// `csv::Writer::write_record` writes one record: commas between the fields, quotes round
/// those that hold a comma, a quote or an end of line, a quote in them twice, and a newline
/// behind. A record of a single empty field, which it writes otherwise, is left out. Writing
/// to memory does not fail.
#[verifier::external_body]
fn encode_record(fields: &Vec<String>) -> (line: String)
    requires
        fields@.len() >= 2,
    ensures
        line@ == record_text(texts_of(fields@)),
{
    let mut writer = ::csv::Writer::from_writer(Vec::new());
    writer.write_record(fields).unwrap();
    String::from_utf8(writer.into_inner().unwrap()).unwrap()
}

/// The names of the columns.
pub open spec fn header_fields() -> Seq<Seq<char>> {
    seq!["pid"@, "stack_id"@, "total"@, "count"@, "histogram"@, "stacktrace"@]
}

/// The names of the columns.
pub fn headers() -> (fields: Vec<String>)
    ensures
        texts_of(fields@) == header_fields(),
{
    let mut fields: Vec<String> = Vec::new();
    fields.push(owned("pid"));
    fields.push(owned("stack_id"));
    fields.push(owned("total"));
    fields.push(owned("count"));
    fields.push(owned("histogram"));
    fields.push(owned("stacktrace"));
    assert(texts_of(fields@) =~= header_fields());
    fields
}

/// A stack trace in one field.
pub open spec fn trace_field(trace: Option<Seq<Frame>>) -> Seq<char> {
    match trace {
        Some(frames) => crate::text::joined(
            frames.map_values(|frame: Frame| crate::report::pretty::frame_text(frame)),
            "\n"@,
        ),
        None => "No resolved stacktrace"@,
    }
}

/// A stack trace in one field.
pub fn format_trace(trace: Option<&ResolvedStackTrace>) -> (field: String)
    ensures
        field@ == trace_field(
            match trace {
                Some(trace) => Some(trace@),
                None => None,
            },
        ),
{
    match trace {
        Some(trace) => {
            let ghost lines = trace@.map_values(
                |frame: Frame| crate::report::pretty::frame_text(frame),
            );
            let mut field = String::new();
            let mut i: usize = 0;
            while i < trace.symbols.len()
                invariant
                    i <= trace.symbols@.len(),
                    lines == trace@.map_values(
                        |frame: Frame| crate::report::pretty::frame_text(frame),
                    ),
                    field@ == crate::text::joined(lines.take(i as int), "\n"@),
                decreases trace.symbols@.len() - i,
            {
                proof {
                    assert(lines.take(i + 1).drop_last() =~= lines.take(i as int));
                    assert(lines.take(i + 1).last() == crate::report::pretty::frame_text(
                        trace.symbols@[i as int]@,
                    ));
                }
                if i > 0 {
                    field.append("\n");
                }
                push_frame(&mut field, &trace.symbols[i]);
                i += 1;
                assert(field@ =~= crate::text::joined(lines.take(i as int), "\n"@));
            }
            assert(lines.take(i as int) =~= lines);
            field
        },
        None => owned("No resolved stacktrace"),
    }
}

/// The record of a stack.
pub open spec fn entry_fields(
    entry: (u64, Counts),
    traces: Map<u32, Seq<Frame>>,
    metric: MetricSpec,
    scales: Seq<RowScale>,
) -> Seq<Seq<char>> {
    seq![
        crate::text::decimal(crate::report::process_of(entry.0) as nat),
        crate::text::decimal(crate::report::stack_of(entry.0) as nat),
        crate::text::decimal(entry.1.total as nat),
        crate::text::decimal(entry.1.count()),
        crate::report::pretty::histogram_text(entry.1, metric, scales),
        trace_field(crate::report::trace_at(traces, crate::report::stack_of(entry.0))),
    ]
}

fn decimal_field(n: u64) -> (field: String)
    ensures
        field@ == crate::text::decimal(n as nat),
{
    let mut field = String::new();
    push_decimal(&mut field, n);
    assert(field@ =~= crate::text::decimal(n as nat));
    field
}

/// The record of a stack, given how the rows of its histogram measure up.
pub fn fields_of(entry: &Entry, scales: &Vec<RowScale>, aggregator: &StatsAggregator) -> (fields:
    Vec<String>)
    requires
        entry.hist@.count() <= u64::MAX,
        scales@.len() == crate::report::pretty::rows(entry.hist@).len(),
    ensures
        texts_of(fields@) == entry_fields(
            (entry.word, entry.hist@),
            aggregator@.traces,
            aggregator.metric(),
            scales@,
        ),
{
    let key = unpacked(entry.word);
    let stacktrace = format_trace(aggregator.resolved(key.stack_id));
    let mut histogram = String::new();
    write_scaled_histogram(entry.hist, &mut histogram, aggregator.spec(), scales);
    assert(histogram@ =~= crate::report::pretty::histogram_text(
        entry.hist@,
        aggregator.metric(),
        scales@,
    ));
    let mut fields: Vec<String> = Vec::new();
    fields.push(decimal_field(key.pid as u64));
    fields.push(decimal_field(key.stack_id as u64));
    fields.push(decimal_field(entry.hist.total));
    fields.push(decimal_field(entry.hist.total_count()));
    fields.push(histogram);
    fields.push(stacktrace);
    assert(texts_of(fields@) =~= entry_fields(
        (entry.word, entry.hist@),
        aggregator@.traces,
        aggregator.metric(),
        scales@,
    ));
    fields
}

/// The records of the first `n` entries.
pub open spec fn records_text(
    entries: Seq<(u64, Counts)>,
    traces: Map<u32, Seq<Frame>>,
    metric: MetricSpec,
    scales: Seq<Vec<RowScale>>,
    n: int,
) -> Seq<char>
    decreases n,
{
    if n <= 0 {
        seq![]
    } else {
        records_text(entries, traces, metric, scales, n - 1) + record_text(
            entry_fields(entries[n - 1], traces, metric, scales[n - 1]@),
        )
    }
}

/// A file on some entries.
pub open spec fn file_text(
    entries: Seq<(u64, Counts)>,
    traces: Map<u32, Seq<Frame>>,
    metric: MetricSpec,
    scales: Seq<Vec<RowScale>>,
) -> Seq<char> {
    record_text(header_fields()) + records_text(
        entries,
        traces,
        metric,
        scales,
        entries.len() as int,
    )
}

/// A file on entries in the order in which they are given, given how the rows of their
/// histograms measure up.
pub fn write_entries(
    entries: &Vec<Entry>,
    scales: &Vec<Vec<RowScale>>,
    aggregator: &StatsAggregator,
) -> (text: String)
    requires
        scales@.len() == entries@.len(),
        forall|i: int|
            0 <= i < entries@.len() ==> (#[trigger] entries@[i]).hist@.count() <= u64::MAX
                && scales@[i]@.len() == crate::report::pretty::rows(entries@[i].hist@).len(),
    ensures
        text@ == file_text(
            crate::report::entries_of(entries@),
            aggregator@.traces,
            aggregator.metric(),
            scales@,
        ),
{
    let ghost views = crate::report::entries_of(entries@);
    let ghost traces = aggregator@.traces;
    let ghost metric = aggregator.metric();
    let mut text = encode_record(&headers());
    let mut i: usize = 0;
    assert(text@ =~= record_text(header_fields()) + records_text(
        views,
        traces,
        metric,
        scales@,
        0,
    ));
    while i < entries.len()
        invariant
            i <= entries@.len(),
            scales@.len() == entries@.len(),
            views == crate::report::entries_of(entries@),
            traces == aggregator@.traces,
            metric == aggregator.metric(),
            forall|j: int|
                0 <= j < entries@.len() ==> (#[trigger] entries@[j]).hist@.count() <= u64::MAX
                    && scales@[j]@.len() == crate::report::pretty::rows(entries@[j].hist@).len(),
            text@ == record_text(header_fields()) + records_text(
                views,
                traces,
                metric,
                scales@,
                i as int,
            ),
        decreases entries@.len() - i,
    {
        assert(views[i as int] == (entries@[i as int].word, entries@[i as int].hist@));
        let fields = fields_of(&entries[i], &scales[i], aggregator);
        assert(texts_of(fields@).len() == 6);
        let line = encode_record(&fields);
        text.append(line.as_str());
        i += 1;
        assert(text@ =~= record_text(header_fields()) + records_text(
            views,
            traces,
            metric,
            scales@,
            i as int,
        ));
    }
    text
}

/// A file on every stack, the one with the highest total first. `scale` says how a row of a
/// histogram measures up, from the count of the row, the highest count and the count of all
/// events. Which of two stacks of the same total comes first is left open.
pub fn write<F: Fn(u64, u64, u64) -> RowScale>(
    stats: &FxHashMap<u64, Histogram>,
    aggregator: &StatsAggregator,
    scale: &F,
) -> (text: String)
    requires
        crate::report::all_countable(stats@),
        forall|count: u64, max: u64, total: u64| #[trigger]
            call_requires(*scale, (count, max, total)),
    ensures
        exists|entries: Seq<(u64, Counts)>, scales: Seq<Vec<RowScale>>|
            crate::report::is_listing(stats@, false, entries) && crate::report::descends(
                OrderBy::Traffic,
                entries,
            ) && crate::report::pretty::all_scaled(*scale, entries, scales) && text@
                == #[trigger] file_text(entries, aggregator@.traces, aggregator.metric(), scales),
{
    let all = listing(stats);
    let ghost views = crate::report::entries_of(all@);
    let entries = sort(&all, OrderBy::Traffic, false);
    let ghost sorted = crate::report::entries_of(entries@);
    proof {
        crate::report::lemma_sorted_listing(
            stats@,
            false,
            OrderBy::Traffic,
            false,
            views,
            sorted,
        );
        assert forall|i: int| 0 <= i < entries@.len() implies (#[trigger] entries@[i]).hist@.count()
            <= u64::MAX by {
            assert(sorted[i].0 == entries@[i].word);
        }
    }
    let scales = entry_scales(&entries, scale);
    proof {
        assert forall|i: int| 0 <= i < entries@.len() implies scales@[i]@.len()
            == crate::report::pretty::rows((#[trigger] entries@[i]).hist@).len() by {
            assert(sorted[i].1 == entries@[i].hist@);
        }
    }
    write_entries(&entries, &scales, aggregator)
}

/// The record of a stack holds its process, its stack, the total of its values and the number
/// of its events, each of which can be read back, then its table and its trace.
pub proof fn law_record_tells_the_stack(
    entry: (u64, Counts),
    traces: Map<u32, Seq<Frame>>,
    metric: MetricSpec,
    scales: Seq<RowScale>,
)
    ensures
        ({
            let fields = entry_fields(entry, traces, metric, scales);
            let stack_id = (entry.0 % 0x1_0000_0000) as u32;
            &&& fields.len() == 6
            &&& crate::text::value_of(fields[0], 10) == entry.0 / 0x1_0000_0000
            &&& crate::text::value_of(fields[1], 10) == entry.0 % 0x1_0000_0000
            &&& crate::text::value_of(fields[2], 10) == entry.1.total
            &&& crate::text::value_of(fields[3], 10) == entry.1.count()
            &&& fields[0] == crate::text::decimal((entry.0 / 0x1_0000_0000) as nat)
            &&& fields[1] == crate::text::decimal((entry.0 % 0x1_0000_0000) as nat)
            &&& fields[2] == crate::text::decimal(entry.1.total as nat)
            &&& fields[3] == crate::text::decimal(entry.1.count())
            &&& fields[4] == crate::report::pretty::histogram_text(entry.1, metric, scales)
            &&& fields[5] == trace_field(
                if traces.contains_key(stack_id) {
                    Some(traces[stack_id])
                } else {
                    None
                },
            )
        }),
{
    crate::text::law_decimal_and_hex_read_back((entry.0 / 0x1_0000_0000) as nat);
    crate::text::law_decimal_and_hex_read_back((entry.0 % 0x1_0000_0000) as nat);
    crate::text::law_decimal_and_hex_read_back(entry.1.total as nat);
    crate::text::law_decimal_and_hex_read_back(entry.1.count());
}

/// A stack trace in a field shows every frame once and in order, with ends of lines between
/// them: the address in hexadecimal, a dash and the name. A stack without symbols says so.
pub proof fn law_trace_field_shows_every_frame(frames: Seq<Frame>)
    ensures
        trace_field(Some(frames)) == crate::text::joined(
            Seq::new(
                frames.len(),
                |i: int| crate::text::hex(frames[i].address as nat) + " - "@ + frames[i].symbol,
            ),
            seq!['\n'],
        ),
        trace_field(None) == "No resolved stacktrace"@,
{
    reveal_strlit("\n");
    assert("\n"@ =~= seq!['\n']);
    assert(frames.map_values(|frame: Frame| crate::report::pretty::frame_text(frame)) =~= Seq::new(
        frames.len(),
        |i: int| crate::text::hex(frames[i].address as nat) + " - "@ + frames[i].symbol,
    ));
}

proof fn lemma_records_text(
    entries: Seq<(u64, Counts)>,
    traces: Map<u32, Seq<Frame>>,
    metric: MetricSpec,
    scales: Seq<Vec<RowScale>>,
    n: int,
)
    requires
        0 <= n,
    ensures
        records_text(entries, traces, metric, scales, n) == Seq::new(
            n as nat,
            |i: int| record_text(entry_fields(entries[i], traces, metric, scales[i]@)),
        ).flatten(),
    decreases n,
{
    let texts = Seq::new(
        n as nat,
        |i: int| record_text(entry_fields(entries[i], traces, metric, scales[i]@)),
    );
    if n > 0 {
        lemma_records_text(entries, traces, metric, scales, n - 1);
        let before = Seq::new(
            (n - 1) as nat,
            |i: int| record_text(entry_fields(entries[i], traces, metric, scales[i]@)),
        );
        let text = record_text(entry_fields(entries[n - 1], traces, metric, scales[n - 1]@));
        assert(texts =~= before.push(text));
        before.lemma_flatten_push(text);
    } else {
        assert(texts.flatten() =~= Seq::<char>::empty());
    }
}

/// A file begins with the names of its columns, and holds the record of every stack once and in
/// order.
pub proof fn law_file_holds_every_stack(
    entries: Seq<(u64, Counts)>,
    traces: Map<u32, Seq<Frame>>,
    metric: MetricSpec,
    scales: Seq<Vec<RowScale>>,
)
    ensures
        file_text(entries, traces, metric, scales) == record_text(
            seq!["pid"@, "stack_id"@, "total"@, "count"@, "histogram"@, "stacktrace"@],
        ) + Seq::new(
            entries.len(),
            |i: int| record_text(entry_fields(entries[i], traces, metric, scales[i]@)),
        ).flatten(),
{
    lemma_records_text(entries, traces, metric, scales, entries.len() as int);
}

/// A field stands as it is where it holds no comma, quote or end of line; else it begins and
/// ends with a quote.
pub proof fn law_field_is_quoted_where_it_has_to_be(field: Seq<char>)
    ensures
        (forall|i: int|
            0 <= i < field.len() ==> #[trigger] field[i] != ',' && field[i] != '"' && field[i]
                != '\r' && field[i] != '\n') ==> field_text(field) == field,
        (exists|i: int|
            0 <= i < field.len() && (#[trigger] field[i] == ',' || field[i] == '"' || field[i]
                == '\r' || field[i] == '\n')) ==> field_text(field).len() >= 2 && field_text(
            field,
        ).first() == '"' && field_text(field).last() == '"',
{
    if exists|i: int|
        0 <= i < field.len() && (#[trigger] field[i] == ',' || field[i] == '"' || field[i] == '\r'
            || field[i] == '\n') {
        let i = choose|i: int|
            0 <= i < field.len() && (#[trigger] field[i] == ',' || field[i] == '"' || field[i]
                == '\r' || field[i] == '\n');
        assert(is_special(field[i]));
    }
}

} // verus!
