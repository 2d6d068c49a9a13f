//! What a run of the profiler is asked to do.

use crate::common::Config;
use crate::model::{MetricKind, OrderBy};
use crate::symbols::{filter_symbols, list_text_symbols, unmatched_patterns};
use crate::symbols::{MatchMode, SymEntry, Symbol, SymbolError};
use crate::text::{chars_of, find_last, owned, push_chars, push_signed_decimal};
use vstd::prelude::*;

verus! {

/// Which values are asked for. The probes of durations record no others; those of counts
/// record every call, whatever the limits of counts are.
#[derive(Clone, Copy, Debug, PartialEq, Eq, Structural)]
pub struct MetricLimits {
    pub min_time: u64,
    pub max_time: u64,
    pub min_count: u64,
    pub max_count: u64,
}

/// Why limits are refused.
#[derive(Clone, Copy, Debug, PartialEq, Eq, Structural)]
pub enum LimitError {
    Time,
    Count,
}

impl LimitError {
    pub open spec fn text(self) -> Seq<char> {
        match self {
            LimitError::Time => "--min-time must be less than or equal to --max-time"@,
            LimitError::Count => "--min-count must be less than or equal to --max-count"@,
        }
    }

    pub fn message(&self) -> (message: &'static str)
        ensures
            message@ == self.text(),
    {
        match self {
            LimitError::Time => "--min-time must be less than or equal to --max-time",
            LimitError::Count => "--min-count must be less than or equal to --max-count",
        }
    }
}

/// Refuses limits between which there is no value. The limits of times are looked at first.
pub fn check_limits(limits: &MetricLimits) -> (checked: Result<(), LimitError>)
    ensures
        checked == if limits.min_time > limits.max_time {
            Err::<(), LimitError>(LimitError::Time)
        } else if limits.min_count > limits.max_count {
            Err::<(), LimitError>(LimitError::Count)
        } else {
            Ok::<(), LimitError>(())
        },
{
    if limits.min_time > limits.max_time {
        return Err(LimitError::Time);
    }
    if limits.min_count > limits.max_count {
        return Err(LimitError::Count);
    }
    Ok(())
}

/// The maps and programs in the kernel that measure a metric, and which values it records.
#[derive(Clone, Copy, Debug)]
pub struct MetricDesc {
    pub config_map: &'static str,
    pub counter_map: &'static str,
    pub histogram_map: &'static str,
    pub entry_prog: &'static str,
    pub ret_prog: Option<&'static str>,
    pub min: u64,
    pub max: u64,
}

/// The maps and programs of a metric.
pub fn metric_desc(kind: MetricKind, limits: &MetricLimits) -> (desc: MetricDesc)
    ensures
        match kind {
            MetricKind::Count => {
                &&& desc.config_map@ == "CONFIG_COUNT"@
                &&& desc.counter_map@ == "COUNTER_COUNT"@
                &&& desc.histogram_map@ == "HISTOGRAMS_COUNT"@
                &&& desc.entry_prog@ == "probe_count_entry"@
                &&& desc.ret_prog is None
                &&& desc.min == limits.min_count
                &&& desc.max == limits.max_count
            },
            MetricKind::Duration => {
                &&& desc.config_map@ == "CONFIG_LATENCY"@
                &&& desc.counter_map@ == "COUNTER_LATENCY"@
                &&& desc.histogram_map@ == "HISTOGRAMS_LATENCY"@
                &&& desc.entry_prog@ == "probe_latency_entry"@
                &&& desc.ret_prog is Some
                &&& desc.ret_prog->0@ == "probe_latency_ret"@
                &&& desc.min == limits.min_time
                &&& desc.max == limits.max_time
            },
        },
{
    match kind {
        MetricKind::Count => MetricDesc {
            config_map: "CONFIG_COUNT",
            counter_map: "COUNTER_COUNT",
            histogram_map: "HISTOGRAMS_COUNT",
            entry_prog: "probe_count_entry",
            ret_prog: None,
            min: limits.min_count,
            max: limits.max_count,
        },
        MetricKind::Duration => MetricDesc {
            config_map: "CONFIG_LATENCY",
            counter_map: "COUNTER_LATENCY",
            histogram_map: "HISTOGRAMS_LATENCY",
            entry_prog: "probe_latency_entry",
            ret_prog: Some("probe_latency_ret"),
            min: limits.min_time,
            max: limits.max_time,
        },
    }
}

/// The configuration of the probes of a metric.
pub fn metric_config(kind: MetricKind, limits: &MetricLimits, sample_every: u32) -> (config: Config)
    ensures
        config.mode == kind.mode().spec_code(),
        config.min_value == (match kind {
            MetricKind::Count => limits.min_count,
            MetricKind::Duration => limits.min_time,
        }),
        config.max_value == (match kind {
            MetricKind::Count => limits.max_count,
            MetricKind::Duration => limits.max_time,
        }),
        config.sample_every == sample_every,
        config._pad == 0,
{
    let desc = metric_desc(kind, limits);
    Config {
        mode: kind.to_mode().code(),
        min_value: desc.min,
        max_value: desc.max,
        sample_every,
        _pad: 0,
    }
}

/// The configuration of a metric makes the probes of that metric work, and no others.
pub proof fn law_config_is_for_its_metric(kind: MetricKind, other: MetricKind, config: Config)
    requires
        config.mode == kind.mode().spec_code(),
    ensures
        crate::probe::active_config(Some(config), other.mode()) is Some <==> kind == other,
{
}

/// Of the first `n` metrics each one once, in the order in which they come first.
pub open spec fn distinct_before(metrics: Seq<MetricKind>, n: int) -> Seq<MetricKind>
    decreases n,
{
    if n <= 0 {
        seq![]
    } else if distinct_before(metrics, n - 1).contains(metrics[n - 1]) {
        distinct_before(metrics, n - 1)
    } else {
        distinct_before(metrics, n - 1).push(metrics[n - 1])
    }
}

/// The metrics that are measured: each one that is asked for once, or the count of calls
/// where none is.
pub open spec fn selected(metrics: Seq<MetricKind>) -> Seq<MetricKind> {
    if metrics.len() == 0 {
        seq![MetricKind::Count]
    } else {
        distinct_before(metrics, metrics.len() as int)
    }
}

fn has_metric(metrics: &Vec<MetricKind>, kind: MetricKind) -> (found: bool)
    ensures
        found == metrics@.contains(kind),
{
    let mut i: usize = 0;
    while i < metrics.len()
        invariant
            i <= metrics@.len(),
            forall|j: int| 0 <= j < i ==> metrics@[j] != kind,
        decreases metrics@.len() - i,
    {
        if metrics[i] == kind {
            return true;
        }
        i += 1;
    }
    false
}

/// The metrics that are measured.
pub fn select_metrics(asked: &Vec<MetricKind>) -> (metrics: Vec<MetricKind>)
    ensures
        metrics@ == selected(asked@),
{
    let mut metrics: Vec<MetricKind> = Vec::new();
    let mut i: usize = 0;
    while i < asked.len()
        invariant
            i <= asked@.len(),
            metrics@ == distinct_before(asked@, i as int),
        decreases asked@.len() - i,
    {
        if !has_metric(&metrics, asked[i]) {
            metrics.push(asked[i]);
        }
        i += 1;
    }
    proof {
        if asked@.len() > 0 {
            lemma_distinct_before(asked@, asked@.len() as int);
            assert(asked@.take(asked@.len() as int) =~= asked@);
            assert(asked@.contains(asked@[0]));
            assert(metrics@.contains(asked@[0]));
        }
    }
    if metrics.is_empty() {
        metrics.push(MetricKind::Count);
        assert(metrics@ =~= seq![MetricKind::Count]);
    }
    metrics
}

proof fn lemma_distinct_before(metrics: Seq<MetricKind>, n: int)
    requires
        0 <= n <= metrics.len(),
    ensures
        distinct_before(metrics, n).no_duplicates(),
        forall|kind: MetricKind| #[trigger]
            distinct_before(metrics, n).contains(kind) <==> metrics.take(n).contains(kind),
    decreases n,
{
    if n > 0 {
        lemma_distinct_before(metrics, n - 1);
        let before = distinct_before(metrics, n - 1);
        let now = distinct_before(metrics, n);
        assert(metrics.take(n) =~= metrics.take(n - 1).push(metrics[n - 1]));
        assert forall|kind: MetricKind| #[trigger] now.contains(kind) <==> metrics.take(
            n,
        ).contains(kind) by {
            vstd::seq_lib::lemma_seq_contains_after_push(
                metrics.take(n - 1),
                metrics[n - 1],
                kind,
            );
            vstd::seq_lib::lemma_seq_contains_after_push(before, metrics[n - 1], kind);
            assert(before.contains(kind) <==> metrics.take(n - 1).contains(kind));
        }
    }
}

/// Something is measured, nothing twice, and whatever is asked for. Nothing else is, but the
/// count of calls where nothing is asked for.
pub proof fn law_selected_metrics(metrics: Seq<MetricKind>, kind: MetricKind)
    ensures
        selected(metrics).len() > 0,
        selected(metrics).no_duplicates(),
        metrics.contains(kind) ==> selected(metrics).contains(kind),
        selected(metrics).contains(kind) ==> metrics.contains(kind) || metrics.len() == 0 && kind
            == MetricKind::Count,
{
    if metrics.len() > 0 {
        lemma_distinct_before(metrics, metrics.len() as int);
        assert(metrics.take(metrics.len() as int) =~= metrics);
        assert(metrics.contains(metrics[0]));
        assert(selected(metrics).contains(metrics[0]));
        assert(selected(metrics).contains(kind) <==> metrics.contains(kind));
    }
}

/// Metrics that were selected stay as they are.
pub proof fn law_selecting_twice(metrics: Seq<MetricKind>)
    ensures
        selected(selected(metrics)) == selected(metrics),
{
    law_selected_metrics(metrics, MetricKind::Count);
    lemma_distinct_of_distinct(selected(metrics), selected(metrics).len() as int);
    let all = selected(metrics);
    assert(all.take(all.len() as int) =~= all);
}

proof fn lemma_distinct_of_distinct(metrics: Seq<MetricKind>, n: int)
    requires
        0 <= n <= metrics.len(),
        metrics.no_duplicates(),
    ensures
        distinct_before(metrics, n) == metrics.take(n),
    decreases n,
{
    if n > 0 {
        lemma_distinct_of_distinct(metrics, n - 1);
        assert(metrics.take(n) =~= metrics.take(n - 1).push(metrics[n - 1]));
        assert(!metrics.take(n - 1).contains(metrics[n - 1]));
    } else {
        assert(distinct_before(metrics, n) =~= metrics.take(n));
    }
}

/// The first `n` texts without the white space at both ends, and without those that are
/// empty then.
pub open spec fn cleaned_before(texts: Seq<Seq<char>>, n: int) -> Seq<Seq<char>>
    decreases n,
{
    if n <= 0 {
        seq![]
    } else if crate::text::trimmed(texts[n - 1]).len() > 0 {
        cleaned_before(texts, n - 1).push(crate::text::trimmed(texts[n - 1]))
    } else {
        cleaned_before(texts, n - 1)
    }
}

/// The patterns that are looked for.
pub open spec fn cleaned(texts: Seq<Seq<char>>) -> Seq<Seq<char>> {
    cleaned_before(texts, texts.len() as int)
}

/// Why no function was selected.
#[derive(Debug)]
pub enum MatchError {
    /// No pattern is left.
    NoPatterns,
    /// The symbols could not be read, or a pattern is no regular expression.
    Symbols(SymbolError),
    /// None of the patterns matches.
    NoMatch,
}

/// The patterns that are looked for.
pub fn clean_patterns(functions: &Vec<String>) -> (patterns: Result<Vec<String>, MatchError>)
    ensures
        if cleaned(crate::symbols::texts_of(functions@)).len() == 0 {
            patterns == Err::<Vec<String>, MatchError>(MatchError::NoPatterns)
        } else {
            &&& patterns is Ok
            &&& crate::symbols::texts_of(patterns->Ok_0@) == cleaned(
                crate::symbols::texts_of(functions@),
            )
        },
{
    let ghost texts = crate::symbols::texts_of(functions@);
    let mut patterns: Vec<String> = Vec::new();
    let mut i: usize = 0;
    assert(crate::symbols::texts_of(patterns@) =~= cleaned_before(texts, 0));
    while i < functions.len()
        invariant
            i <= functions@.len(),
            texts == crate::symbols::texts_of(functions@),
            crate::symbols::texts_of(patterns@) == cleaned_before(texts, i as int),
        decreases functions@.len() - i,
    {
        let ghost before = patterns@;
        let pattern = functions[i].as_str().trim();
        assert(pattern@ == crate::text::trimmed(texts[i as int]));
        if !pattern.is_empty() {
            patterns.push(owned(pattern));
            assert(crate::symbols::texts_of(patterns@) =~= crate::symbols::texts_of(before).push(
                pattern@,
            ));
        }
        i += 1;
    }
    if patterns.is_empty() {
        return Err(MatchError::NoPatterns);
    }
    Ok(patterns)
}

/// No pattern that is looked for is empty, or begins or ends with white space.
pub proof fn law_cleaned_patterns(texts: Seq<Seq<char>>, i: int)
    requires
        0 <= i < cleaned(texts).len(),
    ensures
        cleaned(texts)[i].len() > 0,
        !crate::text::is_white_space(cleaned(texts)[i].first()),
        !crate::text::is_white_space(cleaned(texts)[i].last()),
{
    lemma_cleaned_before(texts, texts.len() as int, i);
}

proof fn lemma_cleaned_before(texts: Seq<Seq<char>>, n: int, i: int)
    requires
        0 <= n <= texts.len(),
        0 <= i < cleaned_before(texts, n).len(),
    ensures
        cleaned_before(texts, n)[i].len() > 0,
        !crate::text::is_white_space(cleaned_before(texts, n)[i].first()),
        !crate::text::is_white_space(cleaned_before(texts, n)[i].last()),
    decreases n,
{
    if i < cleaned_before(texts, n - 1).len() {
        lemma_cleaned_before(texts, n - 1, i);
    } else {
        crate::text::lemma_trimmed(texts[n - 1]);
    }
}

/// The functions that are probed, and the patterns that match none.
#[derive(Clone, Debug)]
pub struct MatchResolution {
    pub matches: Vec<SymEntry>,
    pub missing: Vec<String>,
}

/// What comes of looking for patterns among symbols.
pub open spec fn is_resolution(
    resolution: Result<MatchResolution, MatchError>,
    all: Seq<Symbol>,
    patterns: Seq<Seq<char>>,
    mode: MatchMode,
) -> bool {
    if mode == MatchMode::Regex && !crate::symbols::every_compiles(patterns) {
        resolution matches Err(MatchError::Symbols(SymbolError::InvalidRegex(_)))
    } else if crate::symbols::selection(mode, all, patterns).len() == 0 {
        resolution == Err::<MatchResolution, MatchError>(MatchError::NoMatch)
    } else {
        &&& resolution is Ok
        &&& crate::symbols::symbols_of(resolution->Ok_0.matches@) == crate::symbols::selection(
            mode,
            all,
            patterns,
        )
        &&& crate::symbols::texts_of(resolution->Ok_0.missing@) == crate::symbols::unmatched(
            mode,
            all,
            patterns,
        )
    }
}

fn owned_symbols(symbols: &Vec<&SymEntry>) -> (all: Vec<SymEntry>)
    ensures
        crate::symbols::symbols_of(all@) == symbols@.map_values(|symbol: &SymEntry| symbol@),
{
    let ghost views = symbols@.map_values(|symbol: &SymEntry| symbol@);
    let mut all: Vec<SymEntry> = Vec::new();
    let mut i: usize = 0;
    assert(crate::symbols::symbols_of(all@) =~= views.take(0));
    while i < symbols.len()
        invariant
            i <= symbols@.len(),
            views == symbols@.map_values(|symbol: &SymEntry| symbol@),
            crate::symbols::symbols_of(all@) == views.take(i as int),
        decreases symbols@.len() - i,
    {
        let symbol = symbols[i];
        let ghost before = all@;
        all.push(
            SymEntry {
                mangled: symbol.mangled.clone(),
                demangled: symbol.demangled.clone(),
                addr: symbol.addr,
            },
        );
        i += 1;
        assert(crate::symbols::symbols_of(all@) =~= crate::symbols::symbols_of(before).push(
            symbol@,
        ));
        assert(views.take(i as int) =~= views.take(i - 1).push(symbol@));
    }
    assert(views.take(i as int) =~= views);
    all
}

fn owned_texts(texts: &Vec<&str>) -> (all: Vec<String>)
    ensures
        crate::symbols::texts_of(all@) == texts@.map_values(|text: &str| text@),
{
    let ghost views = texts@.map_values(|text: &str| text@);
    let mut all: Vec<String> = Vec::new();
    let mut i: usize = 0;
    assert(crate::symbols::texts_of(all@) =~= views.take(0));
    while i < texts.len()
        invariant
            i <= texts@.len(),
            views == texts@.map_values(|text: &str| text@),
            crate::symbols::texts_of(all@) == views.take(i as int),
        decreases texts@.len() - i,
    {
        let ghost before = all@;
        all.push(owned(texts[i]));
        i += 1;
        assert(crate::symbols::texts_of(all@) =~= crate::symbols::texts_of(before).push(
            views[i - 1],
        ));
        assert(views.take(i as int) =~= views.take(i - 1).push(views[i - 1]));
    }
    assert(views.take(i as int) =~= views);
    all
}

/// The symbols that the patterns select, and the patterns that match none.
pub fn match_symbols(symbols: &Vec<SymEntry>, patterns: &Vec<String>, mode: MatchMode) -> (resolution:
    Result<MatchResolution, MatchError>)
    ensures
        is_resolution(
            resolution,
            crate::symbols::symbols_of(symbols@),
            crate::symbols::texts_of(patterns@),
            mode,
        ),
{
    let matches = match filter_symbols(symbols.as_slice(), patterns.as_slice(), mode) {
        Ok(matches) => matches,
        Err(err) => {
            return Err(MatchError::Symbols(err));
        },
    };
    let missing = match unmatched_patterns(symbols.as_slice(), patterns.as_slice(), mode) {
        Ok(missing) => missing,
        Err(err) => {
            return Err(MatchError::Symbols(err));
        },
    };
    if matches.is_empty() {
        return Err(MatchError::NoMatch);
    }
    Ok(MatchResolution { matches: owned_symbols(&matches), missing: owned_texts(&missing) })
}

/// The functions of the program in an object file that the patterns select.
pub fn resolve_matches(data: &[u8], patterns: &Vec<String>, mode: MatchMode) -> (resolution: Result<
    MatchResolution,
    MatchError,
>)
    requires
        crate::symbols::addresses_fit(data@),
    ensures
        match crate::symbols::object_symbols(data@) {
            None => resolution matches Err(MatchError::Symbols(SymbolError::Parse(_))),
            Some(table) => if crate::symbols::text_symbols(table).len() == 0 {
                resolution == Err::<MatchResolution, MatchError>(
                    MatchError::Symbols(SymbolError::NoTextSymbols),
                )
            } else {
                is_resolution(
                    resolution,
                    crate::symbols::text_symbols(table),
                    crate::symbols::texts_of(patterns@),
                    mode,
                )
            },
        },
{
    match list_text_symbols(data) {
        Ok(symbols) => match_symbols(&symbols, patterns, mode),
        Err(err) => Err(MatchError::Symbols(err)),
    }
}

/// Where the program of a process is found.
pub fn proc_exe_path(pid: i32) -> (path: String)
    ensures
        path@ == "/proc/"@ + crate::text::signed_decimal(pid as int) + "/exe"@,
{
    let mut path = String::new();
    path.append("/proc/");
    push_signed_decimal(&mut path, pid);
    path.append("/exe");
    assert(path@ =~= "/proc/"@ + crate::text::signed_decimal(pid as int) + "/exe"@);
    path
}

/// The name of a file that holds one of several metrics, from the name without its extension.
pub open spec fn suffixed(stem: Option<Seq<char>>, suffix: Seq<char>) -> Seq<char> {
    (match stem {
        Some(stem) => stem,
        None => "output"@,
    }) + "-"@ + suffix
}

/// The name of a file that holds one of several metrics, from the name without its extension.
pub fn suffixed_name(stem: Option<&str>, suffix: &str) -> (name: String)
    ensures
        name@ == suffixed(
            match stem {
                Some(stem) => Some(stem@),
                None => None,
            },
            suffix@,
        ),
{
    let mut name = match stem {
        Some(stem) => owned(stem),
        None => owned("output"),
    };
    name.append("-");
    name.append(suffix);
    assert(name@ =~= suffixed(
        match stem {
            Some(stem) => Some(stem@),
            None => None,
        },
        suffix@,
    ));
    name
}

/// The name of a file without its extension: up to the last dot, unless that comes first.
pub open spec fn stem(name: Seq<char>) -> Seq<char> {
    let dot = crate::text::last_index(name, '.', name.len() as int);
    if dot > 0 {
        name.take(dot)
    } else {
        name
    }
}

/// The extension of the name of a file: what follows the last dot, unless that comes first.
pub open spec fn extension(name: Seq<char>) -> Option<Seq<char>> {
    let dot = crate::text::last_index(name, '.', name.len() as int);
    if dot > 0 {
        Some(name.skip(dot + 1))
    } else {
        None
    }
}

/// The name of a file with another extension in place of its own, or without one where the
/// other is empty.
pub open spec fn with_extension(name: Seq<char>, extension: Seq<char>) -> Seq<char> {
    if extension.len() == 0 {
        stem(name)
    } else {
        stem(name) + seq!['.'] + extension
    }
}

/// The name of a file that holds one of several metrics: the suffix behind the name without
/// its extension, and the extension again.
pub open spec fn suffixed_file(name: Seq<char>, suffix: Seq<char>) -> Seq<char> {
    let suffixed = suffixed(Some(stem(name)), suffix);
    match extension(name) {
        Some(extension) => with_extension(suffixed, extension),
        None => suffixed,
    }
}

/// The name of a file that holds one of several metrics.
pub fn suffixed_file_name(file_name: &str, suffix: &str) -> (name: String)
    ensures
        name@ == suffixed_file(file_name@, suffix@),
{
    let chars = chars_of(file_name);
    let dot: Option<usize> = find_last(&chars, '.');
    let dot: usize = match dot {
        Some(dot) => dot,
        None => 0,
    };
    if dot == 0 {
        return suffixed_name(Some(file_name), suffix);
    }
    let mut short = String::new();
    push_chars(&mut short, &chars, 0, dot);
    assert(short@ =~= stem(file_name@));
    let suffixed = suffixed_name(Some(short.as_str()), suffix);
    let suffixed_chars = chars_of(suffixed.as_str());
    let end: usize = match find_last(&suffixed_chars, '.') {
        Some(last) => if last > 0 {
            last
        } else {
            suffixed_chars.len()
        },
        None => suffixed_chars.len(),
    };
    let mut name = String::new();
    push_chars(&mut name, &suffixed_chars, 0, end);
    assert(name@ =~= stem(suffixed@));
    if chars.len() - dot > 1 {
        name.push('.');
        push_chars(&mut name, &chars, dot + 1, chars.len());
    }
    assert(extension(file_name@)->0 =~= chars@.subrange(dot + 1, chars@.len() as int));
    assert(name@ =~= suffixed_file(file_name@, suffix@));
    name
}

/// Whether a suffix survives in the name of a file. It does not where the name has an
/// extension, and another dot within the rest: what follows that dot gives way to the
/// extension.
pub open spec fn keeps_suffix(name: Seq<char>) -> bool {
    extension(name) is None || extension(stem(name)) is None
}

proof fn lemma_last_index_of_dotless(front: Seq<char>, back: Seq<char>)
    requires
        !back.contains('.'),
    ensures
        crate::text::last_index(front + back, '.', (front + back).len() as int)
            == crate::text::last_index(front, '.', front.len() as int),
    decreases back.len(),
{
    if back.len() == 0 {
        assert(front + back =~= front);
    } else {
        let whole = front + back;
        assert(back.contains(back.last()));
        assert forall|c: char| back.drop_last().contains(c) implies back.contains(c) by {
            let i = choose|i: int| 0 <= i < back.len() - 1 && back[i] == c;
            assert(back[i] == c);
        }
        lemma_last_index_of_dotless(front, back.drop_last());
        assert(whole.drop_last() =~= front + back.drop_last());
        crate::text::lemma_last_index_prefix(whole, '.', whole.len() - 1);
        assert(whole.take(whole.len() - 1) =~= whole.drop_last());
    }
}

proof fn lemma_suffix_survives(name: Seq<char>, suffix: Seq<char>)
    requires
        keeps_suffix(name),
        !suffix.contains('.'),
    ensures
        suffixed_file(name, suffix) == stem(name) + "-"@ + suffix + (match extension(name) {
            Some(extension) => if extension.len() == 0 {
                seq![]
            } else {
                seq!['.'] + extension
            },
            None => seq![],
        }),
{
    reveal_strlit("-");
    let back = "-"@ + suffix;
    assert(stem(name) + "-"@ + suffix =~= stem(name) + back);
    assert(!back.contains('.')) by {
        if back.contains('.') {
            let i = choose|i: int| 0 <= i < back.len() && back[i] == '.';
            assert(i > 0 && suffix[i - 1] == '.');
        }
    }
    lemma_last_index_of_dotless(stem(name), back);
    assert(suffixed_file(name, suffix) =~= stem(name) + "-"@ + suffix + (match extension(name) {
        Some(extension) => if extension.len() == 0 {
            seq![]
        } else {
            seq!['.'] + extension
        },
        None => seq![],
    }));
}

/// Different suffixes give different names, where the name of the file keeps them.
pub proof fn law_suffixes_tell_files_apart(name: Seq<char>, a: Seq<char>, b: Seq<char>)
    requires
        keeps_suffix(name),
        !a.contains('.'),
        !b.contains('.'),
        a != b,
    ensures
        suffixed_file(name, a) != suffixed_file(name, b),
{
    reveal_strlit("-");
    lemma_suffix_survives(name, a);
    lemma_suffix_survives(name, b);
    let from = stem(name).len() + 1;
    let tail = match extension(name) {
        Some(extension) => if extension.len() == 0 {
            seq![]
        } else {
            seq!['.'] + extension
        },
        None => Seq::<char>::empty(),
    };
    let first = suffixed_file(name, a);
    let second = suffixed_file(name, b);
    assert(first.subrange(from as int, first.len() - tail.len()) =~= a);
    assert(second.subrange(from as int, second.len() - tail.len()) =~= b);
}

/// Different metrics go to different files, where the name of the file keeps suffixes.
pub proof fn law_metrics_go_to_different_files(name: Seq<char>, a: MetricKind, b: MetricKind)
    requires
        keeps_suffix(name),
        a != b,
    ensures
        suffixed_file(name, a.suffix()) != suffixed_file(name, b.suffix()),
{
    reveal_strlit("count");
    reveal_strlit("latency");
    assert(a.suffix().len() != b.suffix().len());
    law_suffixes_tell_files_apart(name, a.suffix(), b.suffix());
}

/// The flame graphs that are written: by size and by count.
pub fn flame_outputs(base: &str) -> (outputs: Vec<(String, OrderBy)>)
    ensures
        outputs@.len() == 2,
        outputs@[0].0@ == base@ + "_by_count.svg"@,
        outputs@[0].1 == OrderBy::Count,
        outputs@[1].0@ == base@ + "_by_size.svg"@,
        outputs@[1].1 == OrderBy::Traffic,
{
    let mut by_count = owned(base);
    by_count.append("_by_count.svg");
    let mut by_size = owned(base);
    by_size.append("_by_size.svg");
    let mut outputs: Vec<(String, OrderBy)> = Vec::new();
    outputs.push((by_count, OrderBy::Count));
    outputs.push((by_size, OrderBy::Traffic));
    outputs
}

/// What stands above the report on one of several metrics.
pub open spec fn heading_text(kind: MetricKind) -> Seq<char> {
    match kind {
        MetricKind::Count => "Count metric\n\n"@,
        MetricKind::Duration => "Duration metric\n\n"@,
    }
}

/// What stands above the report on one of several metrics.
pub fn heading(kind: MetricKind) -> (text: &'static str)
    ensures
        text@ == heading_text(kind),
{
    match kind {
        MetricKind::Count => "Count metric\n\n",
        MetricKind::Duration => "Duration metric\n\n",
    }
}

/// What is said of a collector that panicked, with what it said itself.
pub open spec fn panic_text(said: Option<Seq<char>>) -> Seq<char> {
    match said {
        Some(said) => "collector thread panicked: "@ + said,
        None => "collector thread panicked"@,
    }
}

/// What is said of a collector that panicked, with what it said itself.
pub fn panic_message(said: Option<&str>) -> (message: String)
    ensures
        message@ == panic_text(
            match said {
                Some(said) => Some(said@),
                None => None,
            },
        ),
{
    match said {
        Some(said) => {
            let mut message = owned("collector thread panicked: ");
            message.append(said);
            message
        },
        None => owned("collector thread panicked"),
    }
}

/// The patterns that are looked for are those that are given, without the white space at both
/// ends, and without those that are empty then: all of them, in order, and no other.
pub proof fn law_cleaned_are_all_patterns_with_text(texts: Seq<Seq<char>>)
    ensures
        cleaned(texts) == texts.map_values(|text: Seq<char>| crate::text::trimmed(text)).filter(
            |text: Seq<char>| text.len() > 0,
        ),
{
    lemma_cleaned_is_filter(texts, texts.len() as int);
    let trimmed = texts.map_values(|text: Seq<char>| crate::text::trimmed(text));
    assert(trimmed.take(texts.len() as int) =~= trimmed);
}

proof fn lemma_cleaned_is_filter(texts: Seq<Seq<char>>, n: int)
    requires
        0 <= n <= texts.len(),
    ensures
        cleaned_before(texts, n) == texts.map_values(
            |text: Seq<char>| crate::text::trimmed(text),
        ).take(n).filter(|text: Seq<char>| text.len() > 0),
    decreases n,
{
    let trimmed = texts.map_values(|text: Seq<char>| crate::text::trimmed(text));
    reveal(Seq::filter);
    if n > 0 {
        lemma_cleaned_is_filter(texts, n - 1);
        assert(trimmed.take(n).drop_last() =~= trimmed.take(n - 1));
    } else {
        assert(cleaned_before(texts, n) =~= trimmed.take(n));
    }
}

/// Metrics are measured in the order in which they are first asked for.
pub proof fn law_metrics_keep_their_order(metrics: Seq<MetricKind>, i: int, j: int) -> (k: int)
    requires
        metrics.len() > 0,
        0 <= i < j < selected(metrics).len(),
    ensures
        0 <= k < metrics.len(),
        metrics[k] == selected(metrics)[i],
        forall|l: int| 0 <= l <= k ==> #[trigger] metrics[l] != selected(metrics)[j],
{
    lemma_distinct_order(metrics, metrics.len() as int, i, j)
}

proof fn lemma_distinct_order(metrics: Seq<MetricKind>, n: int, i: int, j: int) -> (k: int)
    requires
        0 <= n <= metrics.len(),
        0 <= i < j < distinct_before(metrics, n).len(),
    ensures
        0 <= k < n,
        metrics[k] == distinct_before(metrics, n)[i],
        forall|l: int| 0 <= l <= k ==> #[trigger] metrics[l] != distinct_before(metrics, n)[j],
    decreases n,
{
    let before = distinct_before(metrics, n - 1);
    if j < before.len() {
        lemma_distinct_order(metrics, n - 1, i, j)
    } else {
        lemma_distinct_before(metrics, n - 1);
        assert(before.contains(before[i]));
        assert(metrics.take(n - 1).contains(before[i]));
        let earlier = metrics.take(n - 1);
        let k = choose|k: int| 0 <= k < earlier.len() && earlier[k] == before[i];
        assert forall|l: int| 0 <= l <= k implies #[trigger] metrics[l] != distinct_before(
            metrics,
            n,
        )[j] by {
            if metrics[l] == metrics[n - 1] {
                assert(metrics.take(n - 1)[l] == metrics[n - 1]);
                assert(metrics.take(n - 1).contains(metrics[n - 1]));
                assert(before.contains(metrics[n - 1]));
            }
        }
        k
    }
}

/// Where nothing is asked for, calls are counted.
pub proof fn law_calls_are_counted_by_default()
    ensures
        selected(Seq::<MetricKind>::empty()) == seq![MetricKind::Count],
{
}

/// What comes of looking for patterns: an error where a regex does not compile, or where nothing
/// is selected; else what is selected, and the patterns that match nothing.
pub proof fn law_resolution_tells_what_was_found(
    resolution: Result<MatchResolution, MatchError>,
    all: Seq<Symbol>,
    patterns: Seq<Seq<char>>,
    mode: MatchMode,
)
    requires
        is_resolution(resolution, all, patterns, mode),
    ensures
        resolution is Ok <==> {
            &&& mode == MatchMode::Regex ==> crate::symbols::every_compiles(patterns)
            &&& exists|i: int|
                0 <= i < all.len() && crate::symbols::any_matches(
                    mode,
                    (#[trigger] all[i]).demangled,
                    patterns,
                )
        },
        resolution matches Ok(found) ==> {
            &&& found.matches@.map_values(|symbol: SymEntry| symbol@) == crate::symbols::selection(
                mode,
                all,
                patterns,
            )
            &&& found.missing@.map_values(|pattern: String| pattern@) == crate::symbols::unmatched(
                mode,
                all,
                patterns,
            )
        },
        resolution is Err ==> if mode == MatchMode::Regex && !crate::symbols::every_compiles(
            patterns,
        ) {
            resolution matches Err(MatchError::Symbols(SymbolError::InvalidRegex(_)))
        } else {
            resolution == Err::<MatchResolution, MatchError>(MatchError::NoMatch)
        },
{
    let selection = crate::symbols::selection(mode, all, patterns);
    if selection.len() > 0 {
        crate::symbols::law_selected_symbols_match(mode, all, patterns, 0);
        let i = choose|i: int| 0 <= i < all.len() && all[i] == selection[0];
        assert(crate::symbols::any_matches(mode, all[i].demangled, patterns));
    }
    if exists|i: int|
        0 <= i < all.len() && crate::symbols::any_matches(
            mode,
            (#[trigger] all[i]).demangled,
            patterns,
        ) {
        let i = choose|i: int|
            0 <= i < all.len() && crate::symbols::any_matches(
                mode,
                (#[trigger] all[i]).demangled,
                patterns,
            );
        crate::symbols::law_matching_symbols_are_selected(mode, all, patterns, i);
    }
}

proof fn lemma_last_dot(front: Seq<char>, back: Seq<char>)
    requires
        !back.contains('.'),
    ensures
        crate::text::last_index(
            front + seq!['.'] + back,
            '.',
            (front + seq!['.'] + back).len() as int,
        ) == front.len(),
{
    let head = front + seq!['.'];
    lemma_last_index_of_dotless(head, back);
    assert(head[head.len() - 1] == '.');
}

/// The name of a file without an extension gets the suffix behind it.
pub proof fn law_suffix_without_extension(name: Seq<char>, suffix: Seq<char>)
    requires
        !name.contains('.'),
    ensures
        suffixed_file(name, suffix) == name + seq!['-'] + suffix,
{
    reveal_strlit("-");
    crate::text::law_last_index(name, '.', name.len() as int);
    let dot = crate::text::last_index(name, '.', name.len() as int);
    if dot >= 0 {
        assert(name.contains(name[dot]));
    }
    assert("-"@ =~= seq!['-']);
}

/// The name of a file with one extension gets the suffix before it.
pub proof fn law_suffix_before_extension(
    base: Seq<char>,
    extension: Seq<char>,
    suffix: Seq<char>,
)
    requires
        base.len() > 0,
        extension.len() > 0,
        !base.contains('.'),
        !extension.contains('.'),
        !suffix.contains('.'),
    ensures
        suffixed_file(base + seq!['.'] + extension, suffix) == base + seq!['-'] + suffix + seq!['.']
            + extension,
{
    reveal_strlit("-");
    assert("-"@ =~= seq!['-']);
    let name = base + seq!['.'] + extension;
    lemma_last_dot(base, extension);
    assert(stem(name) =~= base);
    assert(self::extension(name)->0 =~= extension);
    crate::text::law_last_index(base, '.', base.len() as int);
    let dot = crate::text::last_index(base, '.', base.len() as int);
    if dot >= 0 {
        assert(base.contains(base[dot]));
    }
    lemma_suffix_survives(name, suffix);
    assert(suffixed_file(name, suffix) =~= base + seq!['-'] + suffix + seq!['.'] + extension);
}

/// Where the name of a file holds a dot before its extension, the extension replaces what
/// follows that dot, and the suffix with it.
pub proof fn law_extension_replaces_suffix(
    front: Seq<char>,
    back: Seq<char>,
    extension: Seq<char>,
    suffix: Seq<char>,
)
    requires
        front.len() > 0,
        extension.len() > 0,
        !back.contains('.'),
        !extension.contains('.'),
        !suffix.contains('.'),
    ensures
        suffixed_file(front + seq!['.'] + back + seq!['.'] + extension, suffix) == front + seq!['.']
            + extension,
{
    reveal_strlit("-");
    assert("-"@ =~= seq!['-']);
    let base = front + seq!['.'] + back;
    let name = base + seq!['.'] + extension;
    lemma_last_dot(base, extension);
    assert(stem(name) =~= base);
    assert(self::extension(name)->0 =~= extension);
    let rest = back + seq!['-'] + suffix;
    assert(!rest.contains('.')) by {
        if rest.contains('.') {
            let i = choose|i: int| 0 <= i < rest.len() && rest[i] == '.';
            if i < back.len() {
                assert(back[i] == '.');
            } else {
                assert(i > back.len() && suffix[i - back.len() - 1] == '.');
            }
        }
    }
    lemma_last_dot(front, rest);
    let suffixed = suffixed(Some(base), suffix);
    assert(suffixed =~= front + seq!['.'] + rest);
    assert(stem(suffixed) =~= front);
    assert(suffixed_file(name, suffix) =~= front + seq!['.'] + extension);
}

/// A name with a suffix is the name, a dash and the suffix; a file without a name of its own is
/// called output.
pub proof fn law_suffix_stands_behind_a_dash(stem: Seq<char>, suffix: Seq<char>)
    ensures
        suffixed(Some(stem), suffix) == stem + "-"@ + suffix,
        suffixed(None, suffix) == "output"@ + "-"@ + suffix,
{
}

/// The report on a metric says above it which metric it is.
pub proof fn law_headings_name_their_metric(kind: MetricKind)
    ensures
        kind == MetricKind::Count ==> heading_text(kind) == "Count metric\n\n"@,
        kind == MetricKind::Duration ==> heading_text(kind) == "Duration metric\n\n"@,
{
}

/// What is said of a collector that panicked ends with what it said itself.
pub proof fn law_panic_is_reported(said: Seq<char>)
    ensures
        panic_text(Some(said)) == "collector thread panicked: "@ + said,
        panic_text(None) == "collector thread panicked"@,
{
}

} // verus!
