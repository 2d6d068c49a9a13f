//! Metrics and how they are collected.

use crate::common::MetricMode;
use vstd::prelude::*;

verus! {

/// What is measured of a function.
#[derive(Clone, Copy, Debug, PartialEq, Eq, Structural)]
pub enum MetricKind {
    Count,
    Duration,
}

impl MetricKind {
    /// The mode of the probes.
    pub open spec fn mode(self) -> MetricMode {
        match self {
            MetricKind::Count => MetricMode::Count,
            MetricKind::Duration => MetricMode::DurationNs,
        }
    }

    /// What the values of the metric are called.
    pub open spec fn label(self) -> Seq<char> {
        match self {
            MetricKind::Count => "count"@,
            MetricKind::Duration => "time (ns)"@,
        }
    }

    /// What is put behind the name of a file that holds the metric.
    pub open spec fn suffix(self) -> Seq<char> {
        match self {
            MetricKind::Count => "count"@,
            MetricKind::Duration => "latency"@,
        }
    }

    pub fn to_mode(self) -> (mode: MetricMode)
        ensures
            mode == self.mode(),
    {
        match self {
            Self::Count => MetricMode::Count,
            Self::Duration => MetricMode::DurationNs,
        }
    }

    pub fn value_label(self) -> (label: &'static str)
        ensures
            label@ == self.label(),
    {
        match self {
            Self::Count => "count",
            Self::Duration => "time (ns)",
        }
    }

    pub fn file_suffix(self) -> (suffix: &'static str)
        ensures
            suffix@ == self.suffix(),
    {
        match self {
            Self::Count => "count",
            Self::Duration => "latency",
        }
    }
}

/// By what the stack traces are ranked.
#[derive(Clone, Copy, Debug, PartialEq, Eq, Structural)]
pub enum OrderBy {
    Count,
    Traffic,
}

/// A metric, and below which totals a stack trace is skipped.
#[derive(Clone, Copy, Debug)]
pub struct MetricSpec {
    pub kind: MetricKind,
    pub skip_total_value_lt: u64,
    pub skip_total_count_lt: u64,
    pub value_label: &'static str,
}

impl MetricSpec {
    pub fn new(kind: MetricKind, skip_total_value_lt: u64, skip_total_count_lt: u64) -> (spec: Self)
        ensures
            spec.kind == kind,
            spec.skip_total_value_lt == skip_total_value_lt,
            spec.skip_total_count_lt == skip_total_count_lt,
            spec.value_label@ == kind.label(),
    {
        Self { kind, skip_total_value_lt, skip_total_count_lt, value_label: kind.value_label() }
    }
}

/// The number of nanoseconds that `Duration::as_nanos` gives.
pub uninterp spec fn duration_nanos(duration: std::time::Duration) -> u128;

/// `Duration::as_nanos` gives the whole duration in nanoseconds, under a name.
pub assume_specification[ std::time::Duration::as_nanos ](duration: &std::time::Duration) -> (nanos: u128)
    ensures
        nanos == duration_nanos(*duration),
;

/// `Duration::from_secs` makes a duration of so many whole seconds.
pub assume_specification[ std::time::Duration::from_secs ](secs: u64) -> (duration: std::time::Duration)
    ensures
        duration_nanos(duration) == secs * 1_000_000_000,
;

/// How long a key that was skipped stays in the kernel's map.
#[derive(Clone, Copy, Debug)]
pub struct Retention {
    pub sweep_every: std::time::Duration,
}

impl Default for Retention {
    /// A minute.
    fn default() -> (retention: Self)
        ensures
            duration_nanos(retention.sweep_every) == 60_000_000_000,
    {
        Self { sweep_every: std::time::Duration::from_secs(60) }
    }
}

/// Each metric has a mode, a label and a suffix of its own.
pub proof fn law_metrics_are_told_apart(a: MetricKind, b: MetricKind)
    ensures
        a.mode() == b.mode() <==> a == b,
        a.label() == b.label() <==> a == b,
        a.suffix() == b.suffix() <==> a == b,
        MetricKind::Count.mode() == MetricMode::Count,
        MetricKind::Duration.mode() == MetricMode::DurationNs,
        MetricKind::Count.label() == "count"@,
        MetricKind::Duration.label() == "time (ns)"@,
        MetricKind::Count.suffix() == "count"@,
        MetricKind::Duration.suffix() == "latency"@,
{
    reveal_strlit("count");
    reveal_strlit("time (ns)");
    reveal_strlit("latency");
    assert("count"@.len() != "time (ns)"@.len());
    assert("count"@.len() != "latency"@.len());
}

} // verus!
