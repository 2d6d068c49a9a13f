//! Event profiling: power-of-two histograms per stack trace, the decisions of the
//! kernel-side probes that fill them, the collector that merges per-CPU snapshots,
//! symbol selection, and the reports.

pub mod aggregator;
pub mod collector;
pub mod common;
mod fx;
pub mod merge;
pub mod model;
pub mod probe;
pub mod report;
pub mod resolver;
pub mod session;
pub mod symbols;
pub mod text;

pub use crate::aggregator::StatsAggregator;
pub use crate::model::{MetricKind, MetricSpec, OrderBy, Retention};
pub use crate::resolver::{ResolvedStackTrace, SymbolResolver};
pub use crate::symbols::{
    do_addresses_fit, filter_symbols, list_text_symbols, MatchMode, SymEntry,
};
