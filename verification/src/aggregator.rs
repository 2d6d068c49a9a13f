//! Per-CPU snapshots of histograms, added up per stack trace.

use crate::common::{Counts, Histogram, HistogramKey, UnpackedHistogramKey};
use crate::fx;
use crate::merge::{hist_merge, hist_saturating_sub};
use crate::model::{MetricKind, MetricSpec};
use crate::resolver::{symbolize, Frame, ResolveError, ResolvedStackTrace, SymbolResolver};
use rustc_hash::FxHashMap;
use vstd::prelude::*;

verus! {

broadcast use vstd::std_specs::hash::group_hash_axioms;

/// What was collected of one metric.
///
/// Totals and snapshots are kept under the packed word of process and stack; a snapshot
/// under that word and its CPU.
pub struct StatsAggregator {
    spec: MetricSpec,
    totals: FxHashMap<u64, Histogram>,
    last_seen: FxHashMap<u128, Histogram>,
    resolved_traces: FxHashMap<u32, ResolvedStackTrace>,
}

/// A `StatsAggregator` as mathematics.
pub struct Aggregate {
    /// The events of all CPUs by packed word.
    pub totals: Map<u64, Counts>,
    /// The last snapshot by packed word and CPU.
    pub last_seen: Map<(u64, usize), Counts>,
    /// The stack traces with symbols by stack.
    pub traces: Map<u32, Seq<Frame>>,
}

/// Word and CPU in one number.
pub open spec fn slot(word: u64, cpu: usize) -> u128 {
    (word * 0x1_0000_0000_0000_0000 + cpu) as u128
}

fn slot_of(word: u64, cpu: usize) -> (key: u128)
    ensures
        key == slot(word, cpu),
{
    word as u128 * 0x1_0000_0000_0000_0000 + cpu as u128
}

impl Aggregate {
    /// The events under `word` so far.
    pub open spec fn total(self, word: u64) -> Counts {
        if self.totals.contains_key(word) {
            self.totals[word]
        } else {
            Counts::empty()
        }
    }

    /// The events of a snapshot that the last one of the same CPU did not hold yet.
    pub open spec fn fresh(self, word: u64, cpu: usize, current: Counts) -> Counts {
        if self.last_seen.contains_key((word, cpu)) {
            current.since(self.last_seen[(word, cpu)])
        } else {
            current
        }
    }

    /// With a snapshot of one CPU: its fresh events are added, if there are any.
    pub open spec fn ingested(self, word: u64, cpu: usize, current: Counts) -> Aggregate {
        let fresh = self.fresh(word, cpu, current);
        Aggregate {
            totals: if fresh.total == 0 && fresh.count() == 0 {
                self.totals
            } else {
                self.totals.insert(word, self.total(word).merged(fresh))
            },
            last_seen: self.last_seen.insert((word, cpu), current),
            traces: self.traces,
        }
    }

    /// With the symbols of a stack.
    pub open spec fn with_trace(self, stack_id: u32, trace: Seq<Frame>) -> Aggregate {
        Aggregate { traces: self.traces.insert(stack_id, trace), ..self }
    }
}

impl View for StatsAggregator {
    type V = Aggregate;

    closed spec fn view(&self) -> Aggregate {
        Aggregate {
            totals: self.totals@.map_values(|hist: Histogram| hist@),
            last_seen: Map::new(
                |key: (u64, usize)| self.last_seen@.contains_key(slot(key.0, key.1)),
                |key: (u64, usize)| self.last_seen@[slot(key.0, key.1)]@,
            ),
            traces: self.resolved_traces@.map_values(|trace: ResolvedStackTrace| trace@),
        }
    }
}

impl StatsAggregator {
    /// The metric that is collected.
    pub closed spec fn metric(self) -> MetricSpec {
        self.spec
    }

    pub fn new(spec: MetricSpec) -> (aggregator: Self)
        ensures
            aggregator.metric() == spec,
            aggregator@.totals == Map::<u64, Counts>::empty(),
            aggregator@.last_seen == Map::<(u64, usize), Counts>::empty(),
            aggregator@.traces == Map::<u32, Seq<Frame>>::empty(),
    {
        let aggregator = Self {
            spec,
            totals: FxHashMap::default(),
            last_seen: FxHashMap::default(),
            resolved_traces: FxHashMap::default(),
        };
        assert(aggregator@.totals =~= Map::<u64, Counts>::empty());
        assert(aggregator@.last_seen =~= Map::<(u64, usize), Counts>::empty());
        assert(aggregator@.traces =~= Map::<u32, Seq<Frame>>::empty());
        aggregator
    }

    pub fn spec(&self) -> (spec: MetricSpec)
        ensures
            spec == self.metric(),
    {
        self.spec
    }

    pub fn kind(&self) -> (kind: MetricKind)
        ensures
            kind == self.metric().kind,
    {
        self.spec.kind
    }

    pub fn value_label(&self) -> (label: &'static str)
        ensures
            label@ == self.metric().value_label@,
    {
        self.spec.value_label
    }

    /// Takes in the snapshot of one CPU.
    pub fn ingest_snapshot(&mut self, key: UnpackedHistogramKey, current: &Histogram, cpu: usize)
        ensures
            final(self).metric() == old(self).metric(),
            final(self)@ == old(self)@.ingested(
                crate::common::packed(key.pid, key.stack_id) as u64,
                cpu,
                current@,
            ),
    {
        let reduced = key.as_reduced();
        let word: u64 = HistogramKey::new(reduced.pid, reduced.stack_id).to_word();
        let previous = fx::map_insert(&mut self.last_seen, slot_of(word, cpu), *current);
        let delta = match previous {
            Some(prev) => hist_saturating_sub(current, &prev),
            None => *current,
        };
        assert(delta@ == old(self)@.fresh(word, cpu, current@));
        assert(self@.last_seen =~= old(self)@.last_seen.insert((word, cpu), current@));
        if delta.total == 0 && !delta.has_events() {
            return;
        }
        let mut entry = match fx::map_get(&self.totals, &word) {
            Some(total) => *total,
            None => Histogram::new(),
        };
        hist_merge(&mut entry, &delta);
        fx::map_insert(&mut self.totals, word, entry);
        assert(self@.totals =~= old(self)@.totals.insert(
            word,
            old(self)@.total(word).merged(delta@),
        ));
    }

    /// Whether the symbols of a stack are still to be found.
    pub fn needs_resolution(&self, stack_id: u32) -> (needed: bool)
        ensures
            needed == !self@.traces.contains_key(stack_id),
    {
        fx::map_get(&self.resolved_traces, &stack_id).is_none()
    }

    /// Keeps the symbols of a stack that has none yet. What is kept stays.
    pub fn finish_resolution(
        &mut self,
        stack_id: u32,
        resolved: Result<ResolvedStackTrace, ResolveError>,
    ) -> (result: Result<(), ResolveError>)
        ensures
            final(self).metric() == old(self).metric(),
            if old(self)@.traces.contains_key(stack_id) {
                result == Ok::<(), ResolveError>(()) && final(self)@ == old(self)@
            } else {
                match resolved {
                    Ok(trace) => {
                        &&& result == Ok::<(), ResolveError>(())
                        &&& final(self)@ == old(self)@.with_trace(stack_id, trace@)
                    },
                    Err(err) => {
                        &&& result == Err::<(), ResolveError>(err)
                        &&& final(self)@ == old(self)@
                    },
                }
            },
    {
        if !self.needs_resolution(stack_id) {
            return Ok(());
        }
        match resolved {
            Ok(trace) => {
                let ghost frames = trace@;
                fx::map_insert(&mut self.resolved_traces, stack_id, trace);
                assert(self@.traces =~= old(self)@.traces.insert(stack_id, frames));
                assert(self@.totals =~= old(self)@.totals);
                assert(self@.last_seen =~= old(self)@.last_seen);
                Ok(())
            },
            Err(err) => Err(err),
        }
    }

    /// Finds the symbols of a stack that has none yet. `lookup` holds the addresses of the
    /// stack; it is not read where the symbols are there.
    pub fn ensure_resolved<R: SymbolResolver>(
        &mut self,
        stack_id: u32,
        pid: u32,
        lookup: Result<Vec<u64>, String>,
        resolver: &R,
    ) -> (result: Result<(), ResolveError>)
        ensures
            final(self).metric() == old(self).metric(),
            if old(self)@.traces.contains_key(stack_id) {
                result == Ok::<(), ResolveError>(()) && final(self)@ == old(self)@
            } else {
                match lookup {
                    Err(err) => {
                        &&& result == Err::<(), ResolveError>(ResolveError::Lookup(err))
                        &&& final(self)@ == old(self)@
                    },
                    Ok(addresses) => exists|answer: Result<ResolvedStackTrace, String>|
                        {
                            &&& #[trigger] call_ensures(
                                R::resolve_stacktrace,
                                (resolver, &addresses, pid),
                                answer,
                            )
                            &&& match answer {
                                Ok(trace) => {
                                    &&& result == Ok::<(), ResolveError>(())
                                    &&& final(self)@ == old(self)@.with_trace(stack_id, trace@)
                                },
                                Err(err) => {
                                    &&& result == Err::<(), ResolveError>(
                                        ResolveError::Resolver(err),
                                    )
                                    &&& final(self)@ == old(self)@
                                },
                            }
                        },
                }
            },
    {
        if !self.needs_resolution(stack_id) {
            return Ok(());
        }
        let resolved = symbolize(lookup, pid, resolver);
        self.finish_resolution(stack_id, resolved)
    }

    /// The events of all CPUs by packed word.
    pub fn merged(&self) -> (totals: FxHashMap<u64, Histogram>)
        ensures
            totals@.map_values(|hist: Histogram| hist@) == self@.totals,
    {
        self.totals.clone()
    }

    /// Every histogram that an aggregator holds has its buckets.
    pub proof fn law_is_wf(self)
        ensures
            self@.wf(),
    {
    }

    /// The symbols of a stack, where they were found.
    pub fn resolved(&self, stack_id: u32) -> (trace: Option<&ResolvedStackTrace>)
        ensures
            match trace {
                Some(trace) => self@.traces.contains_key(stack_id) && trace@
                    == self@.traces[stack_id],
                None => !self@.traces.contains_key(stack_id),
            },
    {
        fx::map_get(&self.resolved_traces, &stack_id)
    }
}

/// `f(0) + .. + f(n - 1)`.
pub open spec fn sum_over(f: spec_fn(int) -> nat, n: nat) -> nat
    decreases n,
{
    if n == 0 {
        0
    } else {
        sum_over(f, (n - 1) as nat) + f(n - 1)
    }
}

/// A number, held at the largest `u64`.
pub open spec fn capped(n: nat) -> nat {
    if n > u64::MAX {
        u64::MAX as nat
    } else {
        n
    }
}

proof fn lemma_sum_over_one_changed(f: spec_fn(int) -> nat, g: spec_fn(int) -> nat, c: int, n: nat)
    requires
        0 <= c,
        forall|i: int| 0 <= i && i != c ==> #[trigger] f(i) == g(i),
    ensures
        c < n ==> sum_over(g, n) == sum_over(f, n) - f(c) + g(c),
        c >= n ==> sum_over(g, n) == sum_over(f, n),
        c < n ==> f(c) <= sum_over(f, n),
    decreases n,
{
    if n > 0 {
        lemma_sum_over_one_changed(f, g, c, (n - 1) as nat);
    }
}

proof fn lemma_zero_sum(counts: Seq<u64>, i: int)
    requires
        crate::common::sum(counts) == 0,
        0 <= i < counts.len(),
    ensures
        counts[i] == 0,
    decreases counts.len(),
{
    if i < counts.len() - 1 {
        lemma_zero_sum(counts.drop_last(), i);
    }
}

proof fn lemma_sum_of_zeros(counts: Seq<u64>)
    requires
        forall|i: int| 0 <= i < counts.len() ==> counts[i] == 0,
    ensures
        crate::common::sum(counts) == 0,
    decreases counts.len(),
{
    if counts.len() > 0 {
        lemma_sum_of_zeros(counts.drop_last());
    }
}

impl Aggregate {
    /// The last snapshot of a CPU; empty where there was none.
    pub open spec fn last(self, word: u64, cpu: int) -> Counts {
        if 0 <= cpu <= usize::MAX && self.last_seen.contains_key((word, cpu as usize)) {
            self.last_seen[(word, cpu as usize)]
        } else {
            Counts::empty()
        }
    }

    /// Every histogram has its buckets.
    pub open spec fn wf(self) -> bool {
        &&& forall|word: u64| #[trigger] self.totals.contains_key(word) ==> self.totals[word].wf()
        &&& forall|key: (u64, usize)| #[trigger]
            self.last_seen.contains_key(key) ==> self.last_seen[key].wf()
    }

    /// The events under `word` are those of the last snapshots of the first `cpus` CPUs
    /// together.
    pub open spec fn adds_up(self, word: u64, cpus: nat) -> bool {
        &&& self.total(word).total == capped(
            sum_over(|cpu: int| self.last(word, cpu).total as nat, cpus),
        )
        &&& forall|i: int|
            0 <= i < crate::common::HISTOGRAM_BUCKETS ==> #[trigger] self.total(word).buckets[i]
                == capped(sum_over(|cpu: int| self.last(word, cpu).buckets[i] as nat, cpus))
    }

    /// Before the first snapshot the events of every stack add up.
    pub proof fn law_empty_adds_up(self, word: u64, cpus: nat)
        requires
            self.totals == Map::<u64, Counts>::empty(),
            self.last_seen == Map::<(u64, usize), Counts>::empty(),
        ensures
            self.wf(),
            self.adds_up(word, cpus),
        decreases cpus,
    {
        if cpus > 0 {
            self.law_empty_adds_up(word, (cpus - 1) as nat);
        }
        let f = |cpu: int| self.last(word, cpu).total as nat;
        assert(sum_over(f, cpus) == 0) by {
            if cpus > 0 {
                assert(sum_over(f, (cpus - 1) as nat) == 0);
            }
        }
        assert forall|i: int| 0 <= i < crate::common::HISTOGRAM_BUCKETS implies #[trigger] self.total(
            word,
        ).buckets[i] == capped(
            sum_over(|cpu: int| self.last(word, cpu).buckets[i] as nat, cpus),
        ) by {
            let g = |cpu: int| self.last(word, cpu).buckets[i] as nat;
            if cpus > 0 {
                assert(self.total(word).buckets[i] == capped(sum_over(g, (cpus - 1) as nat)));
            }
        }
    }

    /// Events that only ever grow on a CPU are each added once: a snapshot keeps the events
    /// of its stack adding up over all CPUs.
    pub proof fn law_ingest_adds_up(self, word: u64, cpu: usize, current: Counts, cpus: nat)
        requires
            self.wf(),
            current.wf(),
            self.adds_up(word, cpus),
            cpu < cpus,
            self.last(word, cpu as int).le(current),
        ensures
            self.ingested(word, cpu, current).wf(),
            self.ingested(word, cpu, current).adds_up(word, cpus),
    {
        let after = self.ingested(word, cpu, current);
        let before = self.last(word, cpu as int);
        let fresh = self.fresh(word, cpu, current);
        assert(before.wf());
        assert(fresh =~= current.since(before));
        assert(after.last(word, cpu as int) == current);
        if fresh.total == 0 && fresh.count() == 0 {
            assert forall|i: int| 0 <= i < crate::common::HISTOGRAM_BUCKETS implies fresh.buckets[i]
                == 0 by {
                lemma_zero_sum(fresh.buckets, i);
            }
        }
        let f = |c: int| self.last(word, c).total as nat;
        let g = |c: int| after.last(word, c).total as nat;
        lemma_sum_over_one_changed(f, g, cpu as int, cpus);
        assert(after.total(word).total == capped(sum_over(g, cpus)));
        assert forall|i: int|
            0 <= i < crate::common::HISTOGRAM_BUCKETS implies #[trigger] after.total(
            word,
        ).buckets[i] == capped(
            sum_over(|c: int| after.last(word, c).buckets[i] as nat, cpus),
        ) by {
            let f = |c: int| self.last(word, c).buckets[i] as nat;
            let g = |c: int| after.last(word, c).buckets[i] as nat;
            assert(before.buckets[i] <= current.buckets[i]);
            lemma_sum_over_one_changed(f, g, cpu as int, cpus);
            assert(self.total(word).buckets[i] == capped(sum_over(f, cpus)));
            assert(fresh.buckets[i] == current.buckets[i] - before.buckets[i]);
            if fresh.total == 0 && fresh.count() == 0 {
                assert(after.total(word) == self.total(word));
            } else {
                assert(self.total(word).wf());
                assert(after.total(word).buckets[i] == crate::common::sat_add(
                    self.total(word).buckets[i],
                    fresh.buckets[i],
                ));
            }
        }
    }

    /// A snapshot of one stack leaves the events of the others as they were, and adding up.
    pub proof fn law_ingest_keeps_other_stacks(
        self,
        word: u64,
        cpu: usize,
        current: Counts,
        other: u64,
        cpus: nat,
    )
        requires
            other != word,
        ensures
            self.ingested(word, cpu, current).total(other) == self.total(other),
            self.adds_up(other, cpus) ==> self.ingested(word, cpu, current).adds_up(other, cpus),
    {
        let after = self.ingested(word, cpu, current);
        assert forall|c: int| #[trigger] after.last(other, c) == self.last(other, c) by {}
        if self.adds_up(other, cpus) {
            assert((|c: int| after.last(other, c).total as nat) =~= (|c: int|
                self.last(other, c).total as nat));
            assert forall|i: int|
                0 <= i < crate::common::HISTOGRAM_BUCKETS implies #[trigger] after.total(
                other,
            ).buckets[i] == capped(
                sum_over(|c: int| after.last(other, c).buckets[i] as nat, cpus),
            ) by {
                assert((|c: int| after.last(other, c).buckets[i] as nat) =~= (|c: int|
                    self.last(other, c).buckets[i] as nat));
                assert(self.total(other).buckets[i] == capped(
                    sum_over(|c: int| self.last(other, c).buckets[i] as nat, cpus),
                ));
            }
        }
    }

    /// A snapshot that is seen again adds nothing.
    pub proof fn law_ingest_twice(self, word: u64, cpu: usize, current: Counts)
        requires
            current.wf(),
        ensures
            self.ingested(word, cpu, current).ingested(word, cpu, current) == self.ingested(
                word,
                cpu,
                current,
            ),
    {
        let once = self.ingested(word, cpu, current);
        current.law_since_itself();
        lemma_sum_of_zeros(Counts::empty().buckets);
        assert(once.last_seen.insert((word, cpu), current) =~= once.last_seen);
    }
}

impl Aggregate {
    /// A snapshot adds to its stack, bucket by bucket, what the last snapshot of the same CPU
    /// did not hold yet, held at the largest number; all of it where there was no snapshot of
    /// that CPU. It is then the last one of that CPU.
    pub proof fn law_snapshot_adds_what_is_new(self, word: u64, cpu: usize, current: Counts, i: int)
        requires
            self.wf(),
            current.wf(),
            0 <= i < crate::common::HISTOGRAM_BUCKETS,
        ensures
            ({
                let after = self.ingested(word, cpu, current);
                let seen = self.last_seen.contains_key((word, cpu));
                let old_count = if seen {
                    self.last_seen[(word, cpu)].buckets[i] as int
                } else {
                    0
                };
                let old_total = if seen {
                    self.last_seen[(word, cpu)].total as int
                } else {
                    0
                };
                let new_count = if current.buckets[i] > old_count {
                    current.buckets[i] - old_count
                } else {
                    0
                };
                let new_total = if current.total > old_total {
                    current.total - old_total
                } else {
                    0
                };
                let had_count = if self.totals.contains_key(word) {
                    self.totals[word].buckets[i] as int
                } else {
                    0
                };
                let had_total = if self.totals.contains_key(word) {
                    self.totals[word].total as int
                } else {
                    0
                };
                &&& after.last_seen == self.last_seen.insert((word, cpu), current)
                &&& after.traces == self.traces
                &&& new_count > 0 || new_total > 0 ==> after.totals.contains_key(word)
                &&& self.totals.contains_key(word) ==> after.totals.contains_key(word)
                &&& after.totals.contains_key(word) ==> after.totals[word].buckets[i] == if had_count
                    + new_count > u64::MAX {
                    u64::MAX as int
                } else {
                    had_count + new_count
                }
                &&& after.totals.contains_key(word) ==> after.totals[word].total == if had_total
                    + new_total > u64::MAX {
                    u64::MAX as int
                } else {
                    had_total + new_total
                }
            }),
    {
        let fresh = self.fresh(word, cpu, current);
        if fresh.total == 0 && fresh.count() == 0 {
            lemma_zero_sum(fresh.buckets, i);
        }
    }

    /// A stack gets totals with the first event of it, and not before: a snapshot without new
    /// events makes no entry and changes none.
    pub proof fn law_snapshot_without_news_changes_no_totals(
        self,
        word: u64,
        cpu: usize,
        current: Counts,
    )
        requires
            self.wf(),
            current.wf(),
            self.last_seen.contains_key((word, cpu)) ==> current.le(self.last_seen[(word, cpu)]),
            !self.last_seen.contains_key((word, cpu)) ==> current.le(Counts::empty()),
        ensures
            self.ingested(word, cpu, current).totals == self.totals,
    {
        let fresh = self.fresh(word, cpu, current);
        assert forall|i: int| 0 <= i < fresh.buckets.len() implies fresh.buckets[i] == 0 by {
            if self.last_seen.contains_key((word, cpu)) {
                assert(current.buckets[i] <= self.last_seen[(word, cpu)].buckets[i]);
            } else {
                assert(current.buckets[i] <= Counts::empty().buckets[i]);
            }
        }
        lemma_sum_of_zeros(fresh.buckets);
    }

    /// A snapshot changes the totals of no other stack, and makes none.
    pub proof fn law_snapshot_is_of_one_stack(
        self,
        word: u64,
        cpu: usize,
        current: Counts,
        other: u64,
    )
        requires
            other != word,
        ensures
            ({
                let after = self.ingested(word, cpu, current);
                &&& after.totals.contains_key(other) == self.totals.contains_key(other)
                &&& self.totals.contains_key(other) ==> after.totals[other] == self.totals[other]
            }),
    {
    }

    /// Symbols that are kept for a stack are those that were given, and those of other stacks
    /// and all events stay.
    pub proof fn law_symbols_are_kept_by_stack(self, stack_id: u32, trace: Seq<Frame>, other: u32)
        requires
            other != stack_id,
        ensures
            ({
                let after = self.with_trace(stack_id, trace);
                &&& after.traces.contains_key(stack_id) && after.traces[stack_id] == trace
                &&& after.traces.contains_key(other) == self.traces.contains_key(other)
                &&& self.traces.contains_key(other) ==> after.traces[other] == self.traces[other]
                &&& after.totals == self.totals
                &&& after.last_seen == self.last_seen
            }),
    {
    }

    /// The order in which the snapshots of two CPUs are taken in does not matter.
    pub proof fn law_cpus_in_any_order(
        self,
        word: u64,
        first: usize,
        second: usize,
        a: Counts,
        b: Counts,
    )
        requires
            self.wf(),
            a.wf(),
            b.wf(),
            first != second,
        ensures
            ({
                let one = self.ingested(word, first, a).ingested(word, second, b);
                let other = self.ingested(word, second, b).ingested(word, first, a);
                &&& one.last_seen == other.last_seen
                &&& one.total(word) == other.total(word)
            }),
    {
        let one = self.ingested(word, first, a).ingested(word, second, b);
        let other = self.ingested(word, second, b).ingested(word, first, a);
        assert(one.last_seen =~= other.last_seen);
        let x = self.fresh(word, first, a);
        let y = self.fresh(word, second, b);
        assert(self.ingested(word, first, a).fresh(word, second, b) == y);
        assert(self.ingested(word, second, b).fresh(word, first, a) == x);
        let total = self.total(word);
        assert(total.wf());
        assert(x.wf() && y.wf());
        total.law_merge_associates(x, y);
        total.law_merge_associates(y, x);
        x.law_merge_commutes(y);
    }
}

} // verus!
