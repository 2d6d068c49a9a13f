//! The collector: which map entry is read, ingested, resolved or dropped next.
//!
//! The collector polls the kernel's maps, one per metric, until it is canceled. It does
//! none of the outside work itself: `step` takes what the last piece of work gave, and
//! says what to do next.

use crate::aggregator::{Aggregate, StatsAggregator};
use crate::common::{Counts, Histogram, HistogramKey};
use crate::fx;
use crate::model::{MetricKind, MetricSpec, Retention};
use crate::resolver::{ResolveError, ResolvedStackTrace};
use rustc_hash::FxHashSet;
use vstd::prelude::*;

verus! {

broadcast use vstd::std_specs::hash::group_hash_axioms;

/// The totals of some histograms added up.
pub open spec fn total_sum(snapshots: Seq<Histogram>) -> nat
    decreases snapshots.len(),
{
    if snapshots.len() == 0 {
        0
    } else {
        total_sum(snapshots.drop_last()) + snapshots.last().total as nat
    }
}

/// The numbers of events of some histograms added up.
pub open spec fn count_sum(snapshots: Seq<Histogram>) -> nat
    decreases snapshots.len(),
{
    if snapshots.len() == 0 {
        0
    } else {
        count_sum(snapshots.drop_last()) + snapshots.last()@.count()
    }
}

/// Whether a stack falls below a threshold of its metric, in value or in count, with the
/// histograms of all CPUs taken together.
pub open spec fn entry_skipped(spec: MetricSpec, snapshots: Seq<Histogram>) -> bool {
    ||| total_sum(snapshots) < spec.skip_total_value_lt
    ||| count_sum(snapshots) < spec.skip_total_count_lt
}

/// Whether a stack falls below a threshold of its metric.
pub fn is_entry_skipped(spec: &MetricSpec, snapshots: &Vec<Histogram>) -> (skip: bool)
    ensures
        skip == entry_skipped(*spec, snapshots@),
{
    let mut value_missing: u64 = spec.skip_total_value_lt;
    let mut count_missing: u64 = spec.skip_total_count_lt;
    let mut i: usize = 0;
    while i < snapshots.len()
        invariant
            i <= snapshots@.len(),
            value_missing == if total_sum(snapshots@.take(i as int)) >= spec.skip_total_value_lt {
                0
            } else {
                spec.skip_total_value_lt - total_sum(snapshots@.take(i as int))
            },
            count_missing == if count_sum(snapshots@.take(i as int)) >= spec.skip_total_count_lt {
                0
            } else {
                spec.skip_total_count_lt - count_sum(snapshots@.take(i as int))
            },
        decreases snapshots@.len() - i,
    {
        assert(snapshots@.take(i + 1).drop_last() =~= snapshots@.take(i as int));
        value_missing = value_missing.saturating_sub(snapshots[i].total);
        count_missing = snapshots[i].count_missing(count_missing);
        i += 1;
    }
    assert(snapshots@.take(i as int) =~= snapshots@);
    value_missing > 0 || count_missing > 0
}

/// One metric: what was collected of it, and the keys to drop from its map.
pub struct MetricWorker {
    aggregator: StatsAggregator,
    keys_to_drop: FxHashSet<u64>,
}

/// A `MetricWorker` as mathematics.
pub struct Worker {
    pub spec: MetricSpec,
    pub aggregate: Aggregate,
    /// The packed words of the keys to drop.
    pub to_drop: Set<u64>,
}

impl View for MetricWorker {
    type V = Worker;

    closed spec fn view(&self) -> Worker {
        Worker {
            spec: self.aggregator.metric(),
            aggregate: self.aggregator@,
            to_drop: self.keys_to_drop@,
        }
    }
}

/// A map entry that is being worked on.
pub struct Entry {
    /// The metric whose map it comes from.
    pub worker: usize,
    pub key: HistogramKey,
    /// The histogram of each CPU.
    pub snapshots: Vec<Histogram>,
    /// The CPU whose histogram comes next.
    pub next_cpu: usize,
}

/// What the collector waits for.
pub enum Phase {
    /// Whether to poll once more.
    Polling,
    /// The end of the pause before a poll.
    Sleeping,
    /// An entry of the map of a metric.
    Reading { worker: usize },
    /// The symbols of the stack of an entry.
    Resolving { entry: Entry },
    /// Whether to go on with the CPUs of an entry.
    CheckingCpus { entry: Entry },
    /// Whether to go on with the entries of a map.
    CheckingEntries { worker: usize },
    /// Whether to go on with the metrics.
    CheckingWorkers { worker: usize },
    /// The time since keys were dropped last.
    Timing,
    /// The end of dropping keys.
    Dropping,
    /// Nothing.
    Done,
}

/// What reading a map gave.
pub enum EntryRead {
    /// There are no more entries.
    End,
    /// An entry could not be read.
    Failed,
    /// A key with the histogram of each CPU.
    Snapshots { key: HistogramKey, per_cpu: Vec<Histogram> },
}

/// What a piece of outside work gave.
pub enum Event {
    /// Whether collecting is canceled.
    Canceled(bool),
    /// The pause is over.
    Slept,
    /// A map was read.
    Read(EntryRead),
    /// The symbols of a stack were looked for.
    Resolved(Result<ResolvedStackTrace, ResolveError>),
    /// So much time has passed since keys were dropped last.
    Elapsed(std::time::Duration),
    /// The keys are dropped.
    Dropped,
}

/// The next piece of outside work.
pub enum Action {
    /// Ask whether collecting is canceled.
    CheckCanceled,
    /// Pause until the next poll.
    Sleep,
    /// Read the next entry of the map of a metric.
    ReadEntry { worker: usize },
    /// Look for the symbols of a stack of a process.
    Resolve { stack_id: u32, pid: u32 },
    /// Ask how much time has passed since keys were dropped last.
    ReadClock,
    /// Drop the keys with these packed words, one list per metric, and begin to count the
    /// time anew.
    DropKeys(Vec<Vec<u64>>),
    /// Nothing is left to do.
    Finish,
}

/// The collector as mathematics.
pub struct CollectorState {
    pub workers: Seq<Worker>,
    pub phase: Phase,
    /// Nanoseconds after which keys are dropped.
    pub sweep_every: u128,
}

impl CollectorState {
    /// Goes on with the metric at `worker`, or with the clock where there is none.
    pub open spec fn at_worker(self, worker: int) -> CollectorState {
        CollectorState {
            phase: if worker < self.workers.len() {
                Phase::Reading { worker: worker as usize }
            } else {
                Phase::Timing
            },
            ..self
        }
    }

    /// Takes up an entry of a map: its key is to be dropped if and only if the stack is
    /// skipped; else its CPUs come next.
    pub open spec fn entry_read(
        self,
        worker: usize,
        key: HistogramKey,
        per_cpu: Vec<Histogram>,
    ) -> CollectorState {
        let state = self.workers[worker as int];
        if entry_skipped(state.spec, per_cpu@) {
            CollectorState {
                workers: self.workers.update(
                    worker as int,
                    Worker { to_drop: state.to_drop.insert(key.word()), ..state },
                ),
                phase: Phase::CheckingEntries { worker },
                ..self
            }
        } else {
            CollectorState {
                workers: self.workers.update(
                    worker as int,
                    Worker { to_drop: state.to_drop.remove(key.word()), ..state },
                ),
                ..self
            }.entry_continued(Entry { worker, key, snapshots: per_cpu, next_cpu: 0 })
        }
    }

    /// Leaves an entry.
    pub open spec fn entry_done(self, entry: Entry) -> CollectorState {
        CollectorState { phase: Phase::CheckingEntries { worker: entry.worker }, ..self }
    }

    /// Goes on with the CPUs of an entry: the next one is ingested, and the stack resolved
    /// where it is not.
    pub open spec fn entry_continued(self, entry: Entry) -> CollectorState {
        let worker = self.workers[entry.worker as int];
        let cpu = entry.next_cpu;
        if cpu >= entry.snapshots@.len() {
            self.entry_done(entry)
        } else {
            let ingested = worker.aggregate.ingested(
                entry.key.word(),
                cpu,
                entry.snapshots@[cpu as int]@,
            );
            let entry = Entry { next_cpu: (cpu + 1) as usize, ..entry };
            CollectorState {
                workers: self.workers.update(
                    entry.worker as int,
                    Worker { aggregate: ingested, ..worker },
                ),
                phase: if worker.aggregate.traces.contains_key(stack_of(entry.key)) {
                    Phase::CheckingCpus { entry }
                } else {
                    Phase::Resolving { entry }
                },
                ..self
            }
        }
    }

    /// Keeps the symbols of the stack of an entry, where they were found.
    pub open spec fn entry_resolved(
        self,
        entry: Entry,
        resolved: Result<ResolvedStackTrace, ResolveError>,
    ) -> CollectorState {
        let worker = self.workers[entry.worker as int];
        let aggregate = match resolved {
            Ok(trace) => if worker.aggregate.traces.contains_key(stack_of(entry.key)) {
                worker.aggregate
            } else {
                worker.aggregate.with_trace(stack_of(entry.key), trace@)
            },
            Err(_) => worker.aggregate,
        };
        CollectorState {
            workers: self.workers.update(entry.worker as int, Worker { aggregate, ..worker }),
            phase: Phase::CheckingCpus { entry },
            ..self
        }
    }

    /// No key is to be dropped any more.
    pub open spec fn swept(self) -> CollectorState {
        CollectorState {
            workers: self.workers.map_values(
                |worker: Worker| Worker { to_drop: Set::empty(), ..worker },
            ),
            phase: Phase::Dropping,
            ..self
        }
    }

    /// The state after an event. An event that is not waited for changes nothing.
    pub open spec fn next(self, event: Event) -> CollectorState {
        match (self.phase, event) {
            (Phase::Polling, Event::Canceled(canceled)) => CollectorState {
                phase: if canceled {
                    Phase::Done
                } else {
                    Phase::Sleeping
                },
                ..self
            },
            (Phase::Sleeping, Event::Slept) => self.at_worker(0),
            (Phase::Reading { worker }, Event::Read(EntryRead::End)) => CollectorState {
                phase: Phase::CheckingWorkers { worker },
                ..self
            },
            (Phase::Reading { worker }, Event::Read(EntryRead::Failed)) => self,
            (
                Phase::Reading { worker },
                Event::Read(EntryRead::Snapshots { key, per_cpu }),
            ) => self.entry_read(worker, key, per_cpu),
            (Phase::Resolving { entry }, Event::Resolved(resolved)) => self.entry_resolved(
                entry,
                resolved,
            ),
            (Phase::CheckingCpus { entry }, Event::Canceled(canceled)) => if canceled {
                self.entry_done(entry)
            } else {
                self.entry_continued(entry)
            },
            (Phase::CheckingEntries { worker }, Event::Canceled(canceled)) => CollectorState {
                phase: if canceled {
                    Phase::CheckingWorkers { worker }
                } else {
                    Phase::Reading { worker }
                },
                ..self
            },
            (Phase::CheckingWorkers { worker }, Event::Canceled(canceled)) => if canceled {
                CollectorState { phase: Phase::Timing, ..self }
            } else {
                self.at_worker(worker + 1)
            },
            (Phase::Timing, Event::Elapsed(elapsed)) => if crate::model::duration_nanos(elapsed)
                >= self.sweep_every {
                self.swept()
            } else {
                CollectorState { phase: Phase::Polling, ..self }
            },
            (Phase::Dropping, Event::Dropped) => CollectorState { phase: Phase::Polling, ..self },
            _ => self,
        }
    }

    /// Whether every index of the phase is in range, and no key is left while keys are
    /// dropped.
    pub open spec fn wf(self) -> bool {
        match self.phase {
            Phase::Reading { worker } => worker < self.workers.len(),
            Phase::CheckingEntries { worker } => worker < self.workers.len(),
            Phase::CheckingWorkers { worker } => worker < self.workers.len(),
            Phase::Resolving { entry } => self.entry_wf(entry),
            Phase::CheckingCpus { entry } => self.entry_wf(entry),
            Phase::Dropping => forall|i: int|
                0 <= i < self.workers.len() ==> (#[trigger] self.workers[i]).to_drop == Set::<
                    u64,
                >::empty(),
            _ => true,
        }
    }

    pub open spec fn entry_wf(self, entry: Entry) -> bool {
        &&& entry.worker < self.workers.len()
        &&& entry.next_cpu <= entry.snapshots@.len()
    }
}

/// The stack of a key.
pub open spec fn stack_of(key: HistogramKey) -> u32 {
    (key.word() % 0x1_0000_0000) as u32
}

/// The process of a key.
pub open spec fn process_of(key: HistogramKey) -> u32 {
    (key.word() / 0x1_0000_0000) as u32
}

/// What is to be done in a phase. The keys to drop are those of the state before.
pub open spec fn asks(action: Action, before: CollectorState, after: Phase) -> bool {
    match after {
        Phase::Polling => action is CheckCanceled,
        Phase::Sleeping => action is Sleep,
        Phase::Reading { worker } => action == (Action::ReadEntry { worker }),
        Phase::Resolving { entry } => action == (Action::Resolve {
            stack_id: stack_of(entry.key),
            pid: process_of(entry.key),
        }),
        Phase::CheckingCpus { entry } => action is CheckCanceled,
        Phase::CheckingEntries { worker } => action is CheckCanceled,
        Phase::CheckingWorkers { worker } => action is CheckCanceled,
        Phase::Timing => action is ReadClock,
        Phase::Dropping => action matches Action::DropKeys(lists) && {
            &&& lists@.len() == before.workers.len()
            &&& forall|i: int|
                0 <= i < lists@.len() ==> (#[trigger] lists@[i])@.no_duplicates()
                    && lists@[i]@.to_set() == before.workers[i].to_drop
        },
        Phase::Done => action is Finish,
    }
}

impl MetricWorker {
    fn new(spec: MetricSpec) -> (worker: Self)
        ensures
            worker@.spec == spec,
            worker@.aggregate.totals == Map::<u64, Counts>::empty(),
            worker@.aggregate.last_seen == Map::<(u64, usize), Counts>::empty(),
            worker@.aggregate.traces == Map::<u32, Seq<crate::resolver::Frame>>::empty(),
            worker@.to_drop == Set::<u64>::empty(),
    {
        MetricWorker { aggregator: StatsAggregator::new(spec), keys_to_drop: FxHashSet::default() }
    }

    fn ingest(&mut self, key: HistogramKey, hist: &Histogram, cpu: usize)
        ensures
            final(self)@ == (Worker {
                aggregate: old(self)@.aggregate.ingested(key.word(), cpu, hist@),
                ..old(self)@
            }),
    {
        proof {
            crate::common::law_pack_unpacked(key.word());
        }
        self.aggregator.ingest_snapshot(key.into_parts(), hist, cpu);
    }

    fn settle(&mut self, word: u64, drop: bool)
        ensures
            final(self)@ == (Worker {
                to_drop: if drop {
                    old(self)@.to_drop.insert(word)
                } else {
                    old(self)@.to_drop.remove(word)
                },
                ..old(self)@
            }),
    {
        if drop {
            fx::set_insert(&mut self.keys_to_drop, word);
        } else {
            fx::set_remove(&mut self.keys_to_drop, &word);
        }
    }

    fn take_dropped(&mut self) -> (words: Vec<u64>)
        ensures
            words@.no_duplicates(),
            words@.to_set() == old(self)@.to_drop,
            final(self)@ == (Worker { to_drop: Set::empty(), ..old(self)@ }),
    {
        fx::set_drain(&mut self.keys_to_drop)
    }
}

/// Polls the maps of some metrics until it is canceled.
pub struct Collector {
    workers: Vec<MetricWorker>,
    phase: Phase,
    retention: Retention,
}

impl View for Collector {
    type V = CollectorState;

    closed spec fn view(&self) -> CollectorState {
        CollectorState {
            workers: self.workers@.map_values(|worker: MetricWorker| worker@),
            phase: self.phase,
            sweep_every: crate::model::duration_nanos(self.retention.sweep_every),
        }
    }
}

impl Collector {
    /// A collector that has collected nothing. The first event that it waits for is the
    /// answer to `Action::CheckCanceled`.
    pub fn new(specs: &Vec<MetricSpec>, retention: Retention) -> (collector: Self)
        ensures
            collector@.wf(),
            collector@.is_new(),
            collector@.sweep_every == crate::model::duration_nanos(retention.sweep_every),
            collector@.workers.len() == specs@.len(),
            forall|i: int|
                0 <= i < specs@.len() ==> {
                    let worker = #[trigger] collector@.workers[i];
                    &&& worker.spec == specs@[i]
                    &&& worker.aggregate.totals == Map::<u64, Counts>::empty()
                    &&& worker.aggregate.last_seen == Map::<(u64, usize), Counts>::empty()
                    &&& worker.aggregate.traces == Map::<
                        u32,
                        Seq<crate::resolver::Frame>,
                    >::empty()
                    &&& worker.to_drop == Set::<u64>::empty()
                },
    {
        let mut workers: Vec<MetricWorker> = Vec::new();
        let mut i: usize = 0;
        while i < specs.len()
            invariant
                i <= specs@.len(),
                workers@.len() == i,
                forall|j: int|
                    0 <= j < i ==> {
                        let worker = (#[trigger] workers@[j])@;
                        &&& worker.spec == specs@[j]
                        &&& worker.aggregate.totals == Map::<u64, Counts>::empty()
                        &&& worker.aggregate.last_seen == Map::<(u64, usize), Counts>::empty()
                        &&& worker.aggregate.traces == Map::<
                            u32,
                            Seq<crate::resolver::Frame>,
                        >::empty()
                        &&& worker.to_drop == Set::<u64>::empty()
                    },
            decreases specs@.len() - i,
        {
            workers.push(MetricWorker::new(specs[i]));
            i += 1;
        }
        Collector { workers, phase: Phase::Polling, retention }
    }

    fn go_to_worker(&mut self, worker: usize) -> (action: Action)
        requires
            worker <= old(self)@.workers.len(),
        ensures
            final(self)@ == old(self)@.at_worker(worker as int),
            final(self)@.wf(),
            asks(action, old(self)@, final(self)@.phase),
    {
        if worker < self.workers.len() {
            self.phase = Phase::Reading { worker };
            Action::ReadEntry { worker }
        } else {
            self.phase = Phase::Timing;
            Action::ReadClock
        }
    }

    fn read_entry(&mut self, worker: usize, key: HistogramKey, per_cpu: Vec<Histogram>) -> (action:
        Action)
        requires
            worker < old(self)@.workers.len(),
        ensures
            final(self)@ == old(self)@.entry_read(worker, key, per_cpu),
            final(self)@.wf(),
            asks(action, old(self)@, final(self)@.phase),
    {
        let spec = self.workers[worker].aggregator.spec();
        let skip: bool = is_entry_skipped(&spec, &per_cpu);
        self.workers[worker].settle(key.to_word(), skip);
        if skip {
            self.phase = Phase::CheckingEntries { worker };
            assert(self@.workers =~= old(self)@.entry_read(worker, key, per_cpu).workers);
            return Action::CheckCanceled;
        }
        let ghost state = old(self)@.workers[worker as int];
        let ghost settled = CollectorState {
            workers: old(self)@.workers.update(
                worker as int,
                Worker { to_drop: state.to_drop.remove(key.word()), ..state },
            ),
            ..old(self)@
        };
        assert(self@.workers =~= settled.workers);
        self.continue_entry(Entry { worker, key, snapshots: per_cpu, next_cpu: 0 })
    }

    fn finish_entry(&mut self, entry: Entry) -> (action: Action)
        requires
            entry.worker < old(self)@.workers.len(),
        ensures
            final(self)@ == old(self)@.entry_done(entry),
            final(self)@.wf(),
            action is CheckCanceled,
    {
        self.phase = Phase::CheckingEntries { worker: entry.worker };
        Action::CheckCanceled
    }

    fn continue_entry(&mut self, entry: Entry) -> (action: Action)
        requires
            old(self)@.entry_wf(entry),
        ensures
            final(self)@ == old(self)@.entry_continued(entry),
            final(self)@.wf(),
            !(final(self)@.phase is Dropping),
            asks(action, old(self)@, final(self)@.phase),
    {
        let worker: usize = entry.worker;
        let cpu: usize = entry.next_cpu;
        if cpu >= entry.snapshots.len() {
            return self.finish_entry(entry);
        }
        let ghost given = entry;
        let key = entry.key;
        self.workers[worker].ingest(key, &entry.snapshots[cpu], cpu);
        assert(self@.workers =~= old(self)@.entry_continued(given).workers);
        let parts = key.into_parts();
        let entry = Entry { next_cpu: cpu + 1, ..entry };
        if self.workers[worker].aggregator.needs_resolution(parts.stack_id) {
            self.phase = Phase::Resolving { entry };
            Action::Resolve { stack_id: parts.stack_id, pid: parts.pid }
        } else {
            self.phase = Phase::CheckingCpus { entry };
            Action::CheckCanceled
        }
    }

    fn resolve_entry(
        &mut self,
        entry: Entry,
        resolved: Result<ResolvedStackTrace, ResolveError>,
    ) -> (action: Action)
        requires
            old(self)@.entry_wf(entry),
        ensures
            final(self)@ == old(self)@.entry_resolved(entry, resolved),
            final(self)@.wf(),
            asks(action, old(self)@, final(self)@.phase),
    {
        let worker: usize = entry.worker;
        let parts = entry.key.into_parts();
        let _ = self.workers[worker].aggregator.finish_resolution(parts.stack_id, resolved);
        self.phase = Phase::CheckingCpus { entry };
        assert(self@.workers =~= old(self)@.entry_resolved(entry, resolved).workers);
        Action::CheckCanceled
    }

    fn sweep(&mut self) -> (action: Action)
        ensures
            final(self)@ == old(self)@.swept(),
            final(self)@.wf(),
            asks(action, old(self)@, final(self)@.phase),
    {
        let mut lists: Vec<Vec<u64>> = Vec::new();
        let mut i: usize = 0;
        let ghost before = self@;
        while i < self.workers.len()
            invariant
                before == old(self)@,
                self@.workers.len() == before.workers.len(),
                self@.sweep_every == before.sweep_every,
                self@.workers.len() == self.workers@.len(),
                i <= self.workers@.len(),
                lists@.len() == i,
                forall|j: int|
                    0 <= j < i ==> (#[trigger] lists@[j])@.no_duplicates() && lists@[j]@.to_set()
                        == before.workers[j].to_drop,
                forall|j: int|
                    0 <= j < i ==> #[trigger] self@.workers[j] == (Worker {
                        to_drop: Set::empty(),
                        ..before.workers[j]
                    }),
                forall|j: int|
                    i <= j < before.workers.len() ==> #[trigger] self@.workers[j]
                        == before.workers[j],
            decreases self.workers@.len() - i,
        {
            let ghost during = self@;
            assert(during.workers[i as int] == before.workers[i as int]);
            assert(self.workers@[i as int]@ == during.workers[i as int]);
            let words = self.workers[i].take_dropped();
            lists.push(words);
            assert forall|j: int| 0 <= j < before.workers.len() && j != i implies #[trigger] self@.workers[j]
                == during.workers[j] by {}
            assert(self@.workers[i as int] == self.workers@[i as int]@);
            i += 1;
        }
        self.phase = Phase::Dropping;
        assert(self@.workers =~= before.swept().workers);
        Action::DropKeys(lists)
    }

    fn repeat(&self) -> (action: Action)
        requires
            self@.wf(),
        ensures
            asks(action, self@, self@.phase),
    {
        match &self.phase {
            Phase::Sleeping => Action::Sleep,
            Phase::Reading { worker } => Action::ReadEntry { worker: *worker },
            Phase::Resolving { entry } => {
                let parts = entry.key.into_parts();
                Action::Resolve { stack_id: parts.stack_id, pid: parts.pid }
            },
            Phase::Timing => Action::ReadClock,
            Phase::Dropping => {
                let mut lists: Vec<Vec<u64>> = Vec::new();
                let mut i: usize = 0;
                while i < self.workers.len()
                    invariant
                        i <= self.workers@.len(),
                        lists@.len() == i,
                        forall|j: int|
                            0 <= j < i ==> (#[trigger] lists@[j])@ == Seq::<u64>::empty(),
                    decreases self.workers@.len() - i,
                {
                    lists.push(Vec::new());
                    i += 1;
                }
                assert(Seq::<u64>::empty().to_set() =~= Set::<u64>::empty());
                Action::DropKeys(lists)
            },
            Phase::Done => Action::Finish,
            _ => Action::CheckCanceled,
        }
    }

    /// Takes what the last piece of outside work gave, and says what to do next.
    pub fn step(&mut self, event: Event) -> (action: Action)
        requires
            old(self)@.wf(),
        ensures
            final(self)@ == old(self)@.next(event),
            final(self)@.wf(),
            asks(action, old(self)@, final(self)@.phase),
    {
        let mut phase = Phase::Done;
        core::mem::swap(&mut phase, &mut self.phase);
        match (phase, event) {
            (Phase::Polling, Event::Canceled(canceled)) => {
                if canceled {
                    self.phase = Phase::Done;
                    Action::Finish
                } else {
                    self.phase = Phase::Sleeping;
                    Action::Sleep
                }
            },
            (Phase::Sleeping, Event::Slept) => self.go_to_worker(0),
            (Phase::Reading { worker }, Event::Read(EntryRead::End)) => {
                self.phase = Phase::CheckingWorkers { worker };
                Action::CheckCanceled
            },
            (Phase::Reading { worker }, Event::Read(EntryRead::Failed)) => {
                self.phase = Phase::Reading { worker };
                Action::ReadEntry { worker }
            },
            (Phase::Reading { worker }, Event::Read(EntryRead::Snapshots { key, per_cpu })) => {
                self.read_entry(worker, key, per_cpu)
            },
            (Phase::Resolving { entry }, Event::Resolved(resolved)) => {
                self.resolve_entry(entry, resolved)
            },
            (Phase::CheckingCpus { entry }, Event::Canceled(canceled)) => {
                if canceled {
                    self.finish_entry(entry)
                } else {
                    self.continue_entry(entry)
                }
            },
            (Phase::CheckingEntries { worker }, Event::Canceled(canceled)) => {
                if canceled {
                    self.phase = Phase::CheckingWorkers { worker };
                    Action::CheckCanceled
                } else {
                    self.phase = Phase::Reading { worker };
                    Action::ReadEntry { worker }
                }
            },
            (Phase::CheckingWorkers { worker }, Event::Canceled(canceled)) => {
                if canceled {
                    self.phase = Phase::Timing;
                    Action::ReadClock
                } else {
                    assert(worker < self.workers.len());
                    self.go_to_worker(worker + 1)
                }
            },
            (Phase::Timing, Event::Elapsed(elapsed)) => {
                if elapsed.as_nanos() >= self.retention.sweep_every.as_nanos() {
                    self.sweep()
                } else {
                    self.phase = Phase::Polling;
                    Action::CheckCanceled
                }
            },
            (Phase::Dropping, Event::Dropped) => {
                self.phase = Phase::Polling;
                Action::CheckCanceled
            },
            (phase, _) => {
                self.phase = phase;
                self.repeat()
            },
        }
    }

    /// What was collected, metric by metric.
    pub fn into_results(self) -> (results: Vec<(MetricKind, StatsAggregator)>)
        ensures
            results@.len() == self@.workers.len(),
            forall|i: int|
                0 <= i < results@.len() ==> {
                    let result = #[trigger] results@[i];
                    &&& result.0 == self@.workers[i].spec.kind
                    &&& result.1.metric() == self@.workers[i].spec
                    &&& result.1@ == self@.workers[i].aggregate
                },
    {
        let ghost workers = self.workers@;
        let mut results: Vec<(MetricKind, StatsAggregator)> = Vec::new();
        for worker in it: self.workers
            invariant
                it.seq() == workers,
                results@.len() == it.index(),
                forall|i: int|
                    0 <= i < results@.len() ==> {
                        let result = #[trigger] results@[i];
                        &&& result.0 == workers[i]@.spec.kind
                        &&& result.1.metric() == workers[i]@.spec
                        &&& result.1@ == workers[i]@.aggregate
                    },
        {
            let kind = worker.aggregator.kind();
            results.push((kind, worker.aggregator));
        }
        results
    }
}

/// An aggregate with the snapshots of every CPU from `from` on.
pub open spec fn ingest_all(
    aggregate: Aggregate,
    word: u64,
    snapshots: Seq<Histogram>,
    from: int,
) -> Aggregate
    decreases snapshots.len() - from,
{
    if from >= snapshots.len() {
        aggregate
    } else {
        ingest_all(
            aggregate.ingested(word, from as usize, snapshots[from]@),
            word,
            snapshots,
            from + 1,
        )
    }
}

/// Snapshots whose events only ever grow are each added once: taking in the snapshots of all
/// CPUs keeps the events of a stack adding up.
pub proof fn law_entry_adds_up(
    aggregate: Aggregate,
    word: u64,
    snapshots: Seq<Histogram>,
    from: int,
    cpus: nat,
)
    requires
        aggregate.wf(),
        aggregate.adds_up(word, cpus),
        0 <= from <= snapshots.len() <= cpus <= usize::MAX,
        forall|cpu: int|
            from <= cpu < snapshots.len() ==> aggregate.last(word, cpu).le(
                (#[trigger] snapshots[cpu])@,
            ),
    ensures
        ingest_all(aggregate, word, snapshots, from).wf(),
        ingest_all(aggregate, word, snapshots, from).adds_up(word, cpus),
        forall|cpu: int|
            from <= cpu < snapshots.len() ==> ingest_all(aggregate, word, snapshots, from).last(
                word,
                cpu,
            ) == (#[trigger] snapshots[cpu])@,
        forall|cpu: int|
            !(from <= cpu < snapshots.len()) ==> #[trigger] ingest_all(
                aggregate,
                word,
                snapshots,
                from,
            ).last(word, cpu) == aggregate.last(word, cpu),
    decreases snapshots.len() - from,
{
    if from < snapshots.len() {
        let current = snapshots[from]@;
        let next = aggregate.ingested(word, from as usize, current);
        assert(aggregate.last(word, from).le(snapshots[from]@));
        aggregate.law_ingest_adds_up(word, from as usize, current, cpus);
        assert forall|cpu: int| cpu != from implies #[trigger] next.last(word, cpu)
            == aggregate.last(word, cpu) by {}
        law_entry_adds_up(next, word, snapshots, from + 1, cpus);
        assert(next.last(word, from) == current);
    }
}

impl CollectorState {
    /// What an entry that is being worked on still adds, and what it has added, are together
    /// the snapshots of all its CPUs; once it is left without being canceled, all of them
    /// were added.
    pub proof fn law_entry_ingests_every_cpu(self, entry: Entry)
        requires
            self.entry_wf(entry),
        ensures
            ({
                let after = self.entry_continued(entry);
                let all = ingest_all(
                    self.workers[entry.worker as int].aggregate,
                    entry.key.word(),
                    entry.snapshots@,
                    entry.next_cpu as int,
                );
                let now = after.workers[entry.worker as int].aggregate;
                match after.phase {
                    Phase::Resolving { entry: ahead } => all == ingest_all(
                        now,
                        entry.key.word(),
                        entry.snapshots@,
                        ahead.next_cpu as int,
                    ),
                    Phase::CheckingCpus { entry: ahead } => all == ingest_all(
                        now,
                        entry.key.word(),
                        entry.snapshots@,
                        ahead.next_cpu as int,
                    ),
                    _ => all == now,
                }
            }),
    {
        assert(entry.snapshots@.len() == entry.snapshots.len());
    }

    /// An entry that is skipped adds nothing, and its key is to be dropped.
    pub proof fn law_skipped_entry_is_dropped(
        self,
        worker: usize,
        key: HistogramKey,
        per_cpu: Vec<Histogram>,
    )
        requires
            self.phase == (Phase::Reading { worker }),
            self.wf(),
            entry_skipped(self.workers[worker as int].spec, per_cpu@),
        ensures
            ({
                let after = self.next(Event::Read(EntryRead::Snapshots { key, per_cpu }));
                &&& after.phase == (Phase::CheckingEntries { worker })
                &&& after.workers[worker as int].aggregate == self.workers[worker as int].aggregate
                &&& after.workers[worker as int].to_drop == self.workers[worker as int].to_drop.insert(
                    key.word(),
                )
            }),
    {
    }

    /// An entry that is not skipped is ingested from its first CPU on, and its key is kept.
    pub proof fn law_kept_entry_is_not_dropped(
        self,
        worker: usize,
        key: HistogramKey,
        per_cpu: Vec<Histogram>,
    )
        requires
            self.phase == (Phase::Reading { worker }),
            self.wf(),
            !entry_skipped(self.workers[worker as int].spec, per_cpu@),
        ensures
            ({
                let after = self.next(Event::Read(EntryRead::Snapshots { key, per_cpu }));
                let state = after.workers[worker as int];
                &&& !state.to_drop.contains(key.word())
                &&& per_cpu@.len() > 0 ==> state.aggregate
                    == self.workers[worker as int].aggregate.ingested(
                    key.word(),
                    0,
                    per_cpu@[0]@,
                )
                &&& per_cpu@.len() > 0 ==> match after.phase {
                    Phase::Resolving { entry } => entry.next_cpu == 1 && entry.snapshots == per_cpu,
                    Phase::CheckingCpus { entry } => entry.next_cpu == 1 && entry.snapshots
                        == per_cpu,
                    _ => false,
                }
            }),
    {
    }

    /// Keys are dropped no earlier than the retention says, and then all of them are.
    pub proof fn law_sweep_waits_for_retention(self, elapsed: std::time::Duration)
        requires
            self.phase is Timing,
        ensures
            self.next(Event::Elapsed(elapsed)).phase is Dropping <==> crate::model::duration_nanos(
                elapsed,
            ) >= self.sweep_every,
            self.next(Event::Elapsed(elapsed)).phase is Dropping ==> forall|i: int|
                0 <= i < self.workers.len() ==> (#[trigger] self.next(
                    Event::Elapsed(elapsed),
                ).workers[i]).to_drop == Set::<u64>::empty(),
            !(self.next(Event::Elapsed(elapsed)).phase is Dropping) ==> self.next(
                Event::Elapsed(elapsed),
            ).workers == self.workers,
    {
    }

    /// A collector that is canceled while it works on an entry reads no further entry: the
    /// answers lead past the CPUs, the entries and the metrics to the clock, and from there
    /// to the end.
    pub proof fn law_canceled_collector_ends(self, entry: Entry, elapsed: std::time::Duration)
        requires
            self.wf(),
            self.phase == (Phase::CheckingCpus { entry }),
        ensures
            ({
                let left = self.next(Event::Canceled(true)).next(Event::Canceled(true)).next(
                    Event::Canceled(true),
                );
                &&& left.phase is Timing
                &&& left.next(Event::Elapsed(elapsed)).next(Event::Dropped).next(
                    Event::Canceled(true),
                ).phase is Done
            }),
    {
    }

    /// Events keep the collector well formed, its metrics and its retention.
    pub proof fn law_stays_wf(self, event: Event)
        requires
            self.wf(),
        ensures
            self.next(event).wf(),
            self.next(event).sweep_every == self.sweep_every,
            self.next(event).workers.len() == self.workers.len(),
            forall|i: int|
                0 <= i < self.workers.len() ==> (#[trigger] self.next(event).workers[i]).spec
                    == self.workers[i].spec,
    {
    }

    /// The state after some events.
    pub open spec fn run(self, events: Seq<Event>) -> CollectorState
        decreases events.len(),
    {
        if events.len() == 0 {
            self
        } else {
            self.run(events.drop_last()).next(events.last())
        }
    }

    /// Whether an event brings the stack `word` of a metric, and if so whether it is skipped.
    pub open spec fn scan(self, event: Event, worker: int, word: u64) -> Option<bool> {
        match (self.phase, event) {
            (
                Phase::Reading { worker: reading },
                Event::Read(EntryRead::Snapshots { key, per_cpu }),
            ) => if reading == worker && key.word() == word {
                Some(entry_skipped(self.workers[worker].spec, per_cpu@))
            } else {
                None
            },
            _ => None,
        }
    }

    /// Whether an event makes keys leave the maps.
    pub open spec fn sweeps(self, event: Event) -> bool {
        &&& self.phase is Timing
        &&& event matches Event::Elapsed(elapsed)
        &&& crate::model::duration_nanos(elapsed) >= self.sweep_every
    }

    /// Whether the stack `word` of a metric was skipped when some events brought it last.
    pub open spec fn latest_scan(self, events: Seq<Event>, worker: int, word: u64) -> Option<bool>
        decreases events.len(),
    {
        if events.len() == 0 {
            None
        } else {
            match self.run(events.drop_last()).scan(events.last(), worker, word) {
                Some(skipped) => Some(skipped),
                None => self.latest_scan(events.drop_last(), worker, word),
            }
        }
    }

    /// Whether the stack `word` of a metric was brought since keys left the maps last, and
    /// was skipped when it was brought last.
    pub open spec fn skipped_since_sweep(
        self,
        events: Seq<Event>,
        worker: int,
        word: u64,
    ) -> bool
        decreases events.len(),
    {
        if events.len() == 0 {
            false
        } else {
            let before = self.run(events.drop_last());
            match before.scan(events.last(), worker, word) {
                Some(skipped) => skipped,
                None => !before.sweeps(events.last()) && self.skipped_since_sweep(
                    events.drop_last(),
                    worker,
                    word,
                ),
            }
        }
    }

    /// A collector that has collected nothing, and has nothing to drop.
    pub open spec fn is_new(self) -> bool {
        &&& self.phase is Polling
        &&& forall|i: int|
            0 <= i < self.workers.len() ==> (#[trigger] self.workers[i]).to_drop == Set::<
                u64,
            >::empty()
    }

    proof fn lemma_next_to_drop(self, event: Event, worker: int, word: u64)
        requires
            self.wf(),
            0 <= worker < self.workers.len(),
        ensures
            self.next(event).workers[worker].to_drop.contains(word) == (match self.scan(
                event,
                worker,
                word,
            ) {
                Some(skipped) => skipped,
                None => !self.sweeps(event) && self.workers[worker].to_drop.contains(word),
            }),
    {
    }

    proof fn lemma_run(self, events: Seq<Event>, worker: int, word: u64)
        requires
            self.wf(),
            self.is_new(),
            0 <= worker < self.workers.len(),
        ensures
            self.run(events).wf(),
            self.run(events).sweep_every == self.sweep_every,
            self.run(events).workers.len() == self.workers.len(),
            self.run(events).workers[worker].spec == self.workers[worker].spec,
            self.run(events).workers[worker].to_drop.contains(word) == self.skipped_since_sweep(
                events,
                worker,
                word,
            ),
            self.skipped_since_sweep(events, worker, word) ==> self.latest_scan(
                events,
                worker,
                word,
            ) == Some(true),
            self.latest_scan(events, worker, word) == Some(true)
                ==> self.workers[worker].spec.skip_total_value_lt > 0
                || self.workers[worker].spec.skip_total_count_lt > 0,
        decreases events.len(),
    {
        if events.len() > 0 {
            let before = self.run(events.drop_last());
            self.lemma_run(events.drop_last(), worker, word);
            before.law_stays_wf(events.last());
            before.lemma_next_to_drop(events.last(), worker, word);
            assert(before.next(events.last()).workers[worker].spec == before.workers[worker].spec);
        }
    }

    /// Over any run, the keys that are to be dropped are those whose stack was skipped when it
    /// was read last, among those read since keys were dropped last.
    pub proof fn law_keys_to_drop_were_skipped(self, events: Seq<Event>, worker: int, word: u64)
        requires
            self.wf(),
            self.is_new(),
            0 <= worker < self.workers.len(),
        ensures
            self.run(events).workers[worker].to_drop.contains(word) <==> self.skipped_since_sweep(
                events,
                worker,
                word,
            ),
    {
        self.lemma_run(events, worker, word);
    }

    /// Over any run, a key leaves its map only when so much time has passed as the retention
    /// says, and only if its stack was skipped when it was read last; without thresholds none
    /// does.
    pub proof fn law_dropped_key_was_skipped(
        self,
        events: Seq<Event>,
        event: Event,
        action: Action,
        worker: int,
        word: u64,
    )
        requires
            self.wf(),
            self.is_new(),
            0 <= worker < self.workers.len(),
            asks(action, self.run(events), self.run(events).next(event).phase),
            action matches Action::DropKeys(lists) && lists@[worker]@.contains(word),
        ensures
            self.run(events).sweeps(event),
            self.run(events).sweep_every == self.sweep_every,
            self.latest_scan(events, worker, word) == Some(true),
            self.workers[worker].spec.skip_total_value_lt > 0
                || self.workers[worker].spec.skip_total_count_lt > 0,
    {
        let before = self.run(events);
        self.lemma_run(events, worker, word);
        let lists = action->DropKeys_0;
        assert(lists@[worker]@.to_set().contains(word));
        assert(before.workers[worker].to_drop.contains(word));
        if before.phase is Dropping {
            assert(before.workers[worker].to_drop == Set::<u64>::empty());
        }
    }
}

proof fn lemma_sums_are_folds(snapshots: Seq<Histogram>)
    ensures
        total_sum(snapshots) == snapshots.fold_left(
            0int,
            |sum: int, hist: Histogram| sum + hist.total,
        ),
        count_sum(snapshots) == snapshots.fold_left(
            0int,
            |sum: int, hist: Histogram| sum + hist@.count(),
        ),
    decreases snapshots.len(),
{
    if snapshots.len() > 0 {
        lemma_sums_are_folds(snapshots.drop_last());
    }
}

/// A stack is skipped if and only if the values of all CPUs together are less than one
/// threshold, or the events of all CPUs together are fewer than the other.
pub proof fn law_stack_is_skipped_below_thresholds(spec: MetricSpec, snapshots: Seq<Histogram>)
    ensures
        entry_skipped(spec, snapshots) <==> {
            ||| snapshots.fold_left(0int, |sum: int, hist: Histogram| sum + hist.total)
                < spec.skip_total_value_lt
            ||| snapshots.fold_left(0int, |sum: int, hist: Histogram| sum + hist@.count())
                < spec.skip_total_count_lt
        },
{
    lemma_sums_are_folds(snapshots);
}

/// Without thresholds no stack is skipped.
pub proof fn law_nothing_is_skipped_without_thresholds(spec: MetricSpec, snapshots: Seq<Histogram>)
    requires
        spec.skip_total_value_lt == 0,
        spec.skip_total_count_lt == 0,
    ensures
        !entry_skipped(spec, snapshots),
{
}

/// Higher thresholds skip no less.
pub proof fn law_higher_thresholds_skip_more(
    low: MetricSpec,
    high: MetricSpec,
    snapshots: Seq<Histogram>,
)
    requires
        low.skip_total_value_lt <= high.skip_total_value_lt,
        low.skip_total_count_lt <= high.skip_total_count_lt,
    ensures
        entry_skipped(low, snapshots) ==> entry_skipped(high, snapshots),
{
}

/// Whether an event says that collecting is canceled.
pub open spec fn cancels(event: Event) -> bool {
    event matches Event::Canceled(canceled) && canceled
}

/// Whether an entry is being worked on.
pub open spec fn is_inside_entry(phase: Phase) -> bool {
    phase is Resolving || phase is CheckingCpus
}

/// Whether both hold the same events; their symbols may differ.
pub open spec fn same_events(a: Aggregate, b: Aggregate) -> bool {
    a.totals == b.totals && a.last_seen == b.last_seen
}

proof fn lemma_ingest_all_same_events(
    a: Aggregate,
    b: Aggregate,
    word: u64,
    snapshots: Seq<Histogram>,
    from: int,
)
    requires
        same_events(a, b),
        0 <= from,
    ensures
        same_events(
            ingest_all(a, word, snapshots, from),
            ingest_all(b, word, snapshots, from),
        ),
    decreases snapshots.len() - from,
{
    if from < snapshots.len() {
        let current = snapshots[from]@;
        assert(a.fresh(word, from as usize, current) == b.fresh(word, from as usize, current));
        assert(a.total(word) == b.total(word));
        lemma_ingest_all_same_events(
            a.ingested(word, from as usize, current),
            b.ingested(word, from as usize, current),
            word,
            snapshots,
            from + 1,
        );
    }
}

proof fn lemma_ingest_all_last(
    aggregate: Aggregate,
    word: u64,
    snapshots: Seq<Histogram>,
    from: int,
    cpu: usize,
)
    requires
        0 <= from <= snapshots.len() <= usize::MAX,
        cpu < snapshots.len(),
        from <= cpu || aggregate.last_seen.contains_key((word, cpu))
            && aggregate.last_seen[(word, cpu)] == snapshots[cpu as int]@,
    ensures
        ingest_all(aggregate, word, snapshots, from).last_seen.contains_key((word, cpu)),
        ingest_all(aggregate, word, snapshots, from).last_seen[(word, cpu)]
            == snapshots[cpu as int]@,
    decreases snapshots.len() - from,
{
    if from < snapshots.len() {
        lemma_ingest_all_last(
            aggregate.ingested(word, from as usize, snapshots[from]@),
            word,
            snapshots,
            from + 1,
            cpu,
        );
    }
}

impl CollectorState {
    /// The collector polls until it is canceled: it pauses, reads the maps beginning with the
    /// first, looks at the clock, and asks again.
    pub proof fn law_polls_until_canceled(self, elapsed: std::time::Duration)
        requires
            self.wf(),
        ensures
            self.phase is Polling ==> self.next(Event::Canceled(false)).phase is Sleeping,
            self.phase is Polling ==> self.next(Event::Canceled(true)).phase is Done,
            self.phase is Sleeping && self.workers.len() > 0 ==> self.next(Event::Slept).phase == (
            Phase::Reading { worker: 0 }),
            self.phase is Sleeping && self.workers.len() == 0 ==> self.next(
                Event::Slept,
            ).phase is Timing,
            self.phase is Timing ==> {
                ||| self.next(Event::Elapsed(elapsed)).phase is Polling
                ||| self.next(Event::Elapsed(elapsed)).phase is Dropping && self.next(
                    Event::Elapsed(elapsed),
                ).next(Event::Dropped).phase is Polling
            },
            self.phase is Dropping ==> self.next(Event::Dropped).phase is Polling,
            self.phase is Polling || self.phase is Sleeping ==> self.next(
                Event::Canceled(false),
            ).workers == self.workers && self.next(Event::Slept).workers == self.workers,
    {
    }

    /// A map is read entry by entry to its end, and then the map of the next metric; only when
    /// there is none does the collector look at the clock. An entry that cannot be read is
    /// passed over.
    pub proof fn law_next_map_is_read(self, worker: usize, action: Action)
        requires
            self.wf(),
        ensures
            self.phase == (Phase::Reading { worker }) ==> {
                &&& self.next(Event::Read(EntryRead::End)).phase == (Phase::CheckingWorkers {
                    worker,
                })
                &&& self.next(Event::Read(EntryRead::End)).workers == self.workers
                &&& self.next(Event::Read(EntryRead::Failed)) == self
            },
            self.phase == (Phase::CheckingEntries { worker }) ==> {
                &&& self.next(Event::Canceled(false)).phase == (Phase::Reading { worker })
                &&& self.next(Event::Canceled(false)).workers == self.workers
            },
            self.phase == (Phase::CheckingWorkers { worker }) ==> {
                let after = self.next(Event::Canceled(false));
                &&& after.workers == self.workers
                &&& worker + 1 < self.workers.len() <= usize::MAX ==> after.phase == (
                Phase::Reading { worker: (worker + 1) as usize })
                &&& worker + 1 < self.workers.len() <= usize::MAX && asks(
                    action,
                    self,
                    after.phase,
                ) ==> action == (Action::ReadEntry { worker: (worker + 1) as usize })
                &&& worker + 1 >= self.workers.len() ==> after.phase is Timing
            },
    {
    }

    /// Whether some events read the map of a metric to its end.
    pub open spec fn reads_to_end(self, events: Seq<Event>, worker: int) -> bool {
        exists|n: int|
            0 <= n < events.len() && #[trigger] events[n] == Event::Read(EntryRead::End) && (
            self.run(events.take(n)).phase matches Phase::Reading { worker: reading } && reading
                == worker)
    }

    proof fn lemma_maps_read_to_end(self, events: Seq<Event>, worker: int)
        requires
            self.wf(),
            self.phase is Sleeping,
            self.workers.len() <= usize::MAX,
            0 <= worker < self.workers.len(),
            forall|i: int| 0 <= i < events.len() ==> !cancels(#[trigger] events[i]),
        ensures
            self.run(events).wf(),
            self.run(events).workers.len() == self.workers.len(),
            match self.run(events).phase {
                Phase::Sleeping => true,
                Phase::Reading { worker: at } => worker < at ==> self.reads_to_end(events, worker),
                Phase::CheckingEntries { worker: at } => worker < at ==> self.reads_to_end(
                    events,
                    worker,
                ),
                Phase::Resolving { entry } => worker < entry.worker ==> self.reads_to_end(
                    events,
                    worker,
                ),
                Phase::CheckingCpus { entry } => worker < entry.worker ==> self.reads_to_end(
                    events,
                    worker,
                ),
                Phase::CheckingWorkers { worker: at } => worker <= at ==> self.reads_to_end(
                    events,
                    worker,
                ),
                _ => self.reads_to_end(events, worker),
            },
        decreases events.len(),
    {
        if events.len() > 0 {
            let earlier = events.drop_last();
            let event = events.last();
            let before = self.run(earlier);
            assert forall|i: int| 0 <= i < earlier.len() implies !cancels(#[trigger] earlier[i]) by {
                assert(!cancels(events[i]));
            }
            assert(!cancels(events[events.len() - 1]));
            self.lemma_maps_read_to_end(earlier, worker);
            before.law_stays_wf(event);
            if self.reads_to_end(earlier, worker) {
                let n = choose|n: int|
                    0 <= n < earlier.len() && #[trigger] earlier[n] == Event::Read(EntryRead::End)
                        && (self.run(earlier.take(n)).phase matches Phase::Reading {
                        worker: reading,
                    } && reading == worker);
                assert(earlier.take(n) =~= events.take(n));
                assert(events[n] == Event::Read(EntryRead::End));
                assert(self.reads_to_end(events, worker));
            }
            if before.phase == (Phase::Reading { worker: worker as usize }) && event
                == Event::Read(EntryRead::End) {
                assert(events.take(events.len() - 1) =~= earlier);
                assert(events[events.len() - 1] == Event::Read(EntryRead::End));
                assert(self.reads_to_end(events, worker));
            }
        }
    }

    /// Between a pause and the next look at the clock, the map of every metric is read to its
    /// end, unless collecting is canceled.
    pub proof fn law_poll_reads_every_map(self, events: Seq<Event>, worker: int)
        requires
            self.wf(),
            self.phase is Sleeping,
            self.workers.len() <= usize::MAX,
            0 <= worker < self.workers.len(),
            forall|i: int| 0 <= i < events.len() ==> !cancels(#[trigger] events[i]),
            self.run(events).phase is Timing,
        ensures
            exists|n: int|
                0 <= n < events.len() && self.run(events.take(n)).phase == (Phase::Reading {
                    worker: worker as usize,
                }) && #[trigger] events[n] == Event::Read(EntryRead::End),
    {
        self.lemma_maps_read_to_end(events, worker);
        let n = choose|n: int|
            0 <= n < events.len() && #[trigger] events[n] == Event::Read(EntryRead::End) && (
            self.run(events.take(n)).phase matches Phase::Reading { worker: reading } && reading
                == worker);
        assert(self.run(events.take(n)).phase == (Phase::Reading { worker: worker as usize }));
    }

    /// Two pauses without cancellation have the map of every metric read to its end between
    /// them.
    pub proof fn law_every_map_is_read_between_pauses(self, events: Seq<Event>, worker: int)
        requires
            self.wf(),
            self.phase is Sleeping,
            self.workers.len() <= usize::MAX,
            0 <= worker < self.workers.len(),
            forall|i: int| 0 <= i < events.len() ==> !cancels(#[trigger] events[i]),
            events.len() > 0,
            self.run(events.drop_last()).phase is Polling,
            self.run(events).phase is Sleeping,
        ensures
            exists|n: int|
                0 <= n < events.len() && self.run(events.take(n)).phase == (Phase::Reading {
                    worker: worker as usize,
                }) && #[trigger] events[n] == Event::Read(EntryRead::End),
    {
        let earlier = events.drop_last();
        assert forall|i: int| 0 <= i < earlier.len() implies !cancels(#[trigger] earlier[i]) by {
            assert(!cancels(events[i]));
        }
        self.lemma_maps_read_to_end(earlier, worker);
        let n = choose|n: int|
            0 <= n < earlier.len() && #[trigger] earlier[n] == Event::Read(EntryRead::End) && (
            self.run(earlier.take(n)).phase matches Phase::Reading { worker: reading } && reading
                == worker);
        assert(earlier.take(n) =~= events.take(n));
        assert(events[n] == Event::Read(EntryRead::End));
        assert(self.run(events.take(n)).phase == (Phase::Reading { worker: worker as usize }));
    }

    /// Where collecting is canceled nothing more is read, looked up or waited for, and what was
    /// collected stays.
    pub proof fn law_cancellation_stops_reading(self, action: Action)
        requires
            self.wf(),
        ensures
            ({
                let after = self.next(Event::Canceled(true));
                &&& after.workers == self.workers
                &&& match self.phase {
                    Phase::CheckingCpus { entry } => after.phase == (Phase::CheckingEntries {
                        worker: entry.worker,
                    }),
                    Phase::CheckingEntries { worker } => after.phase == (Phase::CheckingWorkers {
                        worker,
                    }),
                    Phase::CheckingWorkers { worker } => after.phase is Timing,
                    Phase::Polling => after.phase is Done,
                    _ => after == self,
                }
            }),
            self.phase is Polling && asks(
                action,
                self,
                self.next(Event::Canceled(true)).phase,
            ) ==> action is Finish,
    {
    }

    /// A collector that is done stays so, and what was collected stays.
    pub proof fn law_done_stays_done(self, events: Seq<Event>)
        requires
            self.phase is Done,
        ensures
            self.run(events) == self,
        decreases events.len(),
    {
        if events.len() > 0 {
            self.law_done_stays_done(events.drop_last());
        }
    }

    /// What was collected of a metric changes only by the histograms of an entry of its own map,
    /// and by the symbols of a stack of it.
    pub proof fn law_other_metrics_stay(self, event: Event, worker: int)
        requires
            self.wf(),
            0 <= worker < self.workers.len(),
            match self.phase {
                Phase::Reading { worker: at } => at != worker || !(event is Read),
                Phase::Resolving { entry } => entry.worker != worker || !(event is Resolved),
                Phase::CheckingCpus { entry } => entry.worker != worker || !(event is Canceled),
                _ => true,
            },
        ensures
            self.next(event).workers[worker].aggregate == self.workers[worker].aggregate,
            self.next(event).workers[worker].to_drop == self.workers[worker].to_drop
                || self.sweeps(event),
    {
    }

    /// An event that is not waited for changes nothing.
    pub proof fn law_unexpected_events_are_ignored(self, event: Event)
        requires
            match self.phase {
                Phase::Polling => !(event is Canceled),
                Phase::Sleeping => !(event is Slept),
                Phase::Reading { worker } => !(event is Read),
                Phase::Resolving { entry } => !(event is Resolved),
                Phase::CheckingCpus { entry } => !(event is Canceled),
                Phase::CheckingEntries { worker } => !(event is Canceled),
                Phase::CheckingWorkers { worker } => !(event is Canceled),
                Phase::Timing => !(event is Elapsed),
                Phase::Dropping => !(event is Dropped),
                Phase::Done => true,
            },
        ensures
            self.next(event) == self,
    {
    }

    /// What the collector asks for is what it waits for: the answer to the question, the end of
    /// the pause, an entry of the map that it reads, the symbols of the stack that it is at, the
    /// time, or the end of dropping every key that is to be dropped.
    pub proof fn law_action_fits_phase(self, action: Action, before: CollectorState)
        requires
            asks(action, before, self.phase),
        ensures
            match self.phase {
                Phase::Polling => action is CheckCanceled,
                Phase::Sleeping => action is Sleep,
                Phase::Reading { worker } => action == (Action::ReadEntry { worker }),
                Phase::Resolving { entry } => {
                    &&& action is Resolve
                    &&& crate::common::packed(action->pid, action->stack_id) == entry.key.word()
                },
                Phase::CheckingCpus { entry } => action is CheckCanceled,
                Phase::CheckingEntries { worker } => action is CheckCanceled,
                Phase::CheckingWorkers { worker } => action is CheckCanceled,
                Phase::Timing => action is ReadClock,
                Phase::Dropping => {
                    &&& action is DropKeys
                    &&& action->DropKeys_0@.len() == before.workers.len()
                    &&& forall|worker: int, word: u64|
                        #![trigger action->DropKeys_0@[worker]@.contains(word)]
                        0 <= worker < before.workers.len() ==> (
                        action->DropKeys_0@[worker]@.contains(word)
                            <==> before.workers[worker].to_drop.contains(word))
                },
                Phase::Done => action is Finish,
            },
    {
        if self.phase is Resolving {
            let word = self.phase->Resolving_entry.key.word();
            crate::common::law_pack_unpacked(word);
        }
        if self.phase is Dropping {
            let lists = action->DropKeys_0;
            assert forall|worker: int, word: u64|
                #![trigger lists@[worker]@.contains(word)]
                0 <= worker < before.workers.len() implies (lists@[worker]@.contains(word)
                <==> before.workers[worker].to_drop.contains(word)) by {
                assert(lists@[worker]@.to_set() == before.workers[worker].to_drop);
                assert(lists@[worker]@.to_set().contains(word) <==> lists@[worker]@.contains(
                    word,
                ));
            }
        }
    }

    /// A key leaves its map once the retention is over, if its stack was skipped when it was
    /// read last and keys were not dropped since.
    pub proof fn law_skipped_key_is_dropped(
        self,
        events: Seq<Event>,
        elapsed: std::time::Duration,
        action: Action,
        worker: int,
        word: u64,
    )
        requires
            self.wf(),
            self.is_new(),
            0 <= worker < self.workers.len(),
            self.run(events).phase is Timing,
            crate::model::duration_nanos(elapsed) >= self.sweep_every,
            self.skipped_since_sweep(events, worker, word),
            asks(action, self.run(events), self.run(events).next(Event::Elapsed(elapsed)).phase),
        ensures
            action is DropKeys,
            action->DropKeys_0@[worker]@.contains(word),
    {
        self.lemma_run(events, worker, word);
        let after = self.run(events).next(Event::Elapsed(elapsed));
        after.law_action_fits_phase(action, self.run(events));
        assert(action->DropKeys_0@[worker]@.contains(word));
    }

    /// The next CPU of an entry is ingested under the key of the entry. Then the symbols of its
    /// stack are looked for, where there are none.
    pub proof fn law_next_cpu_is_ingested(self, entry: Entry, action: Action)
        requires
            self.wf(),
            self.phase == (Phase::CheckingCpus { entry }),
            entry.next_cpu < entry.snapshots@.len() <= usize::MAX,
        ensures
            ({
                let after = self.next(Event::Canceled(false));
                let worker = entry.worker as int;
                let stack_id = (entry.key.word() % 0x1_0000_0000) as u32;
                let ahead = Entry { next_cpu: (entry.next_cpu + 1) as usize, ..entry };
                &&& after.workers[worker].aggregate == self.workers[worker].aggregate.ingested(
                    entry.key.word(),
                    entry.next_cpu,
                    entry.snapshots@[entry.next_cpu as int]@,
                )
                &&& after.workers[worker].to_drop == self.workers[worker].to_drop
                &&& self.workers[worker].aggregate.traces.contains_key(stack_id) ==> after.phase
                    == (Phase::CheckingCpus { entry: ahead })
                &&& !self.workers[worker].aggregate.traces.contains_key(stack_id) ==> after.phase
                    == (Phase::Resolving { entry: ahead })
                &&& !self.workers[worker].aggregate.traces.contains_key(stack_id) && asks(
                    action,
                    self,
                    after.phase,
                ) ==> action == (Action::Resolve {
                    stack_id,
                    pid: (entry.key.word() / 0x1_0000_0000) as u32,
                })
            }),
    {
    }

    /// Symbols that are found are kept for the stack of the entry, and no others change. Where
    /// none are found the entry goes on without.
    pub proof fn law_found_symbols_are_kept(
        self,
        entry: Entry,
        resolved: Result<ResolvedStackTrace, ResolveError>,
    )
        requires
            self.wf(),
            self.phase == (Phase::Resolving { entry }),
        ensures
            ({
                let after = self.next(Event::Resolved(resolved));
                let before = self.workers[entry.worker as int].aggregate;
                let now = after.workers[entry.worker as int].aggregate;
                let stack_id = (entry.key.word() % 0x1_0000_0000) as u32;
                &&& after.phase == (Phase::CheckingCpus { entry })
                &&& same_events(now, before)
                &&& before.traces.contains_key(stack_id) ==> now.traces == before.traces
                &&& resolved is Err ==> now.traces == before.traces
                &&& resolved is Ok && !before.traces.contains_key(stack_id) ==> now.traces
                    == before.traces.insert(stack_id, resolved->Ok_0@)
            }),
    {
    }

    /// Symbols that were found stay to the end.
    pub proof fn law_symbols_stay(self, events: Seq<Event>, worker: int, stack_id: u32)
        requires
            self.wf(),
            0 <= worker < self.workers.len(),
            self.workers[worker].aggregate.traces.contains_key(stack_id),
        ensures
            self.run(events).wf(),
            self.run(events).workers.len() == self.workers.len(),
            self.run(events).workers[worker].aggregate.traces.contains_key(stack_id),
            self.run(events).workers[worker].aggregate.traces[stack_id]
                == self.workers[worker].aggregate.traces[stack_id],
        decreases events.len(),
    {
        if events.len() > 0 {
            self.law_symbols_stay(events.drop_last(), worker, stack_id);
            self.run(events.drop_last()).law_stays_wf(events.last());
        }
    }

    proof fn lemma_entry_is_taken_in(
        self,
        worker: usize,
        key: HistogramKey,
        per_cpu: Vec<Histogram>,
        events: Seq<Event>,
    )
        requires
            self.wf(),
            self.phase == (Phase::Reading { worker }),
            !entry_skipped(self.workers[worker as int].spec, per_cpu@),
            per_cpu@.len() <= usize::MAX,
            forall|i: int| 0 <= i < events.len() ==> !cancels(#[trigger] events[i]),
            ({
                let after = self.next(Event::Read(EntryRead::Snapshots { key, per_cpu }));
                forall|n: int|
                    0 <= n < events.len() ==> is_inside_entry(
                        #[trigger] after.run(events.take(n)).phase,
                    )
            }),
        ensures
            ({
                let after = self.next(Event::Read(EntryRead::Snapshots { key, per_cpu }));
                let now = after.run(events);
                let all = ingest_all(
                    self.workers[worker as int].aggregate,
                    key.word(),
                    per_cpu@,
                    0,
                );
                let aggregate = now.workers[worker as int].aggregate;
                &&& now.wf()
                &&& now.workers.len() == self.workers.len()
                &&& !now.workers[worker as int].to_drop.contains(key.word())
                &&& match now.phase {
                    Phase::Resolving { entry } => entry.worker == worker && entry.key == key
                        && entry.snapshots == per_cpu && same_events(
                        all,
                        ingest_all(aggregate, key.word(), per_cpu@, entry.next_cpu as int),
                    ),
                    Phase::CheckingCpus { entry } => entry.worker == worker && entry.key == key
                        && entry.snapshots == per_cpu && same_events(
                        all,
                        ingest_all(aggregate, key.word(), per_cpu@, entry.next_cpu as int),
                    ),
                    Phase::CheckingEntries { worker: at } => at == worker && same_events(
                        all,
                        aggregate,
                    ),
                    _ => false,
                }
            }),
        decreases events.len(),
    {
        let after = self.next(Event::Read(EntryRead::Snapshots { key, per_cpu }));
        self.law_stays_wf(Event::Read(EntryRead::Snapshots { key, per_cpu }));
        if events.len() > 0 {
            let earlier = events.drop_last();
            let event = events.last();
            let before = after.run(earlier);
            assert(earlier =~= events.take(events.len() - 1));
            assert(is_inside_entry(after.run(events.take(events.len() - 1)).phase));
            assert forall|i: int| 0 <= i < earlier.len() implies !cancels(#[trigger] earlier[i]) by {
                assert(!cancels(events[i]));
            }
            assert forall|n: int| 0 <= n < earlier.len() implies is_inside_entry(
                #[trigger] after.run(earlier.take(n)).phase,
            ) by {
                assert(earlier.take(n) =~= events.take(n));
                assert(is_inside_entry(after.run(events.take(n)).phase));
            }
            assert(!cancels(events[events.len() - 1]));
            self.lemma_entry_is_taken_in(worker, key, per_cpu, earlier);
            before.law_stays_wf(event);
            let now = before.next(event);
            match before.phase {
                Phase::Resolving { entry } => {
                    lemma_ingest_all_same_events(
                        before.workers[worker as int].aggregate,
                        now.workers[worker as int].aggregate,
                        key.word(),
                        per_cpu@,
                        entry.next_cpu as int,
                    );
                },
                Phase::CheckingCpus { entry } => {
                    if event is Canceled {
                        before.law_entry_ingests_every_cpu(entry);
                    }
                },
                _ => {},
            }
        } else {
            let state = self.workers[worker as int];
            let settled = CollectorState {
                workers: self.workers.update(
                    worker as int,
                    Worker { to_drop: state.to_drop.remove(key.word()), ..state },
                ),
                ..self
            };
            let entry = Entry { worker, key, snapshots: per_cpu, next_cpu: 0 };
            assert(after == settled.entry_continued(entry));
            settled.law_entry_ingests_every_cpu(entry);
        }
    }

    /// An entry that is not skipped is taken in whole before the next one is read, unless
    /// collecting is canceled: the histogram of every CPU is then the last one seen of it. Where
    /// the events of the stack added up before, and no CPU lost any, they still add up.
    pub proof fn law_kept_entry_is_taken_in(
        self,
        worker: usize,
        key: HistogramKey,
        per_cpu: Vec<Histogram>,
        events: Seq<Event>,
        cpu: usize,
        cpus: nat,
    )
        requires
            self.wf(),
            self.phase == (Phase::Reading { worker }),
            !entry_skipped(self.workers[worker as int].spec, per_cpu@),
            cpu < per_cpu@.len() <= cpus <= usize::MAX,
            forall|i: int| 0 <= i < events.len() ==> !cancels(#[trigger] events[i]),
            ({
                let after = self.next(Event::Read(EntryRead::Snapshots { key, per_cpu }));
                &&& forall|n: int|
                    0 <= n < events.len() ==> is_inside_entry(
                        #[trigger] after.run(events.take(n)).phase,
                    )
                &&& !is_inside_entry(after.run(events).phase)
            }),
        ensures
            ({
                let before = self.workers[worker as int].aggregate;
                let now = self.next(Event::Read(EntryRead::Snapshots { key, per_cpu })).run(events);
                let after = now.workers[worker as int].aggregate;
                &&& now.phase == (Phase::CheckingEntries { worker })
                &&& after.last_seen.contains_key((key.word(), cpu))
                &&& after.last_seen[(key.word(), cpu)] == per_cpu@[cpu as int]@
                &&& !now.workers[worker as int].to_drop.contains(key.word())
                &&& before.wf() && before.adds_up(key.word(), cpus) && (forall|c: int|
                    0 <= c < per_cpu@.len() ==> before.last(key.word(), c).le(
                        (#[trigger] per_cpu@[c])@,
                    )) ==> after.adds_up(key.word(), cpus)
            }),
    {
        let before = self.workers[worker as int].aggregate;
        let word = key.word();
        self.lemma_entry_is_taken_in(worker, key, per_cpu, events);
        lemma_ingest_all_last(before, word, per_cpu@, 0, cpu);
        let now = self.next(Event::Read(EntryRead::Snapshots { key, per_cpu })).run(events);
        let after = now.workers[worker as int].aggregate;
        let all = ingest_all(before, word, per_cpu@, 0);
        if before.wf() && before.adds_up(word, cpus) && (forall|c: int|
            0 <= c < per_cpu@.len() ==> before.last(word, c).le((#[trigger] per_cpu@[c])@)) {
            law_entry_adds_up(before, word, per_cpu@, 0, cpus);
            assert forall|c: int| #[trigger] after.last(word, c) == all.last(word, c) by {}
            assert((|c: int| after.last(word, c).total as nat) =~= (|c: int|
                all.last(word, c).total as nat));
            assert forall|i: int|
                0 <= i < crate::common::HISTOGRAM_BUCKETS implies #[trigger] after.total(
                word,
            ).buckets[i] == crate::aggregator::capped(
                crate::aggregator::sum_over(
                    |c: int| after.last(word, c).buckets[i] as nat,
                    cpus,
                ),
            ) by {
                assert((|c: int| after.last(word, c).buckets[i] as nat) =~= (|c: int|
                    all.last(word, c).buckets[i] as nat));
                assert(all.total(word).buckets[i] == crate::aggregator::capped(
                    crate::aggregator::sum_over(
                        |c: int| all.last(word, c).buckets[i] as nat,
                        cpus,
                    ),
                ));
            }
        }
    }

    /// The first CPU of an entry is ingested under the key of the entry, where the stack is not
    /// skipped. Where there is no CPU, the next entry is read.
    pub proof fn law_entry_begins_with_first_cpu(
        self,
        worker: usize,
        key: HistogramKey,
        per_cpu: Vec<Histogram>,
    )
        requires
            self.wf(),
            self.phase == (Phase::Reading { worker }),
            !entry_skipped(self.workers[worker as int].spec, per_cpu@),
        ensures
            ({
                let after = self.next(Event::Read(EntryRead::Snapshots { key, per_cpu }));
                let before = self.workers[worker as int];
                let now = after.workers[worker as int];
                let resolved = before.aggregate.traces.contains_key(
                    (key.word() % 0x1_0000_0000) as u32,
                );
                let entry = Entry { worker, key, snapshots: per_cpu, next_cpu: 1 };
                &&& now.to_drop == before.to_drop.remove(key.word())
                &&& per_cpu@.len() == 0 ==> after.phase == (Phase::CheckingEntries { worker })
                    && now.aggregate == before.aggregate
                &&& per_cpu@.len() > 0 ==> now.aggregate == before.aggregate.ingested(
                    key.word(),
                    0,
                    per_cpu@[0]@,
                )
                &&& per_cpu@.len() > 0 && resolved ==> after.phase == (Phase::CheckingCpus {
                    entry,
                })
                &&& per_cpu@.len() > 0 && !resolved ==> after.phase == (Phase::Resolving {
                    entry,
                })
            }),
    {
    }
}

} // verus!
