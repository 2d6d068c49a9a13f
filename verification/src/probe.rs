//! The decisions of the kernel-side probes.
//!
//! A probe reads its configuration, asks whether the event is sampled, and only then
//! takes the stack and the clock. What the kernel answers comes in as plain values.

use crate::common::{Config, Histogram, HistogramKey, MetricMode};
use vstd::prelude::*;

verus! {

/// How many calls of one thread can be timed at once.
pub const MAX_LATENCY_STACK_DEPTH: usize = 8;

/// The calls of one thread that have begun and not returned, innermost last.
///
/// `overflow` counts the calls beyond the fixed depth; no time is kept of them.
#[derive(Clone, Copy, Debug)]
pub struct LatencyStack {
    pub depth: u32,
    pub overflow: u32,
    pub ts: [u64; MAX_LATENCY_STACK_DEPTH],
    pub stack_ids: [i32; MAX_LATENCY_STACK_DEPTH],
}

/// A `LatencyStack` as mathematics.
#[verifier::ext_equal]
pub struct Inflight {
    pub depth: u32,
    pub overflow: u32,
    pub ts: Seq<u64>,
    pub stack_ids: Seq<i32>,
}

impl View for LatencyStack {
    type V = Inflight;

    open spec fn view(&self) -> Inflight {
        Inflight {
            depth: self.depth,
            overflow: self.overflow,
            ts: self.ts@,
            stack_ids: self.stack_ids@,
        }
    }
}

impl Inflight {
    /// No call has begun.
    pub open spec fn empty() -> Inflight {
        Inflight {
            depth: 0,
            overflow: 0,
            ts: Seq::new(MAX_LATENCY_STACK_DEPTH as nat, |i: int| 0u64),
            stack_ids: Seq::new(MAX_LATENCY_STACK_DEPTH as nat, |i: int| -1i32),
        }
    }

    /// Calls overflow only when every slot is taken, and free slots hold no sample.
    pub open spec fn wf(self) -> bool {
        &&& self.ts.len() == MAX_LATENCY_STACK_DEPTH
        &&& self.stack_ids.len() == MAX_LATENCY_STACK_DEPTH
        &&& self.depth <= MAX_LATENCY_STACK_DEPTH
        &&& self.overflow > 0 ==> self.depth == MAX_LATENCY_STACK_DEPTH
        &&& forall|i: int|
            #![trigger self.ts[i]]
            #![trigger self.stack_ids[i]]
            self.depth <= i < MAX_LATENCY_STACK_DEPTH ==> self.ts[i] == 0 && self.stack_ids[i]
                == -1
    }

    /// One call more.
    pub open spec fn pushed(self, ts: u64, stack_id: i32) -> Inflight {
        if self.depth < MAX_LATENCY_STACK_DEPTH {
            Inflight {
                depth: (self.depth + 1) as u32,
                overflow: self.overflow,
                ts: self.ts.update(self.depth as int, ts),
                stack_ids: self.stack_ids.update(self.depth as int, stack_id),
            }
        } else if self.overflow < u32::MAX {
            Inflight { overflow: (self.overflow + 1) as u32, ..self }
        } else {
            self
        }
    }

    /// Whether the call that returns next has a slot.
    pub open spec fn top_has_slot(self) -> bool {
        self.overflow == 0 && 0 < self.depth <= MAX_LATENCY_STACK_DEPTH
    }

    /// The sample of the call that returns next: `(0, -1)` where none was kept.
    pub open spec fn top(self) -> (u64, i32) {
        if self.top_has_slot() {
            (self.ts[self.depth - 1], self.stack_ids[self.depth - 1])
        } else {
            (0, -1i32)
        }
    }

    /// One call less.
    pub open spec fn popped(self) -> Inflight {
        if self.overflow > 0 {
            Inflight { overflow: (self.overflow - 1) as u32, ..self }
        } else if self.top_has_slot() {
            Inflight {
                depth: (self.depth - 1) as u32,
                overflow: 0,
                ts: self.ts.update(self.depth - 1, 0),
                stack_ids: self.stack_ids.update(self.depth - 1, -1i32),
            }
        } else {
            self
        }
    }
}

impl LatencyStack {
    /// No call has begun.
    pub fn new() -> (stack: Self)
        ensures
            stack@ == Inflight::empty(),
    {
        let stack = LatencyStack {
            depth: 0,
            overflow: 0,
            ts: [0;MAX_LATENCY_STACK_DEPTH],
            stack_ids: [-1;MAX_LATENCY_STACK_DEPTH],
        };
        assert(stack@ =~= Inflight::empty());
        stack
    }
}

/// Notes that a call has begun.
pub fn push_latency_sample(stack: &mut LatencyStack, ts: u64, stack_id: i32)
    ensures
        final(stack)@ == old(stack)@.pushed(ts, stack_id),
{
    let depth: u32 = stack.depth;
    if depth < MAX_LATENCY_STACK_DEPTH as u32 {
        let idx: usize = depth as usize;
        stack.ts[idx] = ts;
        stack.stack_ids[idx] = stack_id;
        stack.depth = depth + 1;
    } else {
        stack.overflow = stack.overflow.saturating_add(1);
    }
}

/// Notes that a call has returned, and gives the sample taken when it began.
pub fn pop_latency_sample(stack: &mut LatencyStack) -> (sample: (u64, i32))
    ensures
        sample == old(stack)@.top(),
        final(stack)@ == old(stack)@.popped(),
{
    if stack.overflow > 0 {
        stack.overflow = stack.overflow - 1;
        return (0, -1);
    }
    let depth: u32 = stack.depth;
    if depth == 0 {
        return (0, -1);
    }
    let next: u32 = depth - 1;
    if next >= MAX_LATENCY_STACK_DEPTH as u32 {
        return (0, -1);
    }
    let idx: usize = next as usize;
    stack.depth = next;
    let ts: u64 = stack.ts[idx];
    stack.ts[idx] = 0;
    let stack_id: i32 = stack.stack_ids[idx];
    stack.stack_ids[idx] = -1;
    (ts, stack_id)
}

/// The counter after one event more. It turns over at its limit.
pub open spec fn next_count(counter: u64) -> u64 {
    if counter == u64::MAX {
        0
    } else {
        (counter + 1) as u64
    }
}

/// Whether an interval counts events: with an interval of zero or one every event is
/// sampled and none is counted.
pub open spec fn counts_events(sample_every: u32) -> bool {
    sample_every > 1
}

/// Whether the event that comes next is sampled. Without a counter every event is.
pub open spec fn samples_next(sample_every: u32, counter: Option<u64>) -> bool {
    counts_events(sample_every) && counter is Some ==> next_count(counter->0)
        % (sample_every as u64) == 0
}

/// The counter after the event that comes next.
pub open spec fn counter_after_next(sample_every: u32, counter: Option<u64>) -> Option<u64> {
    if counts_events(sample_every) && counter is Some {
        Some(next_count(counter->0))
    } else {
        counter
    }
}

/// Counts an event and says whether it is sampled.
pub fn should_sample(sample_every: u32, counter: &mut Option<u64>) -> (sampled: bool)
    ensures
        sampled == samples_next(sample_every, *old(counter)),
        *final(counter) == counter_after_next(sample_every, *old(counter)),
{
    if sample_every <= 1 {
        return true;
    }
    let interval: u64 = sample_every as u64;
    match *counter {
        None => true,
        Some(count) => {
            let next: u64 = count.wrapping_add(1);
            *counter = Some(next);
            next % interval == 0
        },
    }
}

/// The configuration, where it is there and is for `mode`.
pub open spec fn active_config(cfg: Option<Config>, mode: MetricMode) -> Option<Config> {
    if cfg is Some && cfg->0.mode == mode.spec_code() {
        cfg
    } else {
        None
    }
}

/// The configuration of a probe, where it is there and is for `mode`. Without one the
/// probe does nothing.
pub fn active(cfg: Option<Config>, mode: MetricMode) -> (config: Option<Config>)
    ensures
        config == active_config(cfg, mode),
{
    match cfg {
        None => None,
        Some(c) => {
            if c.mode != mode.code() {
                None
            } else {
                Some(c)
            }
        },
    }
}

/// Entry of a counted function: whether to take the stack.
pub fn count_entry_sampled(cfg: Option<Config>, counter: &mut Option<u64>) -> (sampled: bool)
    ensures
        match active_config(cfg, MetricMode::Count) {
            None => !sampled && *final(counter) == *old(counter),
            Some(c) => {
                &&& sampled == samples_next(c.sample_every, *old(counter))
                &&& *final(counter) == counter_after_next(c.sample_every, *old(counter))
            },
        },
{
    match active(cfg, MetricMode::Count) {
        None => false,
        Some(c) => should_sample(c.sample_every, counter),
    }
}

/// The process of a thread: the upper half of what the kernel gives for both.
pub open spec fn process_of(pid_tgid: u64) -> u32 {
    (pid_tgid / 0x1_0000_0000) as u32
}

fn process(pid_tgid: u64) -> (pid: u32)
    ensures
        pid == process_of(pid_tgid),
{
    assert(pid_tgid >> 32 == pid_tgid / 0x1_0000_0000) by (bit_vector);
    (pid_tgid >> 32) as u32
}

/// Entry of a counted function, once the stack was taken: which histogram gets an event
/// of value one. None does where the stack could not be taken.
pub fn count_entry_key(stack_id: Option<i64>, pid_tgid: u64) -> (key: Option<HistogramKey>)
    ensures
        match stack_id {
            None => key is None,
            Some(id) => key is Some && key->0.word() == crate::common::packed(
                process_of(pid_tgid),
                id as u32,
            ),
        },
{
    match stack_id {
        None => None,
        Some(id) => Some(
            HistogramKey::new(
                process(pid_tgid),
                #[verifier::truncate]
                (id as u32),
            ),
        ),
    }
}

/// Entry of a timed function: whether the probe goes on, and if so whether to take the
/// clock and the stack.
pub fn latency_entry_sampled(cfg: Option<Config>, counter: &mut Option<u64>) -> (sampled: Option<
    bool,
>)
    ensures
        match active_config(cfg, MetricMode::DurationNs) {
            None => sampled is None && *final(counter) == *old(counter),
            Some(c) => {
                &&& sampled == Some(samples_next(c.sample_every, *old(counter)))
                &&& *final(counter) == counter_after_next(c.sample_every, *old(counter))
            },
        },
{
    match active(cfg, MetricMode::DurationNs) {
        None => None,
        Some(c) => Some(should_sample(c.sample_every, counter)),
    }
}

/// What is kept of a call that began: time and stack where both were taken, else `(0, -1)`.
pub open spec fn kept_sample(taken: Option<(u64, Option<i64>)>) -> (u64, i32) {
    match taken {
        Some((now, Some(id))) => (now, id as i32),
        _ => (0, -1i32),
    }
}

/// The calls of a thread; nothing where it has none.
pub open spec fn calls_of(inflight: Option<LatencyStack>) -> Option<Inflight> {
    match inflight {
        None => None,
        Some(stack) => Some(stack@),
    }
}

/// The calls of a thread with one that begins.
pub open spec fn begun(calls: Option<Inflight>, taken: Option<(u64, Option<i64>)>) -> Inflight {
    (match calls {
        None => Inflight::empty(),
        Some(calls) => calls,
    }).pushed(kept_sample(taken).0, kept_sample(taken).1)
}

/// Entry of a timed function: the calls of the thread with this one. `taken` holds the
/// clock and, where it could be taken, the stack; it is there if the event is sampled.
pub fn latency_entry(
    inflight: Option<LatencyStack>,
    taken: Option<(u64, Option<i64>)>,
) -> (stack: LatencyStack)
    ensures
        stack@ == begun(calls_of(inflight), taken),
{
    let mut timestamp: u64 = 0;
    let mut stack_id: i32 = -1;
    if let Some((now, id)) = taken {
        timestamp = now;
        match id {
            Some(id) => {
                stack_id = #[verifier::truncate] (id as i32);
            },
            None => {
                timestamp = 0;
                stack_id = -1;
            },
        }
    }
    let mut stack = match inflight {
        None => LatencyStack::new(),
        Some(stack) => stack,
    };
    push_latency_sample(&mut stack, timestamp, stack_id);
    stack
}

/// An event, and the histogram that gets it.
pub struct Event {
    pub key: HistogramKey,
    pub value: u64,
}

/// What the return of a timed function leads to.
pub struct LatencyReturn {
    /// The calls of the thread that are left; none where its entry is to be removed.
    pub inflight: Option<LatencyStack>,
    /// The event to record, if any.
    pub event: Option<Event>,
}

/// The time a call took, where its begin was kept.
pub open spec fn measured(sample: (u64, i32), now: u64) -> Option<u64> {
    if sample.0 != 0 && sample.1 >= 0 {
        Some(crate::common::sat_sub(now, sample.0))
    } else {
        None
    }
}

/// Whether a time is recorded: it is not zero and lies within the configured bounds.
pub open spec fn recorded(cfg: Config, value: u64) -> bool {
    value != 0 && cfg.min_value <= value <= cfg.max_value
}

/// The calls of a thread once one has returned; nothing where none is left.
pub open spec fn left(calls: Option<Inflight>) -> Option<Inflight> {
    match calls {
        None => None,
        Some(calls) => if calls.popped().depth == 0 && calls.popped().overflow == 0 {
            None
        } else {
            Some(calls.popped())
        },
    }
}

/// The event of a call that returns: the packed word of process and stack, and the time that
/// the call took. There is none where the time is not known or not recorded.
pub open spec fn event_at(
    cfg: Config,
    pid_tgid: u64,
    now: u64,
    calls: Option<Inflight>,
) -> Option<(u64, u64)> {
    match calls {
        None => None,
        Some(calls) => match measured(calls.top(), now) {
            Some(value) if recorded(cfg, value) => Some(
                (
                    crate::common::packed(process_of(pid_tgid), calls.top().1 as u32) as u64,
                    value,
                ),
            ),
            _ => None,
        },
    }
}

/// Return of a timed function of thread `pid_tgid` at time `now`.
pub fn latency_return(
    cfg: Config,
    pid_tgid: u64,
    now: u64,
    inflight: Option<LatencyStack>,
) -> (result: LatencyReturn)
    ensures
        calls_of(result.inflight) == left(calls_of(inflight)),
        match event_at(cfg, pid_tgid, now, calls_of(inflight)) {
            None => result.event is None,
            Some((word, value)) => {
                &&& result.event is Some
                &&& result.event->0.key.word() == word
                &&& result.event->0.value == value
            },
        },
{
    let mut value: u64 = 0;
    let mut stored_stack_id: i32 = -1;
    let mut left: Option<LatencyStack> = None;
    if let Some(stack) = inflight {
        let mut stack = stack;
        let (start, stack_id) = pop_latency_sample(&mut stack);
        if start != 0 && stack_id >= 0 {
            value = now.saturating_sub(start);
            stored_stack_id = stack_id;
        }
        if stack.depth != 0 || stack.overflow != 0 {
            left = Some(stack);
        }
    }
    if value == 0 {
        return LatencyReturn { inflight: left, event: None };
    }
    if value < cfg.min_value || value > cfg.max_value {
        return LatencyReturn { inflight: left, event: None };
    }
    if stored_stack_id < 0 {
        return LatencyReturn { inflight: left, event: None };
    }
    let key = HistogramKey::new(process(pid_tgid), stored_stack_id as u32);
    LatencyReturn { inflight: left, event: Some(Event { key, value }) }
}

/// The histogram of a key with one event more; the key may be new.
pub fn update_hist(hist: Option<Histogram>, value: u64) -> (updated: Histogram)
    ensures
        updated@ == (match hist {
            None => crate::common::Counts::empty(),
            Some(hist) => hist@,
        }).incremented(value),
{
    match hist {
        None => {
            let mut histogram = Histogram::new();
            histogram.increment(value);
            histogram
        },
        Some(hist) => {
            let mut histogram = hist;
            histogram.increment(value);
            histogram
        },
    }
}

/// The counter after `n` events, from zero.
pub open spec fn counter_after(n: nat, sample_every: u32) -> Option<u64>
    decreases n,
{
    if n == 0 {
        Some(0)
    } else {
        counter_after_next(sample_every, counter_after((n - 1) as nat, sample_every))
    }
}

/// With an interval of `sample_every` every `sample_every`th event is sampled, counted
/// from zero, and no other.
pub proof fn law_samples_every_nth(n: nat, sample_every: u32)
    requires
        1 <= n <= u64::MAX,
        sample_every >= 1,
    ensures
        samples_next(sample_every, counter_after((n - 1) as nat, sample_every)) <==> n % (
        sample_every as nat) == 0,
    decreases n,
{
    lemma_counter_counts((n - 1) as nat, sample_every);
}

proof fn lemma_counter_counts(n: nat, sample_every: u32)
    requires
        n < u64::MAX,
        sample_every >= 1,
    ensures
        counts_events(sample_every) ==> counter_after(n, sample_every) == Some(n as u64),
    decreases n,
{
    if n > 0 {
        lemma_counter_counts((n - 1) as nat, sample_every);
    }
}

/// A new thread has no call, and calls that begin and return keep the stack well formed.
pub proof fn law_inflight_stays_wf(inflight: Inflight, ts: u64, stack_id: i32)
    requires
        inflight.wf(),
    ensures
        Inflight::empty().wf(),
        inflight.pushed(ts, stack_id).wf(),
        inflight.popped().wf(),
{
}

/// A call that returns gets the sample that was kept when it began, and leaves the calls
/// around it as they were.
pub proof fn law_pop_undoes_push(inflight: Inflight, ts: u64, stack_id: i32)
    requires
        inflight.wf(),
        inflight.depth < MAX_LATENCY_STACK_DEPTH,
    ensures
        inflight.pushed(ts, stack_id).top() == (ts, stack_id),
        inflight.pushed(ts, stack_id).popped() == inflight,
{
    assert(inflight.pushed(ts, stack_id).popped() =~= inflight);
}

/// A call beyond the fixed depth returns without a sample, and leaves the calls around it
/// as they were.
pub proof fn law_pop_undoes_overflow(inflight: Inflight, ts: u64, stack_id: i32)
    requires
        inflight.wf(),
        inflight.depth == MAX_LATENCY_STACK_DEPTH,
        inflight.overflow < u32::MAX,
    ensures
        inflight.pushed(ts, stack_id).top() == (0u64, -1i32),
        inflight.pushed(ts, stack_id).popped() == inflight,
{
    assert(inflight.pushed(ts, stack_id).popped() =~= inflight);
}

/// Calls of a thread, one after the other, each with the calls that it makes.
pub enum Calls {
    Nothing,
    Call {
        /// Clock and stack, where they were taken when the call began.
        taken: Option<(u64, Option<i64>)>,
        /// The calls that it makes.
        inside: Box<Calls>,
        /// The calls that begin once it has returned.
        after: Box<Calls>,
    },
}

impl Calls {
    /// How deep the calls are nested.
    pub open spec fn depth(self) -> nat
        decreases self,
    {
        match self {
            Calls::Nothing => 0,
            Calls::Call { taken, inside, after } => if inside.depth() + 1 > after.depth() {
                inside.depth() + 1
            } else {
                after.depth()
            },
        }
    }

    /// The calls that a thread has under way once these have begun and returned.
    pub open spec fn made(self, calls: Option<Inflight>) -> Option<Inflight>
        decreases self,
    {
        match self {
            Calls::Nothing => calls,
            Calls::Call { taken, inside, after } => after.made(
                left(inside.made(Some(begun(calls, taken)))),
            ),
        }
    }
}

/// Whether the calls of a thread are well formed; a thread without calls has nothing.
pub open spec fn calls_wf(calls: Option<Inflight>) -> bool {
    match calls {
        None => true,
        Some(calls) => calls.wf() && calls.depth > 0,
    }
}

/// How many calls a thread has under way.
pub open spec fn open_calls(calls: Option<Inflight>) -> nat {
    match calls {
        None => 0,
        Some(calls) => (calls.depth + calls.overflow) as nat,
    }
}

proof fn lemma_left_undoes_begun(calls: Option<Inflight>, taken: Option<(u64, Option<i64>)>)
    requires
        calls_wf(calls),
        open_calls(calls) < MAX_LATENCY_STACK_DEPTH + u32::MAX,
    ensures
        calls_wf(Some(begun(calls, taken))),
        open_calls(Some(begun(calls, taken))) == open_calls(calls) + 1,
        left(Some(begun(calls, taken))) == calls,
        open_calls(calls) < MAX_LATENCY_STACK_DEPTH ==> begun(calls, taken).top() == kept_sample(
            taken,
        ),
{
    let (ts, stack_id) = kept_sample(taken);
    let inflight = match calls {
        None => Inflight::empty(),
        Some(calls) => calls,
    };
    if inflight.depth < MAX_LATENCY_STACK_DEPTH {
        law_pop_undoes_push(inflight, ts, stack_id);
    } else {
        law_pop_undoes_overflow(inflight, ts, stack_id);
    }
}

/// Calls that begin and return, properly nested, leave the calls around them as they were;
/// also where they are nested deeper than samples are kept for.
pub proof fn law_nested_calls_leave_nothing(calls: Option<Inflight>, nested: Calls)
    requires
        calls_wf(calls),
        open_calls(calls) + nested.depth() <= MAX_LATENCY_STACK_DEPTH + u32::MAX,
    ensures
        nested.made(calls) == calls,
    decreases nested,
{
    match nested {
        Calls::Nothing => {},
        Calls::Call { taken, inside, after } => {
            lemma_left_undoes_begun(calls, taken);
            law_nested_calls_leave_nothing(Some(begun(calls, taken)), *inside);
            law_nested_calls_leave_nothing(calls, *after);
        },
    }
}

/// A sampled call is measured from its begin to its return under the stack it began with, and
/// leaves the calls around it as they were; whatever calls it makes in between.
pub proof fn law_call_is_measured(
    cfg: Config,
    pid_tgid: u64,
    calls: Option<Inflight>,
    begin: u64,
    stack_id: i64,
    nested: Calls,
    end: u64,
)
    requires
        calls_wf(calls),
        open_calls(calls) < MAX_LATENCY_STACK_DEPTH,
        0 < begin < end,
        0 <= stack_id <= i32::MAX,
        open_calls(calls) + 1 + nested.depth() <= MAX_LATENCY_STACK_DEPTH + u32::MAX,
        cfg.min_value <= end - begin <= cfg.max_value,
    ensures
        ({
            let before_return = nested.made(Some(begun(calls, Some((begin, Some(stack_id))))));
            &&& event_at(cfg, pid_tgid, end, before_return) == Some(
                (
                    crate::common::packed(process_of(pid_tgid), stack_id as u32) as u64,
                    (end - begin) as u64,
                ),
            )
            &&& left(before_return) == calls
        }),
{
    let taken = Some((begin, Some(stack_id)));
    lemma_left_undoes_begun(calls, taken);
    law_nested_calls_leave_nothing(Some(begun(calls, taken)), nested);
}

/// A call that was not sampled, or whose stack could not be taken, gives no event, whatever
/// calls it makes.
pub proof fn law_unsampled_call_is_not_measured(
    cfg: Config,
    pid_tgid: u64,
    calls: Option<Inflight>,
    taken: Option<(u64, Option<i64>)>,
    nested: Calls,
    end: u64,
)
    requires
        calls_wf(calls),
        taken matches Some((now, stack_id)) ==> stack_id is None,
        open_calls(calls) + 1 + nested.depth() <= MAX_LATENCY_STACK_DEPTH + u32::MAX,
    ensures
        event_at(cfg, pid_tgid, end, nested.made(Some(begun(calls, taken)))) is None,
        left(nested.made(Some(begun(calls, taken)))) == calls,
{
    lemma_left_undoes_begun(calls, taken);
    law_nested_calls_leave_nothing(Some(begun(calls, taken)), nested);
}

/// A call whose time and stack were taken gives an event if and only if there was room to keep
/// them, it ended after it began, and the time that it took lies within the limits; whatever
/// the limits are, and whatever calls it makes in between. The event holds that time, under
/// the process of the thread and the stack that the call began with.
pub proof fn law_only_calls_within_limits_give_events(
    cfg: Config,
    pid_tgid: u64,
    calls: Option<Inflight>,
    begin: u64,
    stack_id: i64,
    nested: Calls,
    end: u64,
)
    requires
        calls_wf(calls),
        open_calls(calls) + 1 + nested.depth() <= MAX_LATENCY_STACK_DEPTH + u32::MAX,
    ensures
        ({
            let before_return = nested.made(Some(begun(calls, Some((begin, Some(stack_id))))));
            let event = event_at(cfg, pid_tgid, end, before_return);
            &&& event is Some <==> {
                &&& open_calls(calls) < 8
                &&& begin != 0
                &&& stack_id as i32 >= 0
                &&& begin < end
                &&& end - begin >= cfg.min_value
                &&& end - begin <= cfg.max_value
            }
            &&& event matches Some((word, value)) ==> {
                &&& value == end - begin
                &&& word / 0x1_0000_0000 == pid_tgid / 0x1_0000_0000
                &&& word % 0x1_0000_0000 == stack_id as i32
            }
            &&& left(before_return) == calls
        }),
{
    let taken = Some((begin, Some(stack_id)));
    lemma_left_undoes_begun(calls, taken);
    law_nested_calls_leave_nothing(Some(begun(calls, taken)), nested);
    crate::common::law_unpack_packed(process_of(pid_tgid), stack_id as i32 as u32);
}

/// Whatever calls a thread has under way, an event is of the innermost one: its time lies
/// within the limits and ran from the begin that was kept of that call, and its stack is the
/// one that was kept with it.
pub proof fn law_event_is_of_innermost_call(
    cfg: Config,
    pid_tgid: u64,
    now: u64,
    calls: Option<Inflight>,
)
    ensures
        event_at(cfg, pid_tgid, now, calls) is Some <==> {
            &&& calls is Some
            &&& calls->0.overflow == 0
            &&& 1 <= calls->0.depth <= 8
            &&& 0 < calls->0.ts[calls->0.depth - 1] < now
            &&& calls->0.stack_ids[calls->0.depth - 1] >= 0
            &&& cfg.min_value <= now - calls->0.ts[calls->0.depth - 1] <= cfg.max_value
        },
        event_at(cfg, pid_tgid, now, calls) matches Some((word, value)) ==> {
            &&& value == now - calls->0.ts[calls->0.depth - 1]
            &&& word / 0x1_0000_0000 == pid_tgid / 0x1_0000_0000
            &&& word % 0x1_0000_0000 == calls->0.stack_ids[calls->0.depth - 1]
        },
{
    if calls is Some {
        crate::common::law_unpack_packed(process_of(pid_tgid), calls->0.top().1 as u32);
    }
}

/// Wider limits lose no event: what is recorded within some limits is recorded the same within
/// limits around them.
pub proof fn law_wider_limits_keep_events(
    narrow: Config,
    wide: Config,
    pid_tgid: u64,
    now: u64,
    calls: Option<Inflight>,
)
    requires
        wide.min_value <= narrow.min_value,
        narrow.max_value <= wide.max_value,
    ensures
        event_at(narrow, pid_tgid, now, calls) is Some ==> event_at(wide, pid_tgid, now, calls)
            == event_at(narrow, pid_tgid, now, calls),
{
}

/// With an interval of zero or one, or without a counter, every event is sampled and nothing
/// is counted. With any other interval every event is counted, and sampled where the count is a
/// multiple of the interval.
pub proof fn law_sampling_counts_events(sample_every: u32, counter: u64)
    ensures
        samples_next(sample_every, None),
        counter_after_next(sample_every, None) == None::<u64>,
        sample_every <= 1 ==> samples_next(sample_every, Some(counter)) && counter_after_next(
            sample_every,
            Some(counter),
        ) == Some(counter),
        sample_every > 1 ==> counter_after_next(sample_every, Some(counter)) == Some(
            if counter == u64::MAX {
                0
            } else {
                (counter + 1) as u64
            },
        ),
        sample_every > 1 ==> (samples_next(sample_every, Some(counter)) <==> exists|k: nat|
            counter_after_next(sample_every, Some(counter)) == Some(
                #[trigger] (k * sample_every) as u64,
            ) && k * sample_every <= u64::MAX),
{
    if sample_every > 1 {
        let next = next_count(counter);
        let every = sample_every as u64;
        if samples_next(sample_every, Some(counter)) {
            let k = (next / every) as nat;
            assert(next == every * (next / every) + next % every) by (nonlinear_arith)
                requires
                    every > 0,
            ;
            assert(k * sample_every == next) by (nonlinear_arith)
                requires
                    k == next / every,
                    every == sample_every,
                    next == every * (next / every),
            ;
            assert(counter_after_next(sample_every, Some(counter)) == Some(
                (k * sample_every) as u64,
            ));
        }
        if exists|k: nat|
            counter_after_next(sample_every, Some(counter)) == Some(
                #[trigger] (k * sample_every) as u64,
            ) && k * sample_every <= u64::MAX {
            let k = choose|k: nat|
                counter_after_next(sample_every, Some(counter)) == Some(
                    #[trigger] (k * sample_every) as u64,
                ) && k * sample_every <= u64::MAX;
            assert(next == k * sample_every);
            assert(next % every == 0) by (nonlinear_arith)
                requires
                    next == k * sample_every,
                    every == sample_every,
                    every > 0,
            ;
        }
    }
}

/// A probe works under a configuration that is there and is for what it measures, and under no
/// other; it takes the configuration as it is.
pub proof fn law_probe_needs_its_configuration(cfg: Option<Config>, mode: MetricMode)
    ensures
        active_config(cfg, mode) is Some <==> cfg is Some && (match mode {
            MetricMode::Count => cfg->0.mode == 0,
            MetricMode::DurationNs => cfg->0.mode == 1,
        }),
        active_config(cfg, mode) is Some ==> active_config(cfg, mode) == cfg,
{
}

/// The process is the upper half of what the kernel gives: what is left is less than that
/// half's unit.
pub proof fn law_process_is_upper_half(pid_tgid: u64)
    ensures
        0 <= pid_tgid - process_of(pid_tgid) * 0x1_0000_0000 < 0x1_0000_0000,
{
}

/// A call without room for its sample gives no event, but is counted: the calls around it are
/// measured as if it had not been.
pub proof fn law_calls_beyond_the_depth_do_not_disturb(
    calls: Inflight,
    taken: Option<(u64, Option<i64>)>,
    cfg: Config,
    pid_tgid: u64,
    now: u64,
)
    requires
        calls.wf(),
        calls.depth == 8,
        calls.overflow < u32::MAX,
    ensures
        event_at(cfg, pid_tgid, now, Some(begun(Some(calls), taken))) is None,
        left(Some(begun(Some(calls), taken))) == Some(calls),
        open_calls(Some(begun(Some(calls), taken))) == open_calls(Some(calls)) + 1,
{
    lemma_left_undoes_begun(Some(calls), taken);
}

/// A return without a call under way gives nothing.
pub proof fn law_return_without_call(cfg: Config, pid_tgid: u64, now: u64)
    ensures
        event_at(cfg, pid_tgid, now, None) is None,
        left(None) is None,
{
}

/// The calls of a thread are those that are kept for it.
pub proof fn law_calls_are_those_kept(stack: LatencyStack)
    ensures
        calls_of(None) == None::<Inflight>,
        calls_of(Some(stack)) is Some,
        calls_of(Some(stack))->0.depth == stack.depth,
        calls_of(Some(stack))->0.overflow == stack.overflow,
        calls_of(Some(stack))->0.ts == stack.ts@,
        calls_of(Some(stack))->0.stack_ids == stack.stack_ids@,
{
}

/// Calls beyond the depth are counted up to the largest number, and no further.
pub proof fn law_calls_beyond_the_depth_are_counted(
    calls: Inflight,
    taken: Option<(u64, Option<i64>)>,
)
    requires
        calls.depth >= 8,
    ensures
        begun(Some(calls), taken).depth == calls.depth,
        begun(Some(calls), taken).ts == calls.ts,
        begun(Some(calls), taken).stack_ids == calls.stack_ids,
        calls.overflow < u32::MAX ==> begun(Some(calls), taken).overflow == calls.overflow + 1,
        calls.overflow == u32::MAX ==> begun(Some(calls), taken).overflow == u32::MAX,
{
}

} // verus!
