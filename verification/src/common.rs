//! Data shared by the kernel-side probes and the user-side collector.

use vstd::arithmetic::logarithm;
use vstd::arithmetic::power2;
use vstd::prelude::*;

verus! {

/// Slot of the per-CPU configuration arrays that holds the configuration.
pub const CONFIG_SLOT: u32 = 0;

/// Slot of the per-CPU counter arrays that holds the event counter.
pub const COUNTER_SLOT: u32 = 0;

/// Number of buckets of a histogram.
pub const HISTOGRAM_BUCKETS: usize = 40;

/// What a probe measures.
#[derive(Clone, Copy, Debug, PartialEq, Eq, Structural)]
pub enum MetricMode {
    Count,
    DurationNs,
}

impl MetricMode {
    /// The number that stands for the mode in a `Config`.
    pub open spec fn spec_code(self) -> u32 {
        match self {
            MetricMode::Count => 0,
            MetricMode::DurationNs => 1,
        }
    }

    /// The number that stands for the mode in a `Config`.
    pub fn code(self) -> (code: u32)
        ensures
            code == self.spec_code(),
    {
        match self {
            MetricMode::Count => 0,
            MetricMode::DurationNs => 1,
        }
    }
}

/// What the user side tells a probe.
#[derive(Clone, Copy, Debug)]
pub struct Config {
    pub mode: u32,
    pub min_value: u64,
    pub max_value: u64,
    pub sample_every: u32,
    pub _pad: u32,
}

/// Process and stack packed into one word: the process in the upper half.
#[derive(Clone, Copy, Debug, Hash, PartialEq, Eq, Structural)]
pub struct HistogramKey {
    pid_stack: u64,
}

/// The two halves of a `HistogramKey`.
#[derive(Clone, Copy, Debug, Hash, PartialEq, Eq, Structural)]
pub struct UnpackedHistogramKey {
    pub pid: u32,
    pub stack_id: u32,
}

/// The key under which the events of all CPUs are added up.
#[derive(Clone, Copy, Debug, Hash, PartialEq, Eq, Structural)]
pub struct ReducedEventKey {
    pub pid: u32,
    pub stack_id: u32,
}

/// `pid` and `stack_id` packed into one word.
pub open spec fn packed(pid: u32, stack_id: u32) -> int {
    pid * 0x1_0000_0000 + stack_id
}

impl HistogramKey {
    /// The packed word.
    pub closed spec fn word(self) -> u64 {
        self.pid_stack
    }

    pub fn new(pid: u32, stack_id: u32) -> (key: Self)
        ensures
            key.word() == packed(pid, stack_id),
    {
        assert(((pid as u64) << 32) | (stack_id as u64) == pid * 0x1_0000_0000 + stack_id)
            by (bit_vector);
        Self { pid_stack: ((pid as u64) << 32) | (stack_id as u64) }
    }

    /// The packed word.
    pub fn to_word(&self) -> (word: u64)
        ensures
            word == self.word(),
    {
        self.pid_stack
    }

    /// The key of a packed word.
    pub fn from_word(word: u64) -> (key: Self)
        ensures
            key.word() == word,
    {
        Self { pid_stack: word }
    }

    pub fn into_parts(&self) -> (parts: UnpackedHistogramKey)
        ensures
            parts.pid == self.word() / 0x1_0000_0000,
            parts.stack_id == self.word() % 0x1_0000_0000,
    {
        let word: u64 = self.pid_stack;
        assert((word >> 32) as u32 == word / 0x1_0000_0000) by (bit_vector);
        assert(word as u32 == word % 0x1_0000_0000) by (bit_vector);
        let pid: u32 = (self.pid_stack >> 32) as u32;
        let stack_id: u32 = self.pid_stack as u32;
        UnpackedHistogramKey { pid, stack_id }
    }
}

impl UnpackedHistogramKey {
    pub fn as_reduced(&self) -> (key: ReducedEventKey)
        ensures
            key.pid == self.pid,
            key.stack_id == self.stack_id,
    {
        ReducedEventKey { pid: self.pid, stack_id: self.stack_id }
    }
}

/// Counts of events by the power of two below their value, and the sum of the values.
#[derive(Clone, Copy, Debug)]
pub struct Histogram {
    pub data: [u64; HISTOGRAM_BUCKETS],
    pub total: u64,
}

/// `a + b`, held at the largest `u64`.
pub open spec fn sat_add(a: u64, b: u64) -> u64 {
    if a + b > u64::MAX {
        u64::MAX
    } else {
        (a + b) as u64
    }
}

/// `a - b`, held at zero.
pub open spec fn sat_sub(a: u64, b: u64) -> u64 {
    if a < b {
        0
    } else {
        (a - b) as u64
    }
}

/// The sum of a sequence of counts.
pub open spec fn sum(counts: Seq<u64>) -> nat
    decreases counts.len(),
{
    if counts.len() == 0 {
        0
    } else {
        sum(counts.drop_last()) + counts.last() as nat
    }
}

/// The bucket of a value: its base 2 logarithm rounded down, or the last bucket
/// where there is none so high.
pub open spec fn bucket_of(value: u64) -> int {
    if logarithm::log(2, value as int) >= HISTOGRAM_BUCKETS {
        HISTOGRAM_BUCKETS - 1
    } else {
        logarithm::log(2, value as int)
    }
}

/// A histogram as mathematics: the counts and the sum.
#[verifier::ext_equal]
pub struct Counts {
    pub buckets: Seq<u64>,
    pub total: u64,
}

impl Counts {
    /// No event.
    pub open spec fn empty() -> Counts {
        Counts { buckets: Seq::new(HISTOGRAM_BUCKETS as nat, |i: int| 0u64), total: 0 }
    }

    /// One event more. A value of zero has no bucket and leaves everything as it is.
    pub open spec fn incremented(self, value: u64) -> Counts {
        if value == 0 {
            self
        } else {
            Counts {
                buckets: self.buckets.update(
                    bucket_of(value),
                    sat_add(self.buckets[bucket_of(value)], 1),
                ),
                total: sat_add(self.total, value),
            }
        }
    }

    /// The events of both.
    pub open spec fn merged(self, other: Counts) -> Counts {
        Counts {
            buckets: Seq::new(
                self.buckets.len(),
                |i: int| sat_add(self.buckets[i], other.buckets[i]),
            ),
            total: sat_add(self.total, other.total),
        }
    }

    /// The events that came after `previous`.
    pub open spec fn since(self, previous: Counts) -> Counts {
        Counts {
            buckets: Seq::new(
                self.buckets.len(),
                |i: int| sat_sub(self.buckets[i], previous.buckets[i]),
            ),
            total: sat_sub(self.total, previous.total),
        }
    }

    /// Number of events.
    pub open spec fn count(self) -> nat {
        sum(self.buckets)
    }
}

impl View for Histogram {
    type V = Counts;

    open spec fn view(&self) -> Counts {
        Counts { buckets: self.data@, total: self.total }
    }
}

/// A prefix adds up to no more than the whole.
pub proof fn lemma_sum_prefix(counts: Seq<u64>, n: int)
    requires
        0 <= n <= counts.len(),
    ensures
        sum(counts.take(n)) <= sum(counts),
    decreases counts.len() - n,
{
    if n == counts.len() {
        assert(counts.take(n) =~= counts);
    } else {
        lemma_sum_prefix(counts, n + 1);
        assert(counts.take(n + 1).drop_last() =~= counts.take(n));
    }
}

/// Replacing one count changes the sum by the difference.
pub proof fn lemma_sum_update(counts: Seq<u64>, i: int, value: u64)
    requires
        0 <= i < counts.len(),
    ensures
        sum(counts.update(i, value)) == sum(counts) - counts[i] + value,
    decreases counts.len(),
{
    let updated = counts.update(i, value);
    if i == counts.len() - 1 {
        assert(updated.drop_last() =~= counts.drop_last());
    } else {
        lemma_sum_update(counts.drop_last(), i, value);
        assert(updated.drop_last() =~= counts.drop_last().update(i, value));
    }
}

/// Counts that add up bucket by bucket add up as a whole.
pub proof fn lemma_sum_pointwise(a: Seq<u64>, b: Seq<u64>, c: Seq<u64>)
    requires
        a.len() == b.len(),
        a.len() == c.len(),
        forall|i: int| 0 <= i < a.len() ==> #[trigger] c[i] == a[i] + b[i],
    ensures
        sum(c) == sum(a) + sum(b),
    decreases a.len(),
{
    if a.len() > 0 {
        lemma_sum_pointwise(a.drop_last(), b.drop_last(), c.drop_last());
    }
}

/// Counts that are smaller bucket by bucket are smaller as a whole.
pub proof fn lemma_sum_monotone(a: Seq<u64>, b: Seq<u64>)
    requires
        a.len() == b.len(),
        forall|i: int| 0 <= i < a.len() ==> #[trigger] a[i] <= b[i],
    ensures
        sum(a) <= sum(b),
    decreases a.len(),
{
    if a.len() > 0 {
        lemma_sum_monotone(a.drop_last(), b.drop_last());
    }
}

/// The base 2 logarithm rounded down brackets its argument by powers of two.
pub proof fn lemma_log_brackets(x: int)
    requires
        x > 0,
    ensures
        logarithm::log(2, x) >= 0,
        power2::pow2(logarithm::log(2, x) as nat) <= x < power2::pow2((logarithm::log(2, x) + 1) as nat),
    decreases x,
{
    logarithm::lemma_log_nonnegative(2, x);
    if x < 2 {
        logarithm::lemma_log0(2, x);
        power2::lemma2_to64();
    } else {
        logarithm::lemma_log_s(2, x);
        lemma_log_brackets(x / 2);
        power2::lemma_pow2_unfold(logarithm::log(2, x) as nat);
        power2::lemma_pow2_unfold((logarithm::log(2, x) + 1) as nat);
    }
}

/// `u64::ilog2` gives the base 2 logarithm rounded down; zero has none.
pub assume_specification[ u64::ilog2 ](x: u64) -> (r: u32)
    requires
        x > 0,
    ensures
        r == logarithm::log(2, x as int),
;

impl Histogram {
    pub fn new() -> (hist: Self)
        ensures
            hist@ == Counts::empty(),
    {
        let hist = Self { data: [0;HISTOGRAM_BUCKETS], total: 0 };
        assert(hist@.buckets =~= Counts::empty().buckets);
        hist
    }

    pub fn increment(&mut self, value: u64)
        ensures
            final(self)@ == old(self)@.incremented(value),
    {
        if value == 0 {
            return ;
        }
        let mut bucket: usize = value.ilog2() as usize;
        if bucket >= self.data.len() {
            bucket = self.data.len() - 1;
        }
        self.data[bucket] = self.data[bucket].saturating_add(1);
        self.total = self.total.saturating_add(value);
    }

    pub fn merge(&mut self, other: &Histogram)
        ensures
            final(self)@ == old(self)@.merged(other@),
    {
        self.total = self.total.saturating_add(other.total);
        let mut i: usize = 0;
        while i < HISTOGRAM_BUCKETS
            invariant
                i <= HISTOGRAM_BUCKETS,
                self.total == sat_add(old(self).total, other.total),
                forall|j: int| 0 <= j < i ==> self.data[j] == sat_add(old(self).data[j], other.data[j]),
                forall|j: int| i <= j < HISTOGRAM_BUCKETS ==> self.data[j] == old(self).data[j],
            decreases HISTOGRAM_BUCKETS - i,
        {
            self.data[i] = self.data[i].saturating_add(other.data[i]);
            i += 1;
        }
    }

    /// Number of events.
    pub fn total_count(&self) -> (count: u64)
        requires
            self@.count() <= u64::MAX,
        ensures
            count == self@.count(),
    {
        let mut count: u64 = 0;
        let mut i: usize = 0;
        while i < HISTOGRAM_BUCKETS
            invariant
                i <= HISTOGRAM_BUCKETS,
                count == sum(self.data@.take(i as int)),
                sum(self.data@) <= u64::MAX,
            decreases HISTOGRAM_BUCKETS - i,
        {
            proof {
                lemma_sum_prefix(self.data@, i + 1);
                assert(self.data@.take(i + 1).drop_last() =~= self.data@.take(i as int));
            }
            count = count + self.data[i];
            i += 1;
        }
        assert(self.data@.take(i as int) =~= self.data@);
        count
    }

    /// What is missing in the number of events to reach `goal`.
    pub fn count_missing(&self, goal: u64) -> (missing: u64)
        ensures
            missing == if self@.count() >= goal {
                0
            } else {
                goal - self@.count()
            },
    {
        let mut missing: u64 = goal;
        let mut i: usize = 0;
        while i < HISTOGRAM_BUCKETS
            invariant
                i <= HISTOGRAM_BUCKETS,
                missing == if sum(self.data@.take(i as int)) >= goal {
                    0
                } else {
                    goal - sum(self.data@.take(i as int))
                },
            decreases HISTOGRAM_BUCKETS - i,
        {
            assert(self.data@.take(i + 1).drop_last() =~= self.data@.take(i as int));
            missing = missing.saturating_sub(self.data[i]);
            i += 1;
        }
        assert(self.data@.take(i as int) =~= self.data@);
        missing
    }

    /// Whether there is an event.
    pub fn has_events(&self) -> (found: bool)
        ensures
            found == (self@.count() > 0),
    {
        self.count_missing(1) == 0
    }

    /// Number of events, where a `u64` can hold it.
    pub fn checked_total_count(&self) -> (count: Option<u64>)
        ensures
            count == if self@.count() <= u64::MAX {
                Some(self@.count() as u64)
            } else {
                None
            },
    {
        let mut count: u64 = 0;
        let mut i: usize = 0;
        while i < HISTOGRAM_BUCKETS
            invariant
                i <= HISTOGRAM_BUCKETS,
                count == sum(self.data@.take(i as int)),
            decreases HISTOGRAM_BUCKETS - i,
        {
            proof {
                lemma_sum_prefix(self.data@, i + 1);
                assert(self.data@.take(i + 1).drop_last() =~= self.data@.take(i as int));
            }
            match count.checked_add(self.data[i]) {
                Some(more) => {
                    count = more;
                },
                None => {
                    return None;
                },
            }
            i += 1;
        }
        assert(self.data@.take(i as int) =~= self.data@);
        Some(count)
    }
}

/// Packing process and stack loses nothing: unpacking what was packed gives both back.
pub proof fn law_unpack_packed(pid: u32, stack_id: u32)
    ensures
        0 <= packed(pid, stack_id) <= u64::MAX,
        packed(pid, stack_id) / 0x1_0000_0000 == pid,
        packed(pid, stack_id) % 0x1_0000_0000 == stack_id as int,
{
}

/// Packing what was unpacked gives the word back.
pub proof fn law_pack_unpacked(word: u64)
    ensures
        packed((word / 0x1_0000_0000) as u32, (word % 0x1_0000_0000) as u32) == word,
{
}

/// The word is all there is to a key.
pub proof fn law_word_is_key(a: HistogramKey, b: HistogramKey)
    ensures
        a.word() == b.word() <==> a == b,
{
}

/// A value lies between its bucket's power of two and the next one; the last bucket
/// has no upper end.
pub proof fn law_bucket_brackets_value(value: u64)
    requires
        value > 0,
    ensures
        0 <= bucket_of(value) < HISTOGRAM_BUCKETS,
        power2::pow2(bucket_of(value) as nat) <= value,
        bucket_of(value) < HISTOGRAM_BUCKETS - 1 ==> value < power2::pow2((bucket_of(value) + 1) as nat),
{
    lemma_log_brackets(value as int);
    if logarithm::log(2, value as int) >= HISTOGRAM_BUCKETS {
        power2::lemma_pow2_strictly_increases(
            (HISTOGRAM_BUCKETS - 1) as nat,
            logarithm::log(2, value as int) as nat,
        );
    }
}

impl Counts {
    /// A histogram has a fixed number of buckets.
    pub open spec fn wf(self) -> bool {
        self.buckets.len() == HISTOGRAM_BUCKETS
    }

    /// No count of `self` exceeds that of `later`.
    pub open spec fn le(self, later: Counts) -> bool {
        &&& self.total <= later.total
        &&& forall|i: int|
            0 <= i < HISTOGRAM_BUCKETS ==> #[trigger] self.buckets[i] <= later.buckets[i]
    }

    /// No count of the two together exceeds what a `u64` holds.
    pub open spec fn fits_with(self, other: Counts) -> bool {
        &&& self.total + other.total <= u64::MAX
        &&& forall|i: int|
            0 <= i < HISTOGRAM_BUCKETS ==> #[trigger] self.buckets[i] + other.buckets[i]
                <= u64::MAX
    }

    /// Merging does not depend on the order of the two.
    pub proof fn law_merge_commutes(self, other: Counts)
        requires
            self.wf(),
            other.wf(),
        ensures
            self.merged(other) == other.merged(self),
    {
        assert(self.merged(other) =~= other.merged(self));
    }

    /// Merging does not depend on how three are grouped.
    pub proof fn law_merge_associates(self, second: Counts, third: Counts)
        requires
            self.wf(),
            second.wf(),
            third.wf(),
        ensures
            self.merged(second).merged(third) == self.merged(second.merged(third)),
    {
        assert(self.merged(second).merged(third) =~= self.merged(second.merged(third)));
    }

    /// Merging with the empty histogram changes nothing.
    pub proof fn law_merge_empty(self)
        requires
            self.wf(),
        ensures
            self.merged(Counts::empty()) == self,
            Counts::empty().merged(self) == self,
    {
        assert(self.merged(Counts::empty()) =~= self);
        assert(Counts::empty().merged(self) =~= self);
    }

    /// Adding to an earlier histogram what came since gives the later one.
    pub proof fn law_merge_since(self, previous: Counts)
        requires
            self.wf(),
            previous.wf(),
            previous.le(self),
        ensures
            previous.merged(self.since(previous)) == self,
    {
        assert(previous.merged(self.since(previous)) =~= self);
    }

    /// Nothing came since a histogram that is the same.
    pub proof fn law_since_itself(self)
        requires
            self.wf(),
        ensures
            self.since(self) == Counts::empty(),
    {
        assert(self.since(self) =~= Counts::empty());
    }

    /// The events of a merged histogram are those of both, where no bucket is at its limit.
    pub proof fn law_merge_adds_counts(self, other: Counts)
        requires
            self.wf(),
            other.wf(),
            self.fits_with(other),
        ensures
            self.merged(other).count() == self.count() + other.count(),
            self.merged(other).total == self.total + other.total,
    {
        lemma_sum_pointwise(self.buckets, other.buckets, self.merged(other).buckets);
    }

    /// An event adds one to the number of events and its value to the sum, where neither
    /// is at its limit.
    pub proof fn law_increment_adds_one(self, value: u64)
        requires
            self.wf(),
            value > 0,
            self.buckets[bucket_of(value)] < u64::MAX,
            self.total + value <= u64::MAX,
        ensures
            self.incremented(value).wf(),
            self.incremented(value).count() == self.count() + 1,
            self.incremented(value).total == self.total + value,
    {
        law_bucket_brackets_value(value);
        lemma_sum_update(
            self.buckets,
            bucket_of(value),
            sat_add(self.buckets[bucket_of(value)], 1),
        );
    }

    /// What came since a histogram holds no more than the later one.
    pub proof fn law_since_holds_no_more(self, previous: Counts)
        requires
            self.wf(),
            previous.wf(),
        ensures
            self.since(previous).wf(),
            self.since(previous).count() <= self.count(),
    {
        lemma_sum_monotone(self.since(previous).buckets, self.buckets);
    }

    /// An event is recorded the same before a merge as after it.
    pub proof fn law_increment_then_merge(self, other: Counts, value: u64)
        requires
            self.wf(),
            other.wf(),
        ensures
            self.incremented(value).merged(other) == self.merged(other).incremented(value),
    {
        if value > 0 {
            law_bucket_brackets_value(value);
        }
        assert(self.incremented(value).merged(other) =~= self.merged(other).incremented(value));
    }
}

proof fn lemma_sum_is_fold(counts: Seq<u64>)
    ensures
        sum(counts) == counts.fold_left(0int, |sum: int, count: u64| sum + count),
    decreases counts.len(),
{
    if counts.len() > 0 {
        lemma_sum_is_fold(counts.drop_last());
    }
}

impl Counts {
    /// The number of events is the counts of all buckets added up.
    pub proof fn law_count_adds_all_buckets(self)
        ensures
            self.count() == self.buckets.fold_left(0int, |sum: int, count: u64| sum + count),
    {
        lemma_sum_is_fold(self.buckets);
    }

    /// There are no events if and only if every bucket is empty.
    pub proof fn law_no_events_iff_all_buckets_empty(self)
        ensures
            self.count() == 0 <==> forall|i: int|
                0 <= i < self.buckets.len() ==> #[trigger] self.buckets[i] == 0,
    {
        if self.count() == 0 {
            assert forall|i: int| 0 <= i < self.buckets.len() implies #[trigger] self.buckets[i]
                == 0 by {
                lemma_sum_update(self.buckets, i, 0);
            }
        } else {
            lemma_some_bucket(self.buckets);
        }
    }

    /// An event is counted in the bucket whose powers of two it lies between, the last one
    /// having no upper end, and in no other; its value is added to the total. Neither passes
    /// the largest number.
    pub proof fn law_event_goes_to_its_bucket(self, value: u64, i: int)
        requires
            self.wf(),
            value > 0,
            0 <= i < 40,
        ensures
            ({
                let after = self.incremented(value);
                let falls_in = power2::pow2(i as nat) <= value && (i == 39
                    || value < power2::pow2((i + 1) as nat));
                &&& falls_in && self.buckets[i] < u64::MAX ==> after.buckets[i] == self.buckets[i]
                    + 1
                &&& !falls_in || self.buckets[i] == u64::MAX ==> after.buckets[i]
                    == self.buckets[i]
                &&& self.total + value <= u64::MAX ==> after.total == self.total + value
                &&& self.total + value > u64::MAX ==> after.total == u64::MAX
                &&& after.wf()
            }),
    {
        law_bucket_brackets_value(value);
        let bucket = bucket_of(value);
        if i < bucket {
            if i + 1 < bucket {
                power2::lemma_pow2_strictly_increases((i + 1) as nat, bucket as nat);
            }
        } else if i > bucket {
            if bucket + 1 < i {
                power2::lemma_pow2_strictly_increases((bucket + 1) as nat, i as nat);
            }
        }
    }

    /// An event of value zero is not counted.
    pub proof fn law_zero_is_no_event(self)
        ensures
            self.incremented(0) == self,
    {
    }

    /// Merging adds bucket by bucket, and the totals; nothing passes the largest number.
    pub proof fn law_merge_adds_each_bucket(self, other: Counts, i: int)
        requires
            self.wf(),
            other.wf(),
            0 <= i < HISTOGRAM_BUCKETS,
        ensures
            ({
                let after = self.merged(other);
                &&& after.wf()
                &&& self.buckets[i] + other.buckets[i] <= u64::MAX ==> after.buckets[i]
                    == self.buckets[i] + other.buckets[i]
                &&& self.buckets[i] + other.buckets[i] > u64::MAX ==> after.buckets[i] == u64::MAX
                &&& self.total + other.total <= u64::MAX ==> after.total == self.total
                    + other.total
                &&& self.total + other.total > u64::MAX ==> after.total == u64::MAX
            }),
    {
    }

    /// What came since an earlier histogram is the difference bucket by bucket, and of the
    /// totals; nothing where the earlier one holds more.
    pub proof fn law_since_subtracts_each_bucket(self, previous: Counts, i: int)
        requires
            self.wf(),
            previous.wf(),
            0 <= i < HISTOGRAM_BUCKETS,
        ensures
            ({
                let fresh = self.since(previous);
                &&& fresh.wf()
                &&& self.buckets[i] >= previous.buckets[i] ==> fresh.buckets[i]
                    == self.buckets[i] - previous.buckets[i]
                &&& self.buckets[i] < previous.buckets[i] ==> fresh.buckets[i] == 0
                &&& self.total >= previous.total ==> fresh.total == self.total - previous.total
                &&& self.total < previous.total ==> fresh.total == 0
            }),
    {
    }

    /// The empty histogram has every bucket, and no event in any.
    pub proof fn law_empty_has_no_events(i: int)
        requires
            0 <= i < HISTOGRAM_BUCKETS,
        ensures
            Counts::empty().wf(),
            Counts::empty().buckets[i] == 0,
            Counts::empty().total == 0,
            Counts::empty().count() == 0,
    {
        Counts::empty().law_no_events_iff_all_buckets_empty();
    }
}

proof fn lemma_some_bucket(counts: Seq<u64>) -> (i: int)
    requires
        sum(counts) > 0,
    ensures
        0 <= i < counts.len(),
        counts[i] > 0,
    decreases counts.len(),
{
    if counts.last() > 0 {
        counts.len() - 1
    } else {
        lemma_some_bucket(counts.drop_last())
    }
}

} // verus!
