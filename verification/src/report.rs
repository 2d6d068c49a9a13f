//! Reports of what was collected.

use crate::common::{Counts, Histogram, HistogramKey, UnpackedHistogramKey};
use crate::fx;
use crate::model::OrderBy;
use crate::resolver::Frame;
use rustc_hash::FxHashMap;
use vstd::prelude::*;

pub mod csv;
pub mod flame;
pub mod pretty;

verus! {

/// Whether item `a` stands before item `b`: the heavier one does. Of equal weights it is the
/// later one, or the earlier one, as `latest_first` says.
pub open spec fn precedes(weights: Seq<u64>, latest_first: bool, a: int, b: int) -> bool {
    ||| weights[a] > weights[b]
    ||| weights[a] == weights[b] && (if latest_first {
        a > b
    } else {
        a < b
    })
}

/// Whether each of the listed items stands before all that follow it.
pub open spec fn in_order(weights: Seq<u64>, latest_first: bool, order: Seq<usize>) -> bool {
    forall|i: int, j: int|
        #![trigger order[i], order[j]]
        0 <= i < j < order.len() ==> precedes(
            weights,
            latest_first,
            order[i] as int,
            order[j] as int,
        )
}

/// Whether `item` is listed.
pub open spec fn lists(order: Seq<usize>, item: int) -> bool {
    exists|i: int| 0 <= i < order.len() && #[trigger] order[i] == item
}

/// Whether the items from `from` to before `to` are listed, and no other.
pub open spec fn lists_range(order: Seq<usize>, from: int, to: int) -> bool {
    &&& order.len() == to - from
    &&& forall|i: int| 0 <= i < order.len() ==> from <= #[trigger] order[i] < to
    &&& forall|item: int| from <= item < to ==> #[trigger] lists(order, item)
}

/// Whether `order` lists every item once, the heaviest first.
pub open spec fn is_ranking(weights: Seq<u64>, latest_first: bool, order: Seq<usize>) -> bool {
    &&& lists_range(order, 0, weights.len() as int)
    &&& in_order(weights, latest_first, order)
}

/// Weights and how ties are broken fix the ranking.
pub proof fn law_ranking_is_unique(
    weights: Seq<u64>,
    latest_first: bool,
    a: Seq<usize>,
    b: Seq<usize>,
)
    requires
        is_ranking(weights, latest_first, a),
        is_ranking(weights, latest_first, b),
    ensures
        a == b,
{
    lemma_rankings_agree(weights, latest_first, a, b, a.len() as int);
    assert(a =~= b);
}

proof fn lemma_rankings_agree(
    weights: Seq<u64>,
    latest_first: bool,
    a: Seq<usize>,
    b: Seq<usize>,
    n: int,
)
    requires
        is_ranking(weights, latest_first, a),
        is_ranking(weights, latest_first, b),
        0 <= n <= a.len(),
    ensures
        forall|i: int| 0 <= i < n ==> a[i] == b[i],
    decreases n,
{
    if n > 0 {
        let i = n - 1;
        lemma_rankings_agree(weights, latest_first, a, b, i);
        assert(lists(b, a[i] as int) && lists(a, b[i] as int));
        let j = choose|j: int| 0 <= j < b.len() && #[trigger] b[j] == a[i] as int;
        let k = choose|k: int| 0 <= k < a.len() && #[trigger] a[k] == b[i] as int;
        if j < i {
            assert(a[j] == b[j]);
        }
        if k < i {
            assert(a[k] == b[k]);
        }
        if j > i && k > i {
            assert(precedes(weights, latest_first, b[i] as int, b[j] as int));
            assert(precedes(weights, latest_first, a[i] as int, a[k] as int));
        }
    }
}

fn merged(
    weights: &Vec<u64>,
    latest_first: bool,
    left: Vec<usize>,
    right: Vec<usize>,
    from: usize,
    middle: usize,
    to: usize,
) -> (order: Vec<usize>)
    requires
        from <= middle <= to <= weights@.len(),
        lists_range(left@, from as int, middle as int),
        lists_range(right@, middle as int, to as int),
        in_order(weights@, latest_first, left@),
        in_order(weights@, latest_first, right@),
    ensures
        lists_range(order@, from as int, to as int),
        in_order(weights@, latest_first, order@),
{
    let mut order: Vec<usize> = Vec::new();
    let mut i: usize = 0;
    let mut j: usize = 0;
    while i < left.len() || j < right.len()
        invariant
            from <= middle <= to <= weights@.len(),
            lists_range(left@, from as int, middle as int),
            lists_range(right@, middle as int, to as int),
            in_order(weights@, latest_first, left@),
            in_order(weights@, latest_first, right@),
            i <= left@.len(),
            j <= right@.len(),
            order@.len() == i + j,
            in_order(weights@, latest_first, order@),
            forall|k: int| 0 <= k < order@.len() ==> from <= #[trigger] order@[k] < to,
            forall|k: int, l: int|
                #![trigger order@[k], left@[l]]
                0 <= k < order@.len() && i <= l < left@.len() ==> precedes(
                    weights@,
                    latest_first,
                    order@[k] as int,
                    left@[l] as int,
                ),
            forall|k: int, l: int|
                #![trigger order@[k], right@[l]]
                0 <= k < order@.len() && j <= l < right@.len() ==> precedes(
                    weights@,
                    latest_first,
                    order@[k] as int,
                    right@[l] as int,
                ),
            forall|l: int| 0 <= l < i ==> lists(order@, #[trigger] left@[l] as int),
            forall|l: int| 0 <= l < j ==> lists(order@, #[trigger] right@[l] as int),
        decreases left@.len() - i + right@.len() - j,
    {
        let take_left: bool = if i == left.len() {
            false
        } else if j == right.len() {
            true
        } else {
            let a: usize = left[i];
            let b: usize = right[j];
            weights[a] > weights[b] || (weights[a] == weights[b] && !latest_first)
        };
        let ghost before = order@;
        if take_left {
            order.push(left[i]);
            i += 1;
        } else {
            order.push(right[j]);
            j += 1;
        }
        let ghost last = order@.len() - 1;
        proof {
            assert(forall|k: int| 0 <= k < last ==> order@[k] == before[k]);
            assert forall|item: int| lists(before, item) implies #[trigger] lists(order@, item) by {
                let k = choose|k: int| 0 <= k < before.len() && #[trigger] before[k] == item;
                assert(order@[k] == item);
            }
            assert(lists(order@, order@[last] as int));
            assert forall|l: int| 0 <= l < i implies lists(order@, #[trigger] left@[l] as int) by {
                assert(l < i - 1 || !take_left ==> lists(before, left@[l] as int));
            }
            assert forall|l: int| 0 <= l < j implies lists(order@, #[trigger] right@[l] as int) by {
                assert(l < j - 1 || take_left ==> lists(before, right@[l] as int));
            }
        }
    }
    proof {
        assert forall|item: int| from <= item < to implies #[trigger] lists(order@, item) by {
            if item < middle {
                assert(lists(left@, item));
                let l = choose|l: int| 0 <= l < left@.len() && #[trigger] left@[l] == item;
                assert(lists(order@, left@[l] as int));
            } else {
                assert(lists(right@, item));
                let l = choose|l: int| 0 <= l < right@.len() && #[trigger] right@[l] == item;
                assert(lists(order@, right@[l] as int));
            }
        }
    }
    order
}

fn ranked_range(weights: &Vec<u64>, latest_first: bool, from: usize, to: usize) -> (order: Vec<
    usize,
>)
    requires
        from <= to <= weights@.len(),
    ensures
        lists_range(order@, from as int, to as int),
        in_order(weights@, latest_first, order@),
    decreases to - from,
{
    let mut order: Vec<usize> = Vec::new();
    if to - from == 0 {
        return order;
    }
    if to - from == 1 {
        order.push(from);
        assert(order@[0] == from);
        return order;
    }
    let middle: usize = from + (to - from) / 2;
    let left = ranked_range(weights, latest_first, from, middle);
    let right = ranked_range(weights, latest_first, middle, to);
    merged(weights, latest_first, left, right, from, middle, to)
}

/// The items by weight, the heaviest first.
pub fn ranked(weights: &Vec<u64>, latest_first: bool) -> (order: Vec<usize>)
    ensures
        is_ranking(weights@, latest_first, order@),
{
    ranked_range(weights, latest_first, 0, weights.len())
}

/// The events of one stack, under the packed word of process and stack.
#[derive(Clone, Copy, Debug)]
pub struct Entry<'a> {
    pub word: u64,
    pub hist: &'a Histogram,
}

/// Words and counts of some entries.
pub open spec fn entries_of(entries: Seq<Entry>) -> Seq<(u64, Counts)> {
    entries.map_values(|entry: Entry| (entry.word, entry.hist@))
}

/// Whether a stack is listed: each one is, or each one with events.
pub open spec fn is_listed(with_events: bool, counts: Counts) -> bool {
    with_events ==> counts.count() > 0
}

/// Whether `entries` holds what is under each word of `stats`, or under each word with events;
/// each word once.
pub open spec fn is_listing(
    stats: Map<u64, Histogram>,
    with_events: bool,
    entries: Seq<(u64, Counts)>,
) -> bool {
    &&& forall|i: int|
        0 <= i < entries.len() ==> stats.contains_key((#[trigger] entries[i]).0)
            && stats[entries[i].0]@ == entries[i].1 && is_listed(with_events, entries[i].1)
    &&& forall|i: int, j: int|
        0 <= i < j < entries.len() ==> (#[trigger] entries[i]).0 != (#[trigger] entries[j]).0
    &&& forall|word: u64| #[trigger]
        stats.contains_key(word) && is_listed(with_events, stats[word]@) ==> has_word(entries, word)
}

/// Whether one of the entries is for `word`.
pub open spec fn has_word(entries: Seq<(u64, Counts)>, word: u64) -> bool {
    exists|i: int| 0 <= i < entries.len() && (#[trigger] entries[i]).0 == word
}

/// What the table holds, in no particular order.
pub fn listing<'a>(stats: &'a FxHashMap<u64, Histogram>) -> (entries: Vec<Entry<'a>>)
    ensures
        is_listing(stats@, false, entries_of(entries@)),
{
    broadcast use vstd::std_specs::hash::group_hash_axioms;

    let found = fx::map_entries(stats);
    let mut entries: Vec<Entry<'a>> = Vec::new();
    let mut i: usize = 0;
    while i < found.len()
        invariant
            i <= found@.len(),
            entries@.len() == i,
            forall|j: int|
                0 <= j < i ==> (#[trigger] entries@[j]).word == *found@[j].0 && entries@[j].hist
                    == found@[j].1,
        decreases found@.len() - i,
    {
        let (word, hist) = found[i];
        entries.push(Entry { word: *word, hist });
        i += 1;
    }
    proof {
        let views = entries_of(entries@);
        assert forall|k: int| 0 <= k < views.len() implies stats@.contains_key(
            (#[trigger] views[k]).0,
        ) && stats@[views[k].0]@ == views[k].1 by {
            assert(entries@[k].word == *found@[k].0);
        }
        assert forall|k: int, l: int| 0 <= k < l < views.len() implies (#[trigger] views[k]).0 != (
        #[trigger] views[l]).0 by {
            assert(*found@[k].0 != *found@[l].0);
        }
        assert forall|word: u64| #[trigger] stats@.contains_key(word) implies has_word(
            views,
            word,
        ) by {
            let k = choose|k: int| 0 <= k < found@.len() && *(#[trigger] found@[k]).0 == word;
            assert(entries@[k].word == word);
            assert(views[k].0 == word);
        }
    }
    entries
}

/// By how much a stack counts in a report.
pub open spec fn weight(order_by: OrderBy, counts: Counts) -> u64 {
    match order_by {
        OrderBy::Count => counts.count() as u64,
        OrderBy::Traffic => counts.total,
    }
}

/// By how much a stack counts in a report.
pub fn weigh(order_by: OrderBy, hist: &Histogram) -> (weight: u64)
    requires
        order_by == OrderBy::Count ==> hist@.count() <= u64::MAX,
    ensures
        weight == self::weight(order_by, hist@),
{
    match order_by {
        OrderBy::Count => hist.total_count(),
        OrderBy::Traffic => hist.total,
    }
}

/// The process of a packed word.
pub open spec fn process_of(word: u64) -> u32 {
    (word / 0x1_0000_0000) as u32
}

/// The stack of a packed word.
pub open spec fn stack_of(word: u64) -> u32 {
    (word % 0x1_0000_0000) as u32
}

/// The process and the stack of a packed word.
pub fn unpacked(word: u64) -> (parts: UnpackedHistogramKey)
    ensures
        parts.pid == process_of(word),
        parts.stack_id == stack_of(word),
{
    HistogramKey::from_word(word).into_parts()
}

/// The symbols of a stack, where they were found.
pub open spec fn trace_at(traces: Map<u32, Seq<Frame>>, stack_id: u32) -> Option<Seq<Frame>> {
    if traces.contains_key(stack_id) {
        Some(traces[stack_id])
    } else {
        None
    }
}

/// Whether the number of events of each stack fits into a `u64`.
pub open spec fn all_countable(stats: Map<u64, Histogram>) -> bool {
    forall|word: u64| #[trigger]
        stats.contains_key(word) ==> stats[word]@.count() <= u64::MAX
}

/// Whether the number of events of each stack fits into a `u64`.
pub fn is_countable(stats: &FxHashMap<u64, Histogram>) -> (fits: bool)
    ensures
        fits == all_countable(stats@),
{
    let entries = listing(stats);
    let ghost views = entries_of(entries@);
    let mut i: usize = 0;
    while i < entries.len()
        invariant
            i <= entries@.len(),
            views == entries_of(entries@),
            is_listing(stats@, false, views),
            forall|j: int| 0 <= j < i ==> (#[trigger] views[j]).1.count() <= u64::MAX,
        decreases entries@.len() - i,
    {
        assert(views[i as int] == (entries@[i as int].word, entries@[i as int].hist@));
        if entries[i].hist.checked_total_count().is_none() {
            return false;
        }
        i += 1;
    }
    proof {
        assert forall|word: u64| #[trigger] stats@.contains_key(word) implies stats@[word]@.count()
            <= u64::MAX by {
            assert(is_listed(false, stats@[word]@));
            let k = choose|k: int| 0 <= k < views.len() && (#[trigger] views[k]).0 == word;
            assert(views[k].1.count() <= u64::MAX);
        }
    }
    true
}

/// Of the first `n` entries those with events.
pub open spec fn with_events_before(entries: Seq<(u64, Counts)>, n: int) -> Seq<(u64, Counts)>
    decreases n,
{
    if n <= 0 {
        seq![]
    } else if entries[n - 1].1.count() > 0 {
        with_events_before(entries, n - 1).push(entries[n - 1])
    } else {
        with_events_before(entries, n - 1)
    }
}

/// The entries with events.
pub fn keep_with_events<'a>(entries: &Vec<Entry<'a>>) -> (kept: Vec<Entry<'a>>)
    requires
        forall|i: int|
            0 <= i < entries@.len() ==> (#[trigger] entries@[i]).hist@.count() <= u64::MAX,
    ensures
        entries_of(kept@) == with_events_before(entries_of(entries@), entries@.len() as int),
{
    let ghost views = entries_of(entries@);
    let mut kept: Vec<Entry<'a>> = Vec::new();
    let mut i: usize = 0;
    assert(entries_of(kept@) =~= with_events_before(views, 0));
    while i < entries.len()
        invariant
            i <= entries@.len(),
            views == entries_of(entries@),
            forall|j: int|
                0 <= j < entries@.len() ==> (#[trigger] entries@[j]).hist@.count() <= u64::MAX,
            entries_of(kept@) == with_events_before(views, i as int),
        decreases entries@.len() - i,
    {
        let ghost before = kept@;
        assert(views[i as int] == (entries@[i as int].word, entries@[i as int].hist@));
        if entries[i].hist.total_count() > 0 {
            kept.push(entries[i]);
            assert(entries_of(kept@) =~= entries_of(before).push(views[i as int]));
        }
        i += 1;
    }
    kept
}

/// The weights of some entries.
pub open spec fn weights_of(order_by: OrderBy, entries: Seq<(u64, Counts)>) -> Seq<u64> {
    entries.map_values(|entry: (u64, Counts)| weight(order_by, entry.1))
}

/// The entries in the given order.
pub open spec fn reordered(entries: Seq<(u64, Counts)>, order: Seq<usize>) -> Seq<(u64, Counts)> {
    order.map_values(|i: usize| entries[i as int])
}

/// Whether `sorted` holds the entries by weight, the heaviest first.
pub open spec fn is_sorted(
    order_by: OrderBy,
    latest_first: bool,
    entries: Seq<(u64, Counts)>,
    sorted: Seq<(u64, Counts)>,
) -> bool {
    exists|order: Seq<usize>|
        is_ranking(weights_of(order_by, entries), latest_first, order) && sorted
            == #[trigger] reordered(entries, order)
}

/// The entries by weight, the heaviest first.
pub fn sort<'a>(entries: &Vec<Entry<'a>>, order_by: OrderBy, latest_first: bool) -> (sorted: Vec<
    Entry<'a>,
>)
    requires
        order_by == OrderBy::Count ==> forall|i: int|
            0 <= i < entries@.len() ==> (#[trigger] entries@[i]).hist@.count() <= u64::MAX,
    ensures
        is_sorted(order_by, latest_first, entries_of(entries@), entries_of(sorted@)),
{
    let ghost views = entries_of(entries@);
    let mut weights: Vec<u64> = Vec::new();
    let mut i: usize = 0;
    while i < entries.len()
        invariant
            i <= entries@.len(),
            views == entries_of(entries@),
            order_by == OrderBy::Count ==> forall|j: int|
                0 <= j < entries@.len() ==> (#[trigger] entries@[j]).hist@.count() <= u64::MAX,
            weights@ == weights_of(order_by, views).take(i as int),
        decreases entries@.len() - i,
    {
        let heaviness: u64 = weigh(order_by, entries[i].hist);
        assert(heaviness == weights_of(order_by, views)[i as int]);
        weights.push(heaviness);
        i += 1;
        assert(weights@ =~= weights_of(order_by, views).take(i as int));
    }
    assert(weights@ =~= weights_of(order_by, views));
    let order = ranked(&weights, latest_first);
    let mut sorted: Vec<Entry<'a>> = Vec::new();
    let mut k: usize = 0;
    while k < order.len()
        invariant
            k <= order@.len(),
            views == entries_of(entries@),
            entries@.len() == weights@.len(),
            is_ranking(weights@, latest_first, order@),
            entries_of(sorted@) == reordered(views, order@).take(k as int),
        decreases order@.len() - k,
    {
        let ghost before = sorted@;
        let item: usize = order[k];
        sorted.push(entries[item]);
        k += 1;
        assert(entries_of(sorted@) =~= entries_of(before).push(views[item as int]));
        assert(entries_of(sorted@) =~= reordered(views, order@).take(k as int));
    }
    assert(reordered(views, order@).take(k as int) =~= reordered(views, order@));
    sorted
}

/// Whether the weights go down.
pub open spec fn descends(order_by: OrderBy, entries: Seq<(u64, Counts)>) -> bool {
    forall|i: int, j: int|
        #![trigger entries[i], entries[j]]
        0 <= i < j < entries.len() ==> weight(order_by, entries[i].1) >= weight(
            order_by,
            entries[j].1,
        )
}

proof fn lemma_with_events(entries: Seq<(u64, Counts)>, n: int, i: int) -> (k: int)
    requires
        0 <= n <= entries.len(),
        0 <= i < with_events_before(entries, n).len(),
    ensures
        0 <= k < n,
        with_events_before(entries, n)[i] == entries[k],
        entries[k].1.count() > 0,
    decreases n,
{
    if i < with_events_before(entries, n - 1).len() {
        lemma_with_events(entries, n - 1, i)
    } else {
        n - 1
    }
}

proof fn lemma_two_with_events(entries: Seq<(u64, Counts)>, n: int, i: int, j: int) -> (k: (
    int,
    int,
))
    requires
        0 <= n <= entries.len(),
        0 <= i < j < with_events_before(entries, n).len(),
    ensures
        0 <= k.0 < k.1 < n,
        with_events_before(entries, n)[i] == entries[k.0],
        with_events_before(entries, n)[j] == entries[k.1],
    decreases n,
{
    if j < with_events_before(entries, n - 1).len() {
        lemma_two_with_events(entries, n - 1, i, j)
    } else {
        (lemma_with_events(entries, n - 1, i), n - 1)
    }
}

proof fn lemma_with_events_has(entries: Seq<(u64, Counts)>, n: int, k: int)
    requires
        0 <= k < n <= entries.len(),
        entries[k].1.count() > 0,
    ensures
        has_word(with_events_before(entries, n), entries[k].0),
    decreases n,
{
    let now = with_events_before(entries, n);
    if k < n - 1 {
        lemma_with_events_has(entries, n - 1, k);
        let before = with_events_before(entries, n - 1);
        let i = choose|i: int| 0 <= i < before.len() && (#[trigger] before[i]).0 == entries[k].0;
        assert(now[i].0 == entries[k].0);
    } else {
        assert(now[now.len() - 1].0 == entries[k].0);
    }
}

/// Leaving out the stacks without events leaves the others.
pub proof fn lemma_listing_with_events(stats: Map<u64, Histogram>, entries: Seq<(u64, Counts)>)
    requires
        is_listing(stats, false, entries),
    ensures
        is_listing(stats, true, with_events_before(entries, entries.len() as int)),
{
    let n = entries.len() as int;
    let kept = with_events_before(entries, n);
    assert forall|i: int| 0 <= i < kept.len() implies stats.contains_key((#[trigger] kept[i]).0)
        && stats[kept[i].0]@ == kept[i].1 && is_listed(true, kept[i].1) by {
        let k = lemma_with_events(entries, n, i);
    }
    assert forall|i: int, j: int| 0 <= i < j < kept.len() implies (#[trigger] kept[i]).0 != (
    #[trigger] kept[j]).0 by {
        let (k, l) = lemma_two_with_events(entries, n, i, j);
        assert(entries[k].0 != entries[l].0);
    }
    assert forall|word: u64| #[trigger]
        stats.contains_key(word) && is_listed(true, stats[word]@) implies has_word(kept, word) by {
        assert(is_listed(false, stats[word]@));
        let k = choose|k: int| 0 <= k < entries.len() && (#[trigger] entries[k]).0 == word;
        lemma_with_events_has(entries, n, k);
    }
}

/// Sorting a listing gives a listing whose weights go down.
pub proof fn lemma_sorted_listing(
    stats: Map<u64, Histogram>,
    with_events: bool,
    order_by: OrderBy,
    latest_first: bool,
    entries: Seq<(u64, Counts)>,
    sorted: Seq<(u64, Counts)>,
)
    requires
        is_listing(stats, with_events, entries),
        is_sorted(order_by, latest_first, entries, sorted),
    ensures
        is_listing(stats, with_events, sorted),
        descends(order_by, sorted),
{
    let weights = weights_of(order_by, entries);
    let order = choose|order: Seq<usize>|
        is_ranking(weights, latest_first, order) && sorted == #[trigger] reordered(entries, order);
    assert forall|i: int| 0 <= i < sorted.len() implies stats.contains_key((#[trigger] sorted[i]).0)
        && stats[sorted[i].0]@ == sorted[i].1 && is_listed(with_events, sorted[i].1) by {
        assert(sorted[i] == entries[order[i] as int]);
    }
    assert forall|i: int, j: int| 0 <= i < j < sorted.len() implies (#[trigger] sorted[i]).0 != (
    #[trigger] sorted[j]).0 by {
        assert(precedes(weights, latest_first, order[i] as int, order[j] as int));
        let a = order[i] as int;
        let b = order[j] as int;
        assert(a != b);
        assert(sorted[i] == entries[a] && sorted[j] == entries[b]);
        if a < b {
            assert(entries[a].0 != entries[b].0);
        } else {
            assert(entries[b].0 != entries[a].0);
        }
    }
    assert forall|i: int, j: int|
        #![trigger sorted[i], sorted[j]]
        0 <= i < j < sorted.len() implies weight(order_by, sorted[i].1) >= weight(
        order_by,
        sorted[j].1,
    ) by {
        assert(precedes(weights, latest_first, order[i] as int, order[j] as int));
        assert(weights[order[i] as int] == weight(order_by, sorted[i].1));
        assert(weights[order[j] as int] == weight(order_by, sorted[j].1));
    }
    assert forall|word: u64| #[trigger]
        stats.contains_key(word) && is_listed(with_events, stats[word]@) implies has_word(
        sorted,
        word,
    ) by {
        let k = choose|k: int| 0 <= k < entries.len() && (#[trigger] entries[k]).0 == word;
        assert(lists(order, k));
        let i = choose|i: int| 0 <= i < order.len() && #[trigger] order[i] == k;
        assert(sorted[i].0 == word);
    }
}

/// A stack weighs as many as its events, or as much as their values together.
pub proof fn law_weight_is_count_or_total(order_by: OrderBy, counts: Counts)
    ensures
        order_by == OrderBy::Traffic ==> weight(order_by, counts) == counts.total,
        order_by == OrderBy::Count && counts.count() <= u64::MAX ==> weight(order_by, counts)
            == counts.buckets.fold_left(0int, |sum: int, count: u64| sum + count),
{
    counts.law_count_adds_all_buckets();
}

/// A listing holds a stack if and only if the table does, or the table does with events; each
/// stack once, with what the table holds of it.
pub proof fn law_listing_holds_each_stack_once(
    stats: Map<u64, Histogram>,
    with_events: bool,
    entries: Seq<(u64, Counts)>,
    word: u64,
)
    requires
        is_listing(stats, with_events, entries),
    ensures
        (exists|i: int| 0 <= i < entries.len() && (#[trigger] entries[i]).0 == word) <==> {
            &&& stats.contains_key(word)
            &&& with_events ==> stats[word]@.count() > 0
        },
        forall|i: int|
            0 <= i < entries.len() && (#[trigger] entries[i]).0 == word ==> entries[i].1
                == stats[word]@,
        forall|i: int, j: int|
            0 <= i < j < entries.len() ==> (#[trigger] entries[i]).0 != (#[trigger] entries[j]).0,
{
    if stats.contains_key(word) && (with_events ==> stats[word]@.count() > 0) {
        assert(is_listed(with_events, stats[word]@));
        assert(has_word(entries, word));
    }
}

/// Of some entries those with events are kept, all of them and in the same order.
pub proof fn law_entries_with_events_are_kept(entries: Seq<(u64, Counts)>, n: int)
    requires
        0 <= n <= entries.len(),
    ensures
        with_events_before(entries, n) == entries.take(n).filter(
            |entry: (u64, Counts)| entry.1.count() > 0,
        ),
    decreases n,
{
    reveal(Seq::filter);
    if n > 0 {
        law_entries_with_events_are_kept(entries, n - 1);
        assert(entries.take(n).drop_last() =~= entries.take(n - 1));
    } else {
        assert(with_events_before(entries, n) =~= entries.take(n));
    }
}

/// Sorting puts every entry once, and none that was not there, so that none follows a lighter
/// one. Of two that weigh the same it keeps the order, or turns it round.
pub proof fn law_sorting_orders_every_entry(
    order_by: OrderBy,
    latest_first: bool,
    entries: Seq<(u64, Counts)>,
    sorted: Seq<(u64, Counts)>,
)
    requires
        is_sorted(order_by, latest_first, entries, sorted),
    ensures
        sorted.len() == entries.len(),
        exists|order: Seq<int>|
            {
                &&& #[trigger] order.no_duplicates()
                &&& order.len() == entries.len()
                &&& forall|i: int|
                    0 <= i < order.len() ==> 0 <= #[trigger] order[i] < entries.len() && sorted[i]
                        == entries[order[i]]
                &&& forall|i: int, j: int|
                    0 <= i < j < order.len() && weight(order_by, sorted[i].1) == weight(
                        order_by,
                        sorted[j].1,
                    ) ==> if latest_first {
                        #[trigger] order[i] > #[trigger] order[j]
                    } else {
                        order[i] < order[j]
                    }
            },
        forall|i: int, j: int|
            #![trigger sorted[i], sorted[j]]
            0 <= i < j < sorted.len() ==> match order_by {
                OrderBy::Count => sorted[i].1.count() as u64 >= sorted[j].1.count() as u64,
                OrderBy::Traffic => sorted[i].1.total >= sorted[j].1.total,
            },
        forall|k: int|
            0 <= k < entries.len() ==> sorted.contains(#[trigger] entries[k]),
{
    let weights = weights_of(order_by, entries);
    let found = choose|order: Seq<usize>|
        is_ranking(weights, latest_first, order) && sorted == #[trigger] reordered(entries, order);
    let order = Seq::new(found.len(), |i: int| found[i] as int);
    assert forall|i: int| 0 <= i < order.len() implies 0 <= #[trigger] order[i] < entries.len()
        && sorted[i] == entries[order[i]] by {
        assert(found[i] < entries.len());
    }
    assert forall|i: int, j: int| 0 <= i < order.len() && 0 <= j < order.len() && i != j implies order[i]
        != order[j] by {
        if i < j {
            assert(precedes(weights, latest_first, found[i] as int, found[j] as int));
        } else {
            assert(precedes(weights, latest_first, found[j] as int, found[i] as int));
        }
    }
    assert(order.no_duplicates());
    assert forall|i: int, j: int|
        0 <= i < j < order.len() && weight(order_by, sorted[i].1) == weight(
            order_by,
            sorted[j].1,
        ) implies if latest_first {
        #[trigger] order[i] > #[trigger] order[j]
    } else {
        order[i] < order[j]
    } by {
        assert(precedes(weights, latest_first, found[i] as int, found[j] as int));
        assert(weights[found[i] as int] == weight(order_by, sorted[i].1));
        assert(weights[found[j] as int] == weight(order_by, sorted[j].1));
    }
    assert forall|i: int, j: int|
        #![trigger sorted[i], sorted[j]]
        0 <= i < j < sorted.len() implies match order_by {
        OrderBy::Count => sorted[i].1.count() as u64 >= sorted[j].1.count() as u64,
        OrderBy::Traffic => sorted[i].1.total >= sorted[j].1.total,
    } by {
        assert(precedes(weights, latest_first, found[i] as int, found[j] as int));
        assert(weights[found[i] as int] == weight(order_by, sorted[i].1));
        assert(weights[found[j] as int] == weight(order_by, sorted[j].1));
    }
    assert forall|k: int| 0 <= k < entries.len() implies sorted.contains(#[trigger] entries[k]) by {
        assert(lists(found, k));
        let i = choose|i: int| 0 <= i < found.len() && #[trigger] found[i] == k;
        assert(sorted[i] == entries[k]);
    }
}

/// A ranking names every item once, none after a lighter one. Of two items that weigh the same
/// it names the earlier one first, or the later one.
pub proof fn law_ranking_names_every_item_once(
    weights: Seq<u64>,
    latest_first: bool,
    order: Seq<usize>,
)
    requires
        is_ranking(weights, latest_first, order),
    ensures
        order.len() == weights.len(),
        order.no_duplicates(),
        forall|i: int| 0 <= i < order.len() ==> (#[trigger] order[i]) < weights.len(),
        forall|i: int, j: int|
            0 <= i < j < order.len() ==> weights[#[trigger] order[i] as int]
                >= weights[#[trigger] order[j] as int],
        forall|i: int, j: int|
            0 <= i < j < order.len() && weights[#[trigger] order[i] as int]
                == weights[#[trigger] order[j] as int] ==> (order[i] > order[j] <==> latest_first),
{
    assert forall|i: int, j: int| 0 <= i < order.len() && 0 <= j < order.len() && i != j implies order[i]
        != order[j] by {
        if i < j {
            assert(precedes(weights, latest_first, order[i] as int, order[j] as int));
        } else {
            assert(precedes(weights, latest_first, order[j] as int, order[i] as int));
        }
    }
    assert forall|i: int, j: int|
        0 <= i < j < order.len() && weights[#[trigger] order[i] as int]
            == weights[#[trigger] order[j] as int] implies (order[i] > order[j] <==> latest_first) by {
        assert(precedes(weights, latest_first, order[i] as int, order[j] as int));
        assert(order[i] != order[j]);
    }
}

/// The symbols of a stack are those that are kept for it.
pub proof fn law_trace_is_of_its_stack(traces: Map<u32, Seq<Frame>>, stack_id: u32)
    ensures
        trace_at(traces, stack_id) is Some <==> traces.contains_key(stack_id),
        trace_at(traces, stack_id) is Some ==> trace_at(traces, stack_id)->0 == traces[stack_id],
{
}

/// A word is its process and its stack packed together.
pub proof fn law_word_is_process_and_stack(word: u64)
    ensures
        process_of(word) * 0x1_0000_0000 + stack_of(word) == word,
{
}

/// A table can be counted if and only if no stack holds more events than a `u64`.
pub proof fn law_countable_table(stats: Map<u64, Histogram>)
    ensures
        all_countable(stats) <==> !exists|word: u64| #[trigger]
            stats.contains_key(word) && stats[word]@.count() > u64::MAX,
{
}

/// Weights go down where no entry has fewer events, or a lower total, than one that follows it.
pub proof fn law_descending_entries(order_by: OrderBy, entries: Seq<(u64, Counts)>)
    ensures
        descends(order_by, entries) <==> forall|i: int, j: int|
            #![trigger entries[i], entries[j]]
            0 <= i < j < entries.len() ==> match order_by {
                OrderBy::Count => entries[i].1.count() as u64 >= entries[j].1.count() as u64,
                OrderBy::Traffic => entries[i].1.total >= entries[j].1.total,
            },
{
    assert forall|i: int, j: int|
        #![trigger entries[i], entries[j]]
        0 <= i < j < entries.len() && descends(order_by, entries) implies match order_by {
        OrderBy::Count => entries[i].1.count() as u64 >= entries[j].1.count() as u64,
        OrderBy::Traffic => entries[i].1.total >= entries[j].1.total,
    } by {
        assert(weight(order_by, entries[i].1) >= weight(order_by, entries[j].1));
    }
}

/// Entries keep their word and their counts, each in its place.
pub proof fn law_entries_keep_word_and_counts(entries: Seq<Entry>, i: int)
    requires
        0 <= i < entries.len(),
    ensures
        entries_of(entries).len() == entries.len(),
        entries_of(entries)[i].0 == entries[i].word,
        entries_of(entries)[i].1.total == entries[i].hist.total,
        entries_of(entries)[i].1.buckets == entries[i].hist.data@,
{
}

} // verus!
