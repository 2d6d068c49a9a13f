//! Differences and sums of histograms.

use crate::common::{Histogram, HISTOGRAM_BUCKETS};
use vstd::prelude::*;

verus! {

/// The events of `current` that `previous` did not hold yet; no count falls below zero.
pub fn hist_saturating_sub(current: &Histogram, previous: &Histogram) -> (delta: Histogram)
    ensures
        delta@ == current@.since(previous@),
{
    let mut delta = Histogram::new();
    delta.total = current.total.saturating_sub(previous.total);
    let mut i: usize = 0;
    while i < HISTOGRAM_BUCKETS
        invariant
            i <= HISTOGRAM_BUCKETS,
            delta.total == crate::common::sat_sub(current.total, previous.total),
            forall|j: int|
                0 <= j < i ==> delta.data[j] == crate::common::sat_sub(
                    current.data[j],
                    previous.data[j],
                ),
        decreases HISTOGRAM_BUCKETS - i,
    {
        delta.data[i] = current.data[i].saturating_sub(previous.data[i]);
        i += 1;
    }
    delta
}

/// Adds the events of `add` to `into`.
pub fn hist_merge(into: &mut Histogram, add: &Histogram)
    ensures
        final(into)@ == old(into)@.merged(add@),
{
    into.merge(add);
}

} // verus!
