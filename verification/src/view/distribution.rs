//! A latency distribution, laid out for a page.

use crate::latency;
use crate::latency::{Distribution, Latencies, BUCKETS};
use crate::relay::Ratio;
use vstd::prelude::*;

verus! {

/// A latency distribution, laid out for a page.
#[derive(Debug)]
pub struct LatencyView {
    pub count: u64,
    pub min_ms: u64,
    pub max_ms: u64,
    /// The total over the count. `None` if nothing was recorded.
    pub mean_ms: Option<Ratio>,
    pub p50_ms: Option<u64>,
    pub p90_ms: Option<u64>,
    pub p99_ms: Option<u64>,
    pub buckets: Vec<u32>,
    /// Bucket edges travel with the counts so the page never has to know how the
    /// buckets are laid out. The last bucket is open-ended.
    pub edges: Vec<(u64, Option<u64>)>,
}

/// The edges of a bucket.
pub open spec fn edge_of(index: int) -> (u64, Option<u64>) {
    (
        latency::bucket_low(index) as u64,
        if index == BUCKETS - 1 {
            None
        } else {
            Some(latency::bucket_low(index + 1) as u64)
        },
    )
}

/// The edges of every bucket.
pub open spec fn edges() -> Seq<(u64, Option<u64>)> {
    Seq::new(BUCKETS as nat, |index: int| edge_of(index))
}

/// Whether this lays out a distribution.
pub open spec fn lays_out(view: LatencyView, d: Distribution) -> bool {
    &&& view.count == d.count
    &&& view.min_ms == d.min_ms
    &&& view.max_ms == d.max_ms
    &&& view.mean_ms == (if d.count > 0 {
        Some(Ratio { part: d.total_ms, whole: d.count })
    } else {
        None
    })
    &&& view.p50_ms == d.percentile(50)
    &&& view.p90_ms == d.percentile(90)
    &&& view.p99_ms == d.percentile(99)
    &&& view.buckets@ == d.buckets
    &&& view.edges@ == edges()
}

/// Lay a latency distribution out.
pub fn latencies(l: &Latencies) -> (view: LatencyView)
    ensures
        lays_out(view, l@),
{
    let counts = l.buckets();
    let mut buckets: Vec<u32> = Vec::new();
    let mut edges: Vec<(u64, Option<u64>)> = Vec::new();
    let mut i: usize = 0;
    while i < BUCKETS
        invariant
            i <= BUCKETS,
            counts@.len() == BUCKETS,
            buckets@ == counts@.take(i as int),
            edges@ == self::edges().take(i as int),
        decreases BUCKETS - i,
    {
        let (low, high) = latency::bucket_range(i);
        assert((low, high) == edge_of(i as int));
        buckets.push(counts[i]);
        edges.push((low, high));
        i = i + 1;
        assert(buckets@ =~= counts@.take(i as int));
        assert(edges@ =~= self::edges().take(i as int));
    }
    assert(buckets@ =~= counts@);
    assert(edges@ =~= self::edges());
    LatencyView {
        count: l.count(),
        min_ms: l.min_ms(),
        max_ms: l.max_ms(),
        mean_ms: if l.count() > 0 {
            Some(Ratio { part: l.total_ms(), whole: l.count() })
        } else {
            None
        },
        p50_ms: l.percentile_ms(50),
        p90_ms: l.percentile_ms(90),
        p99_ms: l.percentile_ms(99),
        buckets,
        edges,
    }
}

/// The edges of the buckets: each starts where the one before ends, at a power of two less
/// one, and the last of twenty has no end.
pub proof fn law_edges_are_powers_of_two(index: int)
    requires
        0 <= index < 20,
    ensures
        edges().len() == 20,
        edges()[index].0 == vstd::arithmetic::power2::pow2(index as nat) - 1,
        index < 19 ==> edges()[index].1 == Some(edges()[index + 1].0),
        index == 19 ==> edges()[index].1 is None,
{
    vstd::arithmetic::power2::lemma2_to64();
    vstd::arithmetic::power2::lemma_pow2_pos(index as nat);
    if index < 20 {
        vstd::arithmetic::power2::lemma_pow2_strictly_increases(index as nat, 20);
    }
}

} // verus!
