//! A compact distribution of millisecond latencies.
//!
//! Kept per peer, so it has to be small: an archive of a churny node has
//! hundreds of thousands of peers, and anything per-peer is multiplied by that.
//! Twenty power-of-two buckets cover sub-millisecond to nine minutes in eighty
//! bytes, which is enough to read a distribution and estimate a median without
//! keeping a single sample.

use vstd::arithmetic::power2::*;
use vstd::prelude::*;

verus! {

/// Buckets. Bucket `i` holds latencies in `[2^i - 1, 2^(i+1) - 1)` ms, and the
/// last one is an overflow that catches everything slower.
pub const BUCKETS: usize = 20;

/// The first latency that falls in bucket `index`.
pub open spec fn bucket_low(index: int) -> int {
    pow2(index as nat) - 1
}

/// Whether `ms` belongs to bucket `index`: at or past its low edge and, for
/// every bucket but the last, before the next one's.
pub open spec fn in_bucket(ms: int, index: int) -> bool {
    &&& 0 <= index < BUCKETS
    &&& bucket_low(index) <= ms
    &&& index == BUCKETS - 1 || ms < bucket_low(index + 1)
}

/// The bucket a latency belongs to.
pub open spec fn bucket_index(ms: int) -> int {
    choose|index: int| in_bucket(ms, index)
}

/// `a + b`, held at the largest value a `u64` can carry.
pub open spec fn capped(a: int, b: int) -> u64 {
    if a + b > u64::MAX {
        u64::MAX
    } else {
        (a + b) as u64
    }
}

/// `a + b`, held at the largest value a `u32` can carry.
pub open spec fn capped32(a: int, b: int) -> u32 {
    if a + b > u32::MAX {
        u32::MAX
    } else {
        (a + b) as u32
    }
}

pub open spec fn least(a: u64, b: u64) -> u64 {
    if a <= b {
        a
    } else {
        b
    }
}

pub open spec fn greatest(a: u64, b: u64) -> u64 {
    if a >= b {
        a
    } else {
        b
    }
}

/// What a [`Latencies`] knows: how many samples fell in each bucket, and the
/// count, sum and extremes of them all.
#[verifier::ext_equal]
pub struct Distribution {
    pub buckets: Seq<u32>,
    pub count: u64,
    pub total_ms: u64,
    pub min_ms: u64,
    pub max_ms: u64,
}

impl Distribution {
    /// Nothing recorded yet.
    pub open spec fn empty() -> Distribution {
        Distribution {
            buckets: Seq::new(BUCKETS as nat, |i: int| 0u32),
            count: 0,
            total_ms: 0,
            min_ms: 0,
            max_ms: 0,
        }
    }

    /// The same distribution with one more sample in it.
    pub open spec fn with(self, ms: u64) -> Distribution {
        let slot = bucket_index(ms as int);
        Distribution {
            buckets: self.buckets.update(slot, capped32(self.buckets[slot] as int, 1)),
            count: capped(self.count as int, 1),
            total_ms: capped(self.total_ms as int, ms as int),
            min_ms: if self.count == 0 {
                ms
            } else {
                least(self.min_ms, ms)
            },
            max_ms: greatest(self.max_ms, ms),
        }
    }

    /// Both distributions folded into one.
    pub open spec fn merged(self, other: Distribution) -> Distribution {
        if other.count == 0 {
            self
        } else {
            Distribution {
                buckets: Seq::new(
                    BUCKETS as nat,
                    |i: int| capped32(self.buckets[i] as int, other.buckets[i] as int),
                ),
                count: capped(self.count as int, other.count as int),
                total_ms: capped(self.total_ms as int, other.total_ms as int),
                min_ms: if self.count == 0 {
                    other.min_ms
                } else {
                    least(self.min_ms, other.min_ms)
                },
                max_ms: greatest(self.max_ms, other.max_ms),
            }
        }
    }

    /// What recording and merging can build: an empty distribution is the blank
    /// one, and the extremes are in order.
    pub open spec fn valid(self) -> bool {
        &&& self.buckets.len() == BUCKETS
        &&& self.count == 0 ==> self == Distribution::empty()
        &&& self.min_ms <= self.max_ms
    }

    /// The first bucket, from `from` on, by which `target` samples have been
    /// passed, or [`BUCKETS`] if there is none.
    pub open spec fn rank(self, target: int, from: int) -> int
        decreases BUCKETS - from,
    {
        if from >= BUCKETS {
            BUCKETS as int
        } else if self.before(from + 1) >= target {
            from
        } else {
            self.rank(target, from + 1)
        }
    }

    /// Which sample, counting from one, the given percentile asks for.
    pub open spec fn target(self, percent: u64) -> int {
        let held = if percent > 100 {
            100
        } else {
            percent
        };
        let wanted = (self.count * held + 99) / 100;
        if wanted < 1 {
            1
        } else {
            wanted
        }
    }

    /// The estimate for a percentile: the bucket it falls in, interpolated, and
    /// held inside what was observed. The overflow bucket counts as being as
    /// wide as the range below it.
    pub open spec fn percentile(self, percent: u64) -> Option<u64> {
        let target = self.target(percent);
        let index = self.rank(target, 0);
        if self.count == 0 {
            None
        } else if index >= BUCKETS {
            Some(self.max_ms)
        } else {
            let low = bucket_low(index);
            let width = if index == BUCKETS - 1 {
                low
            } else {
                low + 1
            };
            let estimate = low + width * (target - self.before(index)) / (self.buckets[index] as int);
            Some(least(greatest(estimate as u64, self.min_ms), self.max_ms))
        }
    }

    /// Samples in the buckets before `index`.
    pub open spec fn before(self, index: int) -> int
        decreases index,
    {
        if index <= 0 {
            0
        } else {
            self.before(index - 1) + self.buckets[index - 1]
        }
    }
}

/// How many samples fell in each bucket, with their count, sum and extremes.
#[derive(Debug, Clone, Copy, PartialEq, Eq)]
pub struct Latencies {
    buckets: [u32; BUCKETS],
    count: u64,
    total_ms: u64,
    min_ms: u64,
    max_ms: u64,
}

/// Where a rank falls in a distribution.
#[derive(Debug, Clone, Copy, PartialEq, Eq)]
pub struct RankedBucket {
    /// The bucket holding the sample of that rank.
    pub index: usize,
    /// Samples in the buckets before it.
    pub before: u64,
    /// Samples in it.
    pub within: u32,
}

impl View for Latencies {
    type V = Distribution;

    closed spec fn view(&self) -> Distribution {
        Distribution {
            buckets: self.buckets@,
            count: self.count,
            total_ms: self.total_ms,
            min_ms: self.min_ms,
            max_ms: self.max_ms,
        }
    }
}

impl Default for Latencies {
    fn default() -> (empty: Self)
        ensures
            empty@ == Distribution::empty(),
    {
        let empty = Latencies { buckets: [0u32; BUCKETS], count: 0, total_ms: 0, min_ms: 0, max_ms: 0 };
        assert(empty@ =~= Distribution::empty());
        empty
    }
}

impl Latencies {
    /// Record one latency.
    pub fn add(&mut self, ms: u64)
        ensures
            final(self)@ == old(self)@.with(ms),
    {
        let bucket = bucket_of(ms);
        let held: u32 = self.buckets[bucket];
        self.buckets[bucket] = held.saturating_add(1);
        if self.count == 0 || ms < self.min_ms {
            self.min_ms = ms;
        }
        if ms > self.max_ms {
            self.max_ms = ms;
        }
        self.count = self.count.saturating_add(1);
        self.total_ms = self.total_ms.saturating_add(ms);
        assert(self@ =~= old(self)@.with(ms));
    }

    pub fn count(&self) -> (count: u64)
        ensures
            count == self@.count,
    {
        self.count
    }

    pub fn is_empty(&self) -> (empty: bool)
        ensures
            empty == (self@.count == 0),
    {
        self.count == 0
    }

    pub fn min_ms(&self) -> (ms: u64)
        ensures
            ms == self@.min_ms,
    {
        self.min_ms
    }

    pub fn max_ms(&self) -> (ms: u64)
        ensures
            ms == self@.max_ms,
    {
        self.max_ms
    }

    /// Sum of every latency recorded, held at `u64::MAX`. Over [`Self::count`]
    /// it is the mean.
    pub fn total_ms(&self) -> (ms: u64)
        ensures
            ms == self@.total_ms,
    {
        self.total_ms
    }

    pub fn buckets(&self) -> (buckets: &[u32; BUCKETS])
        ensures
            buckets@ == self@.buckets,
    {
        &self.buckets
    }

    /// The bucket the sample of rank `target` falls in, counting from one, or
    /// `None` if the buckets hold fewer samples than that.
    pub fn ranked(&self, target: u64) -> (found: Option<RankedBucket>)
        ensures
            match found {
                Some(at) => {
                    &&& at.index < BUCKETS
                    &&& at.index == self@.rank(target as int, 0)
                    &&& at.before == self@.before(at.index as int)
                    &&& at.within == self@.buckets[at.index as int]
                    &&& at.before + at.within >= target
                    &&& at.index > 0 ==> at.before < target
                },
                None => self@.rank(target as int, 0) == BUCKETS,
            },
    {
        let mut index: usize = 0;
        let mut seen: u64 = 0;
        while index < BUCKETS
            invariant
                index <= BUCKETS,
                seen == self@.before(index as int),
                seen <= index * u32::MAX,
                index > 0 ==> seen < target,
                self.buckets@ == self@.buckets,
                self@.rank(target as int, 0) == self@.rank(target as int, index as int),
            decreases BUCKETS - index,
        {
            let within: u32 = self.buckets[index];
            let before: u64 = seen;
            assert(seen + within <= (index + 1) * u32::MAX) by (nonlinear_arith)
                requires
                    seen <= index * u32::MAX,
                    within <= u32::MAX,
            ;
            seen = seen + within as u64;
            if seen >= target {
                return Some(RankedBucket { index, before, within });
            }
            index = index + 1;
        }
        None
    }

    /// Estimate a percentile, in milliseconds.
    ///
    /// The samples themselves are gone, so this interpolates within the bucket
    /// the percentile falls in. It is accurate to that bucket's width, which
    /// doubles as latencies grow -- fine for "about 40 ms", useless for
    /// distinguishing 40 ms from 45 ms, which is the trade a fixed eighty bytes
    /// per peer buys. `percent` is a whole number, held at a hundred.
    pub fn percentile_ms(&self, percent: u64) -> (ms: Option<u64>)
        ensures
            ms == self@.percentile(percent),
    {
        if self.count == 0 {
            return None;
        }
        let held: u64 = if percent > 100 {
            100
        } else {
            percent
        };
        assert(self.count * held <= u64::MAX * 100) by (nonlinear_arith)
            requires
                self.count <= u64::MAX,
                held <= 100,
        ;
        let product: u128 = self.count as u128 * held as u128;
        let wanted: u64 = ((product + 99) / 100) as u64;
        let target: u64 = if wanted < 1 {
            1
        } else {
            wanted
        };
        match self.ranked(target) {
            None => Some(self.max_ms),
            Some(at) => {
                let (low, high) = bucket_range(at.index);
                proof {
                    lemma_bucket_width(at.index as int);
                }
                let width: u64 = match high {
                    Some(high) => high - low,
                    None => low,
                };
                let position: u64 = target - at.before;
                proof {
                    assert(width * position <= 0x10_0000 * u32::MAX) by (nonlinear_arith)
                        requires
                            width <= 0x10_0000,
                            position <= u32::MAX,
                    ;
                    assert((width * position) / (at.within as int) <= width * position) by (nonlinear_arith)
                        requires
                            width * position >= 0,
                            at.within >= 1,
                    ;
                }
                let estimate: u64 = low + width * position / (at.within as u64);
                Some(self.within_observed(estimate))
            },
        }
    }

    /// Hold an estimate inside what was actually observed: a value outside the
    /// extremes is never claimed.
    fn within_observed(&self, estimate: u64) -> (ms: u64)
        ensures
            ms == least(greatest(estimate, self@.min_ms), self@.max_ms),
    {
        let raised: u64 = if estimate >= self.min_ms {
            estimate
        } else {
            self.min_ms
        };
        if raised <= self.max_ms {
            raised
        } else {
            self.max_ms
        }
    }

    /// Fold another distribution in, for aggregating peers into a group.
    pub fn merge(&mut self, other: &Latencies)
        ensures
            final(self)@ == old(self)@.merged(other@),
    {
        if other.count == 0 {
            return ;
        }
        let mut index: usize = 0;
        while index < BUCKETS
            invariant
                index <= BUCKETS,
                self.count == old(self).count,
                self.total_ms == old(self).total_ms,
                self.min_ms == old(self).min_ms,
                self.max_ms == old(self).max_ms,
                forall|i: int|
                    0 <= i < BUCKETS ==> #[trigger] self.buckets@[i] == (if i < index {
                        capped32(old(self).buckets@[i] as int, other.buckets@[i] as int)
                    } else {
                        old(self).buckets@[i]
                    }),
            decreases BUCKETS - index,
        {
            let sum: u32 = self.buckets[index].saturating_add(other.buckets[index]);
            self.buckets[index] = sum;
            index = index + 1;
        }
        if self.count == 0 || other.min_ms < self.min_ms {
            self.min_ms = other.min_ms;
        }
        if other.max_ms > self.max_ms {
            self.max_ms = other.max_ms;
        }
        self.count = self.count.saturating_add(other.count);
        self.total_ms = self.total_ms.saturating_add(other.total_ms);
        assert(self@ =~= old(self)@.merged(other@));
    }
}

/// Which bucket a latency falls in.
pub fn bucket_of(ms: u64) -> (bucket: usize)
    ensures
        in_bucket(ms as int, bucket as int),
        bucket == bucket_index(ms as int),
{
    proof {
        lemma2_to64();
    }
    let mut index: usize = 0;
    let mut next: u64 = 1;
    while index < BUCKETS - 1 && ms >= next
        invariant
            index < BUCKETS,
            next == bucket_low(index as int + 1),
            bucket_low(index as int) <= ms,
            next < 0x10_0000,
        decreases BUCKETS - index,
    {
        proof {
            lemma2_to64();
            lemma_pow2_unfold((index + 2) as nat);
            if index < 18 {
                lemma_pow2_strictly_increases((index + 2) as nat, 20);
            }
        }
        index = index + 1;
        next = 2 * next + 1;
    }
    proof {
        law_buckets_partition(ms as int, index as int, bucket_index(ms as int));
    }
    index
}

/// The `[low, high)` millisecond range a bucket covers. The last bucket has no
/// upper bound.
pub fn bucket_range(index: usize) -> (range: (u64, Option<u64>))
    requires
        index < 63,
    ensures
        range.0 == bucket_low(index as int),
        range.1 == (if index == BUCKETS - 1 {
            None
        } else {
            Some(bucket_low(index + 1) as u64)
        }),
{
    proof {
        lemma2_to64();
    }
    let mut power: u64 = 1;
    let mut at: usize = 0;
    while at < index
        invariant
            at <= index < 63,
            power == pow2(at as nat),
        decreases index - at,
    {
        proof {
            lemma_pow2_unfold((at + 1) as nat);
            lemma_pow2_within_u64((at + 1) as nat);
        }
        power = power * 2;
        at = at + 1;
    }
    proof {
        lemma_pow2_pos(index as nat);
        lemma_pow2_within_u64(index as nat);
    }
    let low: u64 = power - 1;
    if index == BUCKETS - 1 {
        (low, None)
    } else {
        proof {
            lemma_pow2_unfold((index + 1) as nat);
            lemma_pow2_within_u64((index + 1) as nat);
        }
        (low, Some(low + power))
    }
}

/// Every bucket that ends covers one more millisecond than it starts at, and
/// none starts past a million or so.
proof fn lemma_bucket_width(index: int)
    requires
        0 <= index < BUCKETS,
    ensures
        0 <= bucket_low(index) < 0x8_0000,
        bucket_low(index + 1) - bucket_low(index) == bucket_low(index) + 1,
{
    lemma2_to64();
    lemma_pow2_unfold((index + 1) as nat);
    lemma_pow2_pos(index as nat);
    if index < 19 {
        lemma_pow2_strictly_increases(index as nat, 19);
    }
}

proof fn lemma_pow2_within_u64(e: nat)
    requires
        e < 64,
    ensures
        pow2(e) <= 0x8000_0000_0000_0000,
        e == 63 ==> pow2(e) == 0x8000_0000_0000_0000,
{
    lemma2_to64();
    lemma_pow2_adds(32, 31);
    if e < 63 {
        lemma_pow2_strictly_increases(e, 63);
    }
}

/// Every latency falls in exactly one bucket: any two buckets that hold it are
/// the same.
pub proof fn law_buckets_partition(ms: int, a: int, b: int)
    requires
        in_bucket(ms, a),
    ensures
        in_bucket(ms, bucket_index(ms)),
        in_bucket(ms, b) ==> a == b,
        bucket_index(ms) == a,
{
    if in_bucket(ms, b) && a != b {
        lemma_bucket_apart(ms, a, b);
    }
    let c = bucket_index(ms);
    assert(in_bucket(ms, c));
    if a != c {
        lemma_bucket_apart(ms, a, c);
    }
}

proof fn lemma_bucket_apart(ms: int, a: int, b: int)
    requires
        in_bucket(ms, a),
        in_bucket(ms, b),
    ensures
        a == b,
{
    if a < b {
        if a + 1 < b {
            lemma_pow2_strictly_increases((a + 1) as nat, b as nat);
        }
    } else if b < a {
        if b + 1 < a {
            lemma_pow2_strictly_increases((b + 1) as nat, a as nat);
        }
    }
}

/// Every bucket but the last ends where the next begins, and the first begins
/// at zero, so no latency falls between two of them.
pub proof fn law_bucket_edges_meet(ms: int)
    requires
        ms >= 0,
    ensures
        bucket_low(0) == 0,
        in_bucket(ms, bucket_index(ms)),
{
    lemma2_to64();
    lemma_bucket_exists(ms, 0);
}

proof fn lemma_bucket_exists(ms: int, from: int)
    requires
        0 <= from < BUCKETS,
        bucket_low(from) <= ms,
    ensures
        in_bucket(ms, bucket_index(ms)),
    decreases BUCKETS - from,
{
    if from == BUCKETS - 1 || ms < bucket_low(from + 1) {
        assert(in_bucket(ms, from));
    } else {
        lemma_bucket_exists(ms, from + 1);
    }
}

/// Recording and merging only ever build valid distributions.
pub proof fn law_distributions_stay_valid(a: Distribution, b: Distribution, ms: u64)
    requires
        a.valid(),
        b.valid(),
    ensures
        Distribution::empty().valid(),
        a.with(ms).valid(),
        a.merged(b).valid(),
{
    law_bucket_edges_meet(ms as int);
}

/// An estimated percentile never escapes what was observed.
pub proof fn law_a_percentile_never_escapes_what_was_observed(d: Distribution, percent: u64)
    requires
        d.valid(),
    ensures
        d.percentile(percent) matches Some(ms) ==> d.min_ms <= ms <= d.max_ms,
        d.percentile(percent) is None <==> d.count == 0,
{
}

/// Folding in a distribution nothing was recorded in changes nothing, and
/// folding into an empty one gives the other back.
pub proof fn law_merging_with_empty(d: Distribution)
    requires
        d.valid(),
    ensures
        d.merged(Distribution::empty()) == d,
        Distribution::empty().merged(d) == d,
{
    if d.count == 0 {
    } else {
        let m = Distribution::empty().merged(d);
        assert(m.buckets =~= d.buckets);
        assert(m =~= d);
    }
}

/// Which of the two distributions is folded into the other makes no difference,
/// and neither the count nor the sum loses a sample while they fit a `u64`.
pub proof fn law_merging_preserves_the_totals(a: Distribution, b: Distribution)
    requires
        a.valid(),
        b.valid(),
    ensures
        a.merged(b) == b.merged(a),
        a.count + b.count <= u64::MAX ==> a.merged(b).count == a.count + b.count,
        a.total_ms + b.total_ms <= u64::MAX ==> a.merged(b).total_ms == a.total_ms + b.total_ms,
{
    law_merging_with_empty(a);
    law_merging_with_empty(b);
    if a.count != 0 && b.count != 0 {
        assert(a.merged(b) =~= b.merged(a));
    }
}

/// Recording a sample after a merge is the same as recording it before: a
/// merged distribution is the one that seeing every sample would have built.
pub proof fn law_recording_commutes_with_merging(a: Distribution, b: Distribution, ms: u64)
    requires
        a.valid(),
        b.valid(),
        a.count + b.count < u64::MAX,
    ensures
        a.merged(b.with(ms)) == a.merged(b).with(ms),
{
    law_bucket_edges_meet(ms as int);
    let l = a.merged(b.with(ms));
    let r = a.merged(b).with(ms);
    assert(l.buckets =~= r.buckets);
    assert(l =~= r);
}

/// The distribution of some samples, recorded one after the other.
pub open spec fn recorded(samples: Seq<u64>) -> Distribution
    decreases samples.len(),
{
    if samples.len() == 0 {
        Distribution::empty()
    } else {
        recorded(samples.drop_last()).with(samples.last())
    }
}

proof fn lemma_recorded(samples: Seq<u64>)
    ensures
        recorded(samples).valid(),
        recorded(samples).count == capped(samples.len() as int, 0),
        samples.len() > 0 ==> {
            &&& samples.contains(recorded(samples).min_ms)
            &&& samples.contains(recorded(samples).max_ms)
        },
        forall|i: int|
            0 <= i < samples.len() ==> recorded(samples).min_ms <= #[trigger] samples[i]
                <= recorded(samples).max_ms,
    decreases samples.len(),
{
    if samples.len() > 0 {
        let front = samples.drop_last();
        lemma_recorded(front);
        law_bucket_edges_meet(samples.last() as int);
        let before = recorded(front);
        let after = recorded(samples);
        assert(samples[samples.len() - 1] == samples.last());
        if front.len() > 0 {
            let low = choose|i: int| 0 <= i < front.len() && front[i] == before.min_ms;
            let high = choose|i: int| 0 <= i < front.len() && front[i] == before.max_ms;
            assert(samples[low] == before.min_ms);
            assert(samples[high] == before.max_ms);
        }
        assert forall|i: int| 0 <= i < samples.len() implies after.min_ms <= #[trigger] samples[i]
            <= after.max_ms by {
            if i < front.len() {
                assert(front[i] == samples[i]);
            }
        }
    }
}

proof fn lemma_with_commutes(d: Distribution, a: u64, b: u64)
    requires
        d.buckets.len() == BUCKETS,
    ensures
        d.with(a).with(b) == d.with(b).with(a),
{
    law_bucket_edges_meet(a as int);
    law_bucket_edges_meet(b as int);
    assert(d.with(a).with(b).buckets =~= d.with(b).with(a).buckets);
    assert(d.with(a).with(b) =~= d.with(b).with(a));
}

/// A sample can be recorded last.
proof fn lemma_recorded_last(samples: Seq<u64>, at: int)
    requires
        0 <= at < samples.len(),
    ensures
        recorded(samples) == recorded(samples.remove(at)).with(samples[at]),
    decreases samples.len(),
{
    let rest = samples.remove(at);
    if at == samples.len() - 1 {
        assert(rest =~= samples.drop_last());
    } else {
        let front = samples.drop_last();
        lemma_recorded_last(front, at);
        assert(rest.drop_last() =~= front.remove(at));
        assert(rest.last() == samples.last());
        lemma_recorded(front.remove(at));
        lemma_with_commutes(recorded(front.remove(at)), samples[at], samples.last());
    }
}

/// The order in which samples are recorded makes no difference, and none is lost: the
/// count is theirs, as far as it goes, and the extremes are the least and the largest of them.
pub proof fn law_the_order_of_samples_does_not_matter(xs: Seq<u64>, ys: Seq<u64>)
    requires
        xs.to_multiset() == ys.to_multiset(),
    ensures
        recorded(xs) == recorded(ys),
        recorded(xs).valid(),
        recorded(xs).count == capped(xs.len() as int, 0),
        xs.len() > 0 ==> {
            &&& xs.contains(recorded(xs).min_ms)
            &&& xs.contains(recorded(xs).max_ms)
        },
        forall|i: int|
            0 <= i < xs.len() ==> recorded(xs).min_ms <= #[trigger] xs[i] <= recorded(xs).max_ms,
    decreases xs.len(),
{
    broadcast use vstd::seq_lib::group_to_multiset_ensures;

    lemma_recorded(xs);
    assert(xs.len() == xs.to_multiset().len());
    assert(ys.len() == ys.to_multiset().len());
    if xs.len() > 0 {
        let last = xs.last();
        assert(xs.contains(last)) by {
            assert(xs[xs.len() - 1] == last);
        }
        assert(ys.to_multiset().count(last) > 0);
        assert(ys.contains(last));
        let at = choose|at: int| 0 <= at < ys.len() && ys[at] == last;
        assert(xs.drop_last() =~= xs.remove(xs.len() - 1));
        assert(xs.drop_last().to_multiset() =~= ys.remove(at).to_multiset());
        law_the_order_of_samples_does_not_matter(xs.drop_last(), ys.remove(at));
        lemma_recorded_last(ys, at);
    }
}

/// How many of some samples are less than `edge`.
pub open spec fn below(samples: Seq<u64>, edge: int) -> nat
    decreases samples.len(),
{
    if samples.len() == 0 {
        0
    } else {
        below(samples.drop_last(), edge) + if samples.last() < edge {
            1nat
        } else {
            0nat
        }
    }
}

/// Some samples added up.
pub open spec fn sum(samples: Seq<u64>) -> nat
    decreases samples.len(),
{
    if samples.len() == 0 {
        0
    } else {
        sum(samples.drop_last()) + samples.last() as nat
    }
}

/// More buckets hold more samples.
proof fn lemma_before_grows(d: Distribution, few: int, many: int)
    requires
        0 <= few <= many,
    ensures
        0 <= d.before(few) <= d.before(many),
    decreases many,
{
    if few < many {
        lemma_before_grows(d, few, many - 1);
    } else if few > 0 {
        lemma_before_grows(d, few - 1, few - 1);
    }
}

/// One sample more is one more in its bucket.
proof fn lemma_before_with(d: Distribution, ms: u64, index: int)
    requires
        d.valid(),
        0 <= index <= BUCKETS,
        d.buckets[bucket_index(ms as int)] < u32::MAX,
    ensures
        d.with(ms).before(index) == d.before(index) + if bucket_index(ms as int) < index {
            1int
        } else {
            0
        },
    decreases index,
{
    law_bucket_edges_meet(ms as int);
    if index > 0 {
        lemma_before_with(d, ms, index - 1);
    }
}

/// Later buckets start later.
proof fn lemma_bucket_order(a: int, b: int)
    requires
        0 <= a <= b,
    ensures
        bucket_low(a) <= bucket_low(b),
{
    if a < b {
        lemma_pow2_strictly_increases(a as nat, b as nat);
    }
}

/// The samples in the first buckets are those less than where the next one starts.
proof fn lemma_before(samples: Seq<u64>, index: int)
    requires
        samples.len() <= u32::MAX,
        0 <= index <= BUCKETS,
    ensures
        recorded(samples).before(index) == (if index == BUCKETS {
            samples.len()
        } else {
            below(samples, bucket_low(index))
        }),
    decreases samples.len(), index,
{
    lemma_recorded(samples);
    if samples.len() == 0 {
        if index > 0 {
            lemma_before(samples, index - 1);
        }
    } else {
        let front = samples.drop_last();
        let ms = samples.last();
        let slot = bucket_index(ms as int);
        let d = recorded(front);
        lemma_recorded(front);
        lemma_before(front, index);
        lemma_before(front, BUCKETS as int);
        law_bucket_edges_meet(ms as int);
        lemma_before_grows(d, 0, slot);
        lemma_before_grows(d, slot + 1, BUCKETS as int);
        lemma_before_with(d, ms, index);
        if index < BUCKETS {
            if slot < index {
                lemma_bucket_order(slot + 1, index);
            } else {
                lemma_bucket_order(index, slot);
            }
        }
    }
}

proof fn lemma_sum(samples: Seq<u64>)
    ensures
        recorded(samples).total_ms == capped(sum(samples) as int, 0),
    decreases samples.len(),
{
    if samples.len() > 0 {
        lemma_sum(samples.drop_last());
    }
}

/// A bucket counts the samples in it: those from two to the power of its number, less one,
/// up to where the next one starts, and in the last of twenty all that are slower. The sum
/// is that of all of them, as far as a `u64` carries.
pub proof fn law_a_bucket_counts_its_samples(samples: Seq<u64>, index: int)
    requires
        samples.len() <= u32::MAX,
        0 <= index < 20,
    ensures
        recorded(samples).buckets.len() == 20,
        recorded(samples).buckets[index] == (if index == 19 {
            samples.len() as int
        } else {
            below(samples, pow2((index + 1) as nat) - 1) as int
        }) - below(samples, pow2(index as nat) - 1),
        recorded(samples).count == samples.len(),
        sum(samples) <= u64::MAX ==> recorded(samples).total_ms == sum(samples),
{
    lemma_recorded(samples);
    lemma_sum(samples);
    lemma_before(samples, index);
    lemma_before(samples, index + 1);
}

/// Where the sample of a rank is.
proof fn lemma_rank(d: Distribution, target: int, from: int)
    requires
        0 <= from <= BUCKETS,
        d.before(from) < target,
    ensures
        ({
            let index = d.rank(target, from);
            &&& from <= index <= BUCKETS
            &&& d.before(index) < target
            &&& index < BUCKETS ==> target <= d.before(index + 1)
        }),
    decreases BUCKETS - from,
{
    if from < BUCKETS && d.before(from + 1) < target {
        lemma_rank(d, target, from + 1);
    }
}

/// A percentile is in the bucket of its sample: fewer than that many in a hundred of the
/// samples are before the bucket, and at least that many are before its end. The estimate is
/// in that bucket too, unless it had to be held at the least or the largest sample; the last
/// bucket, which has no end, is taken to end at twice where it starts.
pub proof fn law_a_percentile_is_in_the_bucket_of_its_sample(samples: Seq<u64>, percent: u64)
    requires
        0 < samples.len() <= u32::MAX,
        percent <= 100,
    ensures
        ({
            let d = recorded(samples);
            let ms = d.percentile(percent)->0;
            &&& d.percentile(percent) is Some
            &&& d.min_ms <= ms <= d.max_ms
            &&& exists|index: int|
                0 <= index < 20 && {
                    let low = #[trigger] pow2(index as nat) - 1;
                    let high = if index == 19 {
                        2 * low
                    } else {
                        pow2((index + 1) as nat) - 1
                    };
                    let up_to = if index == 19 {
                        samples.len()
                    } else {
                        below(samples, high)
                    };
                    &&& below(samples, low) == 0 || below(samples, low) * 100 < samples.len()
                        * percent
                    &&& samples.len() * percent <= up_to * 100
                    &&& up_to > 0
                    &&& low <= ms || ms == d.max_ms
                    &&& ms <= high || ms == d.min_ms
                }
        }),
{
    let d = recorded(samples);
    let n = samples.len() as int;
    lemma_recorded(samples);
    let target = d.target(percent);
    assert(n * percent <= n * 100) by (nonlinear_arith)
        requires
            n >= 0,
            percent <= 100,
    ;
    let wanted = (n * percent + 99) / 100;
    assert(d.count == n);
    assert(n * percent >= 0) by (nonlinear_arith)
        requires
            n >= 0,
            percent >= 0,
    ;
    assert(1 <= target <= n);
    lemma_rank(d, target, 0);
    let index = d.rank(target, 0);
    lemma_before(samples, index);
    lemma_before(samples, BUCKETS as int);
    assert(index < BUCKETS);
    lemma_before(samples, index + 1);
    lemma_bucket_width(index);
    let low = bucket_low(index);
    let width = if index == BUCKETS - 1 {
        low
    } else {
        low + 1
    };
    let position = target - d.before(index);
    let within = d.buckets[index] as int;
    assert(0 < position <= within);
    let share = (width * position) / within;
    assert(0 <= share <= width) by (nonlinear_arith)
        requires
            0 < position <= within,
            0 <= width,
            share == (width * position) / within,
    ;
    assert(d.percentile(percent) is Some);
    assert(low == pow2(index as nat) - 1);
}

} // verus!
