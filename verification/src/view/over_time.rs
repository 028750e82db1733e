//! The archive over time.
//!
//! This covers every event in the archive, not just the retained ones, because
//! the histogram is kept per kind.

use crate::analysis::Analysis;
use crate::histogram;
use crate::histogram::{Grid, Histogram, Timeline};
use crate::kind;
use crate::kind::{Group, EventKind, KindInfo, GROUPS};
use crate::latency;
use crate::order;
use crate::text;
use vstd::arithmetic::div_mod::*;
use vstd::prelude::*;
use vstd::string::*;

verus! {

/// Busiest kinds first, and capped: a categorical palette is only readable for so
/// many series, and `message` alone can have dozens of commands.
pub const MAX_SERIES: usize = 8;

/// Some series over time.
#[derive(Debug)]
pub struct Series {
    pub start_ms: u64,
    pub bin_ms: u64,
    /// How many bins every series has.
    pub count: usize,
    pub series: Vec<Vec<u64>>,
    pub names: Vec<String>,
}

/// How many pieces of `size` cover `length`.
pub open spec fn pieces(length: int, size: int) -> int {
    (length + size - 1) / size
}

/// How many bins are merged into one, so that no more than `max_bins` are left.
/// Whole numbers of source bins are merged so bin boundaries stay meaningful.
pub open spec fn merged(bins: int, max_bins: int) -> int {
    pieces(bins, max_bins)
}

/// How many of some events are of some kinds and stand in a merged bin.
pub open spec fn tally_in(
    events: Seq<(u64, u16)>,
    grid: Grid,
    kinds: Seq<u16>,
    merge: int,
    at: int,
) -> nat
    decreases events.len(),
{
    if events.len() == 0 {
        0
    } else {
        let (timestamp, kind) = events.last();
        tally_in(events.drop_last(), grid, kinds, merge, at) + if kinds.contains(kind)
            && grid.slot(timestamp as int) / merge == at {
            1nat
        } else {
            0nat
        }
    }
}

/// Whether these are the series of some kinds each, downsampled to at most
/// `max_bins` bins.
pub open spec fn is_sampled(
    timeline: Timeline,
    slots: Seq<Seq<u16>>,
    max_bins: int,
    count: int,
    bin_ms: u64,
    series: Seq<Seq<u64>>,
) -> bool {
    let bins = timeline.grid.bins;
    let width = timeline.grid.width;
    &&& series.len() == slots.len()
    &&& if bins == 0 || max_bins == 0 {
        &&& count == 0
        &&& bin_ms == width
        &&& forall|slot: int| 0 <= slot < slots.len() ==> (#[trigger] series[slot]).len() == 0
    } else {
        let merge = merged(bins, max_bins);
        &&& count == pieces(bins, merge)
        &&& bin_ms == latency::capped(width * merge, 0)
        &&& forall|slot: int|
            0 <= slot < slots.len() ==> #[trigger] series[slot] == Seq::new(
                count as nat,
                |at: int|
                    tally_in(timeline.events, timeline.grid, slots[slot], merge, at) as u64,
            )
    }
}

/// The sequences behind some vectors.
pub open spec fn unboxed<T>(list: Seq<Vec<T>>) -> Seq<Seq<T>> {
    Seq::new(list.len(), |i: int| list[i]@)
}

/// Events of one kind in a merged bin.
spec fn tally_one(
    events: Seq<(u64, u16)>,
    grid: Grid,
    kind: int,
    merge: int,
    at: int,
    below: int,
) -> nat
    decreases events.len(),
{
    if events.len() == 0 {
        0
    } else {
        let (timestamp, of) = events.last();
        let slot = grid.slot(timestamp as int);
        tally_one(events.drop_last(), grid, kind, merge, at, below) + if of == kind && slot / merge
            == at && slot < below {
            1nat
        } else {
            0nat
        }
    }
}

/// One more source bin.
proof fn lemma_one_more_bin(
    events: Seq<(u64, u16)>,
    grid: Grid,
    kind: int,
    merge: int,
    at: int,
    below: int,
)
    ensures
        tally_one(events, grid, kind, merge, at, below + 1) == tally_one(
            events,
            grid,
            kind,
            merge,
            at,
            below,
        ) + if below / merge == at {
            histogram::tally(events, grid, kind, below)
        } else {
            0
        },
    decreases events.len(),
{
    if events.len() > 0 {
        lemma_one_more_bin(events.drop_last(), grid, kind, merge, at, below);
    }
}

/// No source bin.
proof fn lemma_no_bin(
    events: Seq<(u64, u16)>,
    grid: Grid,
    kind: int,
    merge: int,
    at: int,
)
    requires
        forall|i: int| 0 <= i < events.len() ==> 0 <= grid.slot(#[trigger] events[i].0 as int),
    ensures
        tally_one(events, grid, kind, merge, at, 0) == 0,
    decreases events.len(),
{
    if events.len() > 0 {
        let rest = events.drop_last();
        assert forall|i: int| 0 <= i < rest.len() implies 0 <= grid.slot(
            #[trigger] rest[i].0 as int,
        ) by {
            assert(rest[i] == events[i]);
        }
        assert(0 <= grid.slot(events[events.len() - 1].0 as int));
        lemma_no_bin(rest, grid, kind, merge, at);
    }
}

/// Every source bin.
proof fn lemma_one_more_kind(
    events: Seq<(u64, u16)>,
    grid: Grid,
    kinds: Seq<u16>,
    kind: u16,
    merge: int,
    at: int,
)
    requires
        !kinds.contains(kind),
        forall|i: int|
            0 <= i < events.len() ==> grid.slot(#[trigger] events[i].0 as int) < grid.bins,
    ensures
        tally_in(events, grid, kinds.push(kind), merge, at) == tally_in(
            events,
            grid,
            kinds,
            merge,
            at,
        ) + tally_one(events, grid, kind as int, merge, at, grid.bins),
        tally_in(events, grid, kinds.push(kind), merge, at) <= events.len(),
    decreases events.len(),
{
    if events.len() > 0 {
        let rest = events.drop_last();
        assert forall|i: int| 0 <= i < rest.len() implies grid.slot(
            #[trigger] rest[i].0 as int,
        ) < grid.bins by {
            assert(rest[i] == events[i]);
        }
        assert(grid.slot(events[events.len() - 1].0 as int) < grid.bins);
        lemma_one_more_kind(rest, grid, kinds, kind, merge, at);
        let of = events.last().1;
        let more = kinds.push(kind);
        if kinds.contains(of) {
            let i = choose|i: int| 0 <= i < kinds.len() && kinds[i] == of;
            assert(more[i] == of);
        }
        if of == kind {
            assert(more[kinds.len() as int] == of);
        }
        if more.contains(of) && of != kind {
            let i = choose|i: int| 0 <= i < more.len() && more[i] == of;
            assert(kinds[i] == of);
        }
    }
}

proof fn lemma_no_kinds(events: Seq<(u64, u16)>, grid: Grid, merge: int, at: int)
    ensures
        tally_in(events, grid, Seq::empty(), merge, at) == 0,
    decreases events.len(),
{
    if events.len() > 0 {
        lemma_no_kinds(events.drop_last(), grid, merge, at);
    }
}

proof fn lemma_fewer_bins(
    events: Seq<(u64, u16)>,
    grid: Grid,
    kind: int,
    merge: int,
    at: int,
    below: int,
    bins: int,
)
    requires
        below <= bins,
    ensures
        tally_one(events, grid, kind, merge, at, below) <= tally_one(
            events,
            grid,
            kind,
            merge,
            at,
            bins,
        ),
    decreases events.len(),
{
    if events.len() > 0 {
        lemma_fewer_bins(events.drop_last(), grid, kind, merge, at, below, bins);
    }
}

proof fn lemma_of_no_event(
    events: Seq<(u64, u16)>,
    grid: Grid,
    kind: int,
    merge: int,
    at: int,
    below: int,
)
    requires
        forall|i: int| 0 <= i < events.len() ==> (#[trigger] events[i]).1 != kind,
    ensures
        tally_one(events, grid, kind, merge, at, below) == 0,
    decreases events.len(),
{
    if events.len() > 0 {
        let rest = events.drop_last();
        assert forall|i: int| 0 <= i < rest.len() implies (#[trigger] rest[i]).1 != kind by {
            assert(rest[i] == events[i]);
        }
        assert(events[events.len() - 1].1 != kind);
        lemma_of_no_event(rest, grid, kind, merge, at, below);
    }
}

proof fn lemma_tally_bounded(events: Seq<(u64, u16)>, grid: Grid, kind: int, bin: int)
    ensures
        histogram::tally(events, grid, kind, bin) <= events.len(),
    decreases events.len(),
{
    if events.len() > 0 {
        lemma_tally_bounded(events.drop_last(), grid, kind, bin);
    }
}

/// A bin of the histogram is within the merged bins.
proof fn lemma_merged_bin(bin: int, bins: int, merge: int)
    requires
        0 <= bin < bins,
        merge > 0,
    ensures
        0 <= bin / merge < pieces(bins, merge),
{
    lemma_div_is_ordered(bin, bins - 1, merge);
    lemma_div_plus_one(bins - 1, merge);
    lemma_div_pos_is_pos(bin, merge);
}

/// Merging leaves at most as many bins as asked for.
pub proof fn law_downsampled_to_at_most_the_requested_bins(bins: int, max_bins: int)
    requires
        bins > 0,
        max_bins > 0,
    ensures
        merged(bins, max_bins) >= 1,
        1 <= pieces(bins, merged(bins, max_bins)) <= max_bins,
{
    let merge = merged(bins, max_bins);
    lemma_div_plus_one(bins - 1, max_bins);
    lemma_div_pos_is_pos(bins - 1, max_bins);
    lemma_fundamental_div_mod(bins - 1, max_bins);
    lemma_mod_bound(bins - 1, max_bins);
    // merge * max_bins >= bins
    let q = (bins - 1) / max_bins;
    assert(merge == q + 1);
    assert(merge * max_bins >= bins) by (nonlinear_arith)
        requires
            merge == q + 1,
            bins - 1 == max_bins * q + (bins - 1) % max_bins,
            (bins - 1) % max_bins < max_bins,
    ;
    lemma_div_plus_one(bins - 1, merge);
    lemma_div_pos_is_pos(bins - 1, merge);
    assert((bins - 1) / merge < max_bins) by (nonlinear_arith)
        requires
            merge * max_bins >= bins,
            merge > 0,
            max_bins > 0,
            bins > 0,
    ;
}

/// Add one kind's row to a downsampled series.
fn add_row(
    series: &mut Vec<u64>,
    row: &[u64],
    merge: usize,
    timeline: Ghost<Timeline>,
    kinds: Ghost<Seq<u16>>,
    kind: u16,
)
    requires
        timeline@.valid(),
        timeline@.events.len() <= u64::MAX,
        merge > 0,
        timeline@.grid.bins > 0,
        !kinds@.contains(kind),
        row@ == (if kind < timeline@.kinds {
            histogram::row(timeline@.events, timeline@.grid, kind as int)
        } else {
            Seq::empty()
        }),
        old(series)@ == Seq::new(
            pieces(timeline@.grid.bins, merge as int) as nat,
            |at: int|
                tally_in(timeline@.events, timeline@.grid, kinds@, merge as int, at) as u64,
        ),
    ensures
        final(series)@ == Seq::new(
            pieces(timeline@.grid.bins, merge as int) as nat,
            |at: int|
                tally_in(
                    timeline@.events,
                    timeline@.grid,
                    kinds@.push(kind),
                    merge as int,
                    at,
                ) as u64,
        ),
{
    let ghost events = timeline@.events;
    let ghost grid = timeline@.grid;
    let ghost count = pieces(grid.bins, merge as int);
    let ghost before = series@;
    proof {
        assert forall|i: int| 0 <= i < events.len() implies 0 <= grid.slot(
            #[trigger] events[i].0 as int,
        ) < grid.bins by {
            if events[i].0 >= grid.start {
                lemma_div_pos_is_pos(events[i].0 - grid.start, grid.width);
            }
        }
        assert forall|at: int| 0 <= at < count implies {
            &&& #[trigger] tally_in(events, grid, kinds@.push(kind), merge as int, at) == tally_in(
                events,
                grid,
                kinds@,
                merge as int,
                at,
            ) + tally_one(events, grid, kind as int, merge as int, at, grid.bins)
            &&& tally_in(events, grid, kinds@.push(kind), merge as int, at) <= events.len()
            &&& tally_one(events, grid, kind as int, merge as int, at, 0) == 0
        } by {
            lemma_one_more_kind(events, grid, kinds@, kind, merge as int, at);
            lemma_no_bin(events, grid, kind as int, merge as int, at);
        }
        if kind >= timeline@.kinds {
            assert forall|at: int| 0 <= at < count implies #[trigger] tally_one(
                events,
                grid,
                kind as int,
                merge as int,
                at,
                grid.bins,
            ) == 0 by {
                lemma_of_no_event(events, grid, kind as int, merge as int, at, grid.bins);
            }
        }
        assert forall|at: int| 0 <= at < count implies #[trigger] series@[at] == tally_in(
            events,
            grid,
            kinds@,
            merge as int,
            at,
        ) + tally_one(events, grid, kind as int, merge as int, at, 0) by {
            assert(tally_in(events, grid, kinds@.push(kind), merge as int, at) <= events.len());
        }
    }
    let mut i: usize = 0;
    while i < row.len()
        invariant
            i <= row@.len(),
            merge > 0,
            grid.bins > 0,
            events.len() <= u64::MAX,
            row@.len() > 0 ==> row@ == histogram::row(events, grid, kind as int),
            series@.len() == count,
            count == pieces(grid.bins, merge as int),
            forall|at: int|
                0 <= at < count ==> {
                    &&& #[trigger] tally_in(events, grid, kinds@.push(kind), merge as int, at)
                        == tally_in(events, grid, kinds@, merge as int, at) + tally_one(
                        events,
                        grid,
                        kind as int,
                        merge as int,
                        at,
                        grid.bins,
                    )
                    &&& tally_in(events, grid, kinds@.push(kind), merge as int, at) <= events.len()
                },
            forall|at: int|
                0 <= at < count ==> #[trigger] series@[at] == tally_in(
                    events,
                    grid,
                    kinds@,
                    merge as int,
                    at,
                ) + tally_one(events, grid, kind as int, merge as int, at, i as int),
        decreases row@.len() - i,
    {
        let at: usize = i / merge;
        let added: u64 = row[i];
        let ghost was = series@;
        proof {
            lemma_merged_bin(i as int, grid.bins, merge as int);
            lemma_tally_bounded(events, grid, kind as int, i as int);
            assert(added == histogram::tally(events, grid, kind as int, i as int));
            lemma_one_more_bin(events, grid, kind as int, merge as int, at as int, i as int);
            lemma_fewer_bins(
                events,
                grid,
                kind as int,
                merge as int,
                at as int,
                i + 1,
                grid.bins,
            );
            assert(tally_in(events, grid, kinds@.push(kind), merge as int, at as int)
                <= events.len());
            assert(was[at as int] == tally_in(events, grid, kinds@, merge as int, at as int)
                + tally_one(events, grid, kind as int, merge as int, at as int, i as int));
        }
        let held: u64 = series[at];
        series[at] = held + added;
        proof {
            assert forall|k: int| 0 <= k < count implies #[trigger] series@[k] == tally_in(
                events,
                grid,
                kinds@,
                merge as int,
                k,
            ) + tally_one(events, grid, kind as int, merge as int, k, i + 1) by {
                assert(was[k] == tally_in(events, grid, kinds@, merge as int, k) + tally_one(
                    events,
                    grid,
                    kind as int,
                    merge as int,
                    k,
                    i as int,
                ));
                lemma_one_more_bin(events, grid, kind as int, merge as int, k, i as int);
            }
        }
        i = i + 1;
    }
    proof {
        let after = Seq::new(
            count as nat,
            |at: int| tally_in(events, grid, kinds@.push(kind), merge as int, at) as u64,
        );
        assert forall|at: int| 0 <= at < count implies series@[at] == after[at] by {
            assert(tally_in(events, grid, kinds@.push(kind), merge as int, at) <= events.len());
        }
        assert(series@ =~= after);
    }
}

/// Merge the rows of some kinds into one downsampled series.
fn merge_slot(histogram: &Histogram, kinds: &Vec<u16>, merge: usize, count: usize) -> (series: Vec<
    u64,
>)
    requires
        histogram.wf(),
        histogram@.valid(),
        histogram@.events.len() <= u64::MAX,
        histogram@.grid.bins > 0,
        merge > 0,
        count == pieces(histogram@.grid.bins, merge as int),
        kinds@.no_duplicates(),
    ensures
        series@ == Seq::new(
            count as nat,
            |at: int|
                tally_in(histogram@.events, histogram@.grid, kinds@, merge as int, at) as u64,
        ),
{
    let mut series: Vec<u64> = vec![0u64; count];
    let ghost events = histogram@.events;
    let ghost grid = histogram@.grid;
    proof {
        assert forall|at: int| 0 <= at < count implies #[trigger] tally_in(
            events,
            grid,
            kinds@.take(0),
            merge as int,
            at,
        ) == 0 by {
            assert(kinds@.take(0) =~= Seq::empty());
            lemma_no_kinds(events, grid, merge as int, at);
        }
        assert(series@ =~= Seq::new(
            count as nat,
            |at: int| tally_in(events, grid, kinds@.take(0), merge as int, at) as u64,
        ));
    }
    let mut i: usize = 0;
    while i < kinds.len()
        invariant
            i <= kinds@.len(),
            histogram.wf(),
            histogram@.valid(),
            histogram@.events.len() <= u64::MAX,
            histogram@.grid.bins > 0,
            merge > 0,
            events == histogram@.events,
            grid == histogram@.grid,
            count == pieces(grid.bins, merge as int),
            kinds@.no_duplicates(),
            series@ == Seq::new(
                count as nat,
                |at: int|
                    tally_in(events, grid, kinds@.take(i as int), merge as int, at) as u64,
            ),
        decreases kinds@.len() - i,
    {
        let kind: u16 = kinds[i];
        let ghost done = kinds@.take(i as int);
        proof {
            if done.contains(kind) {
                let j = choose|j: int| 0 <= j < done.len() && done[j] == kind;
                assert(kinds@[j] == kinds@[i as int]);
            }
            assert(kinds@.take(i + 1) =~= done.push(kind));
        }
        add_row(
            &mut series,
            histogram.series(kind),
            merge,
            Ghost(histogram@),
            Ghost(done),
            kind,
        );
        i = i + 1;
    }
    assert(kinds@.take(i as int) =~= kinds@);
    series
}

/// How many pieces of `size` cover `length`.
fn pieces_of(length: usize, size: usize) -> (count: usize)
    requires
        size > 0,
        length > 0,
    ensures
        count == pieces(length as int, size as int),
        1 <= count <= length,
{
    proof {
        lemma_div_plus_one(length - 1, size as int);
        lemma_div_pos_is_pos(length - 1, size as int);
        assert((length - 1) / (size as int) <= length - 1) by (nonlinear_arith)
            requires
                length >= 1,
                size >= 1,
        ;
    }
    (length - 1) / size + 1
}

/// Merge a set of per-kind series into one downsampled series per output slot.
///
/// The histogram keeps up to 4096 bins; a chart is a few hundred pixels wide, so
/// merging down avoids shipping data a page cannot draw.
pub fn downsample(histogram: &Histogram, slots: &Vec<Vec<u16>>, max_bins: usize) -> (sampled: (
    usize,
    u64,
    Vec<Vec<u64>>,
))
    requires
        histogram.wf(),
        forall|slot: int| 0 <= slot < slots@.len() ==> (#[trigger] slots@[slot])@.no_duplicates(),
    ensures
        is_sampled(
            histogram@,
            unboxed(slots@),
            max_bins as int,
            sampled.0 as int,
            sampled.1,
            unboxed(sampled.2@),
        ),
{
    let total: u64 = histogram.total();
    proof {
        histogram::law_a_histogram_is_valid(*histogram);
    }
    let bins: usize = histogram.bins();
    let mut series: Vec<Vec<u64>> = Vec::new();
    if bins == 0 || max_bins == 0 {
        let mut slot: usize = 0;
        while slot < slots.len()
            invariant
                slot <= slots@.len(),
                series@.len() == slot,
                forall|s: int| 0 <= s < slot ==> (#[trigger] series@[s])@.len() == 0,
            decreases slots@.len() - slot,
        {
            series.push(Vec::new());
            slot = slot + 1;
        }
        return (0, histogram.bin_ms(), series);
    }
    let merge: usize = pieces_of(bins, max_bins);
    let count: usize = pieces_of(bins, merge);
    let mut slot: usize = 0;
    while slot < slots.len()
        invariant
            slot <= slots@.len(),
            histogram.wf(),
            histogram@.valid(),
            histogram@.events.len() <= u64::MAX,
            histogram@.grid.bins > 0,
            merge > 0,
            count == pieces(histogram@.grid.bins, merge as int),
            forall|s: int| 0 <= s < slots@.len() ==> (#[trigger] slots@[s])@.no_duplicates(),
            series@.len() == slot,
            forall|s: int|
                0 <= s < slot ==> (#[trigger] series@[s])@ == Seq::new(
                    count as nat,
                    |at: int|
                        tally_in(
                            histogram@.events,
                            histogram@.grid,
                            slots@[s]@,
                            merge as int,
                            at,
                        ) as u64,
                ),
        decreases slots@.len() - slot,
    {
        series.push(merge_slot(histogram, &slots[slot], merge, count));
        slot = slot + 1;
    }
    assert forall|s: int| 0 <= s < slots@.len() implies #[trigger] unboxed(series@)[s] == Seq::new(
        count as nat,
        |at: int|
            tally_in(
                histogram@.events,
                histogram@.grid,
                unboxed(slots@)[s],
                merge as int,
                at,
            ) as u64,
    ) by {
        assert(series@[s]@ == unboxed(series@)[s]);
        assert(slots@[s]@ == unboxed(slots@)[s]);
    }
    (count, capped_product(histogram.bin_ms(), merge as u64), series)
}

/// A product, held at `u64::MAX`.
fn capped_product(a: u64, b: u64) -> (product: u64)
    ensures
        product == latency::capped(a * b, 0),
{
    match a.checked_mul(b) {
        Some(product) => product,
        None => u64::MAX,
    }
}

/// The ids of the kinds of a group.
pub open spec fn ids_in(kinds: Seq<EventKind>, group: Group) -> Seq<u16>
    decreases kinds.len(),
{
    if kinds.len() == 0 {
        Seq::empty()
    } else if kinds.last().group == group {
        ids_in(kinds.drop_last(), group).push((kinds.len() - 1) as u16)
    } else {
        ids_in(kinds.drop_last(), group)
    }
}

proof fn lemma_ids_in(kinds: Seq<EventKind>, group: Group)
    requires
        kinds.len() <= 65536,
    ensures
        ids_in(kinds, group).no_duplicates(),
        forall|i: int|
            0 <= i < ids_in(kinds, group).len() ==> (#[trigger] ids_in(kinds, group)[i])
                < kinds.len() && kinds[ids_in(kinds, group)[i] as int].group == group,
        forall|id: u16|
            id < kinds.len() && kinds[id as int].group == group ==> #[trigger] ids_in(
                kinds,
                group,
            ).contains(id),
    decreases kinds.len(),
{
    if kinds.len() > 0 {
        let rest = kinds.drop_last();
        let ids = ids_in(kinds, group);
        let before = ids_in(rest, group);
        lemma_ids_in(rest, group);
        assert forall|id: u16|
            id < kinds.len() && kinds[id as int].group == group implies #[trigger] ids.contains(
            id,
        ) by {
            if id < rest.len() {
                assert(before.contains(id));
                let i = choose|i: int| 0 <= i < before.len() && before[i] == id;
                assert(ids[i] == id);
            } else {
                assert(ids.last() == id);
                assert(ids[ids.len() - 1] == id);
            }
        }
    }
}

/// The ids of the kinds of a group.
fn ids_of(kinds: &Vec<KindInfo>, group: Group, model: Ghost<Seq<EventKind>>) -> (ids: Vec<u16>)
    requires
        kinds@.len() == model@.len(),
        kinds@.len() <= 65536,
        forall|i: int| 0 <= i < kinds@.len() ==> (#[trigger] kinds@[i])@ == model@[i],
    ensures
        ids@ == ids_in(model@, group),
        ids@.no_duplicates(),
{
    let mut ids: Vec<u16> = Vec::new();
    let mut i: usize = 0;
    while i < kinds.len()
        invariant
            i <= kinds@.len(),
            kinds@.len() == model@.len(),
            kinds@.len() <= 65536,
            forall|k: int| 0 <= k < kinds@.len() ==> (#[trigger] kinds@[k])@ == model@[k],
            ids@ == ids_in(model@.take(i as int), group),
        decreases kinds@.len() - i,
    {
        assert(model@.take(i + 1).drop_last() =~= model@.take(i as int));
        assert(kinds@[i as int]@ == model@[i as int]);
        if kinds[i].group == group {
            ids.push(i as u16);
        }
        i = i + 1;
    }
    assert(model@.take(i as int) =~= model@);
    proof {
        lemma_ids_in(model@, group);
    }
    ids
}

/// The kinds of every group, in the order of [`GROUPS`].
pub open spec fn ids_by_group(kinds: Seq<EventKind>) -> Seq<Seq<u16>> {
    Seq::new(8, |g: int| ids_in(kinds, GROUPS@[g]))
}

/// The whole archive over time, one series per event group.
pub fn timeline(analysis: &Analysis, max_bins: usize) -> (timeline: Series)
    requires
        analysis.wf(),
    ensures
        timeline.start_ms == analysis.histogram@.grid.start,
        timeline.names@.len() == 8,
        forall|g: int| 0 <= g < 8 ==> (#[trigger] timeline.names@[g])@ == GROUPS@[g].text(),
        is_sampled(
            analysis.histogram@,
            ids_by_group(analysis.kinds@),
            max_bins as int,
            timeline.count as int,
            timeline.bin_ms,
            unboxed(timeline.series@),
        ),
{
    let kinds = analysis.kinds.iter();
    let mut slots: Vec<Vec<u16>> = Vec::new();
    let mut names: Vec<String> = Vec::new();
    let mut g: usize = 0;
    while g < 8
        invariant
            g <= 8,
            slots@.len() == g,
            names@.len() == g,
            kinds@.len() == analysis.kinds@.len(),
            kinds@.len() <= 65536,
            forall|i: int| 0 <= i < kinds@.len() ==> (#[trigger] kinds@[i])@ == analysis.kinds@[i],
            forall|k: int|
                0 <= k < g ==> (#[trigger] slots@[k])@ == ids_in(analysis.kinds@, GROUPS@[k])
                    && slots@[k]@.no_duplicates(),
            forall|k: int| 0 <= k < g ==> (#[trigger] names@[k])@ == GROUPS@[k].text(),
        decreases 8 - g,
    {
        slots.push(ids_of(kinds, GROUPS[g], Ghost(analysis.kinds@)));
        names.push(GROUPS[g].as_str().to_owned());
        g = g + 1;
    }
    assert(unboxed(slots@) =~= ids_by_group(analysis.kinds@));
    let (count, bin_ms, series) = downsample(&analysis.histogram, &slots, max_bins);
    Series { start_ms: analysis.histogram.start_ms(), bin_ms, count, series, names }
}

/// Which kinds are of a group and occur.
pub open spec fn of_group(kinds: Seq<EventKind>, counts: Seq<u64>, group: Seq<char>) -> Seq<bool> {
    Seq::new(kinds.len(), |i: int| kinds[i].group.text() == group && counts[i] > 0)
}

/// What the kinds of a group are ordered by.
pub open spec fn kind_keys(counts: Seq<u64>) -> Seq<(u64, u64)> {
    Seq::new(counts.len(), |i: int| (order::flipped(counts[i]), i as u64))
}

/// The kinds of a group that occur, the busiest first.
pub open spec fn busiest(kinds: Seq<EventKind>, counts: Seq<u64>, group: Seq<char>) -> Seq<usize> {
    order::ordered_picks(of_group(kinds, counts, group), kind_keys(counts))
}

/// Kind ids.
pub open spec fn as_ids(list: Seq<usize>) -> Seq<u16> {
    Seq::new(list.len(), |i: int| list[i] as u16)
}

/// The kinds behind each series of a group: the busiest have one of their own, and
/// everything past the cap folds into one bucket rather than being dropped or
/// given a made-up colour.
pub open spec fn folded(list: Seq<usize>) -> Seq<Seq<u16>> {
    if list.len() <= MAX_SERIES {
        Seq::new(list.len(), |i: int| seq![list[i] as u16])
    } else {
        Seq::new(MAX_SERIES as nat, |i: int| seq![list[i] as u16]).push(
            as_ids(list.skip(MAX_SERIES as int)),
        )
    }
}

/// What each series of a group is called.
pub open spec fn folded_names(kinds: Seq<EventKind>, list: Seq<usize>) -> Seq<Seq<char>> {
    if list.len() <= MAX_SERIES {
        Seq::new(list.len(), |i: int| kinds[list[i] as int].name)
    } else {
        Seq::new(MAX_SERIES as nat, |i: int| kinds[list[i] as int].name).push(
            "other ("@ + text::digits((list.len() - MAX_SERIES) as nat) + ")"@,
        )
    }
}

/// The kinds of a group that occur, the busiest first.
fn busiest_of(analysis: &Analysis, group: &str) -> (list: Vec<usize>)
    requires
        analysis.wf(),
    ensures
        list@ == busiest(analysis.kinds@, analysis.counts@, group@),
        list@.no_duplicates(),
        forall|i: int| 0 <= i < list@.len() ==> #[trigger] list@[i] < analysis.kinds@.len(),
{
    let kinds = analysis.kinds.iter();
    let counts = &analysis.counts;
    let mut wanted: Vec<bool> = Vec::new();
    let mut keys: Vec<(u64, u64)> = Vec::new();
    let mut i: usize = 0;
    while i < kinds.len()
        invariant
            i <= kinds@.len(),
            kinds@.len() == analysis.kinds@.len(),
            kinds@.len() == counts@.len(),
            forall|k: int| 0 <= k < kinds@.len() ==> (#[trigger] kinds@[k])@ == analysis.kinds@[k],
            wanted@ == of_group(analysis.kinds@, counts@, group@).take(i as int),
            keys@ == kind_keys(counts@).take(i as int),
        decreases kinds@.len() - i,
    {
        assert(kinds@[i as int]@ == analysis.kinds@[i as int]);
        wanted.push(text::same(kinds[i].group.as_str(), group) && counts[i] > 0);
        keys.push((u64::MAX - counts[i], i as u64));
        i = i + 1;
        assert(wanted@ =~= of_group(analysis.kinds@, counts@, group@).take(i as int));
        assert(keys@ =~= kind_keys(counts@).take(i as int));
    }
    assert(wanted@ =~= of_group(analysis.kinds@, counts@, group@));
    assert(keys@ =~= kind_keys(counts@));
    order::sort_picked(&wanted, &keys)
}

/// One group over time, broken down by kind — the connection event rate by type,
/// the message mix by command, and so on.
pub fn timeline_group(analysis: &Analysis, group: &str, max_bins: usize) -> (timeline: Series)
    requires
        analysis.wf(),
    ensures
        timeline.start_ms == analysis.histogram@.grid.start,
        ({
            let list = busiest(analysis.kinds@, analysis.counts@, group@);
            &&& crate::view::filter::texts(timeline.names@) == folded_names(analysis.kinds@, list)
            &&& is_sampled(
                analysis.histogram@,
                folded(list),
                max_bins as int,
                timeline.count as int,
                timeline.bin_ms,
                unboxed(timeline.series@),
            )
        }),
{
    let list = busiest_of(analysis, group);
    let kinds = analysis.kinds.iter();
    let mut slots: Vec<Vec<u16>> = Vec::new();
    let mut names: Vec<String> = Vec::new();
    let own: usize = if list.len() < MAX_SERIES {
        list.len()
    } else {
        MAX_SERIES
    };
    let mut i: usize = 0;
    while i < own
        invariant
            i <= own <= list@.len(),
            slots@.len() == i,
            names@.len() == i,
            kinds@.len() == analysis.kinds@.len(),
            kinds@.len() <= 65536,
            forall|k: int| 0 <= k < kinds@.len() ==> (#[trigger] kinds@[k])@ == analysis.kinds@[k],
            forall|k: int| 0 <= k < list@.len() ==> #[trigger] list@[k] < kinds@.len(),
            forall|k: int| 0 <= k < i ==> (#[trigger] slots@[k])@ == seq![list@[k] as u16],
            forall|k: int|
                0 <= k < i ==> (#[trigger] names@[k])@ == analysis.kinds@[list@[k] as int].name,
        decreases own - i,
    {
        let mut one: Vec<u16> = Vec::new();
        one.push(list[i] as u16);
        assert(one@ =~= seq![list@[i as int] as u16]);
        slots.push(one);
        names.push(kinds[list[i]].name.clone());
        i = i + 1;
    }
    if list.len() > MAX_SERIES {
        let mut rest: Vec<u16> = Vec::new();
        let mut k: usize = MAX_SERIES;
        while k < list.len()
            invariant
                MAX_SERIES <= k <= list@.len(),
                list@.no_duplicates(),
                kinds@.len() <= 65536,
                forall|j: int| 0 <= j < list@.len() ==> #[trigger] list@[j] < kinds@.len(),
                rest@ == as_ids(list@.subrange(MAX_SERIES as int, k as int)),
            decreases list@.len() - k,
        {
            rest.push(list[k] as u16);
            k = k + 1;
            assert(rest@ =~= as_ids(list@.subrange(MAX_SERIES as int, k as int)));
        }
        assert(list@.subrange(MAX_SERIES as int, k as int) =~= list@.skip(MAX_SERIES as int));
        assert(rest@.no_duplicates()) by {
            assert forall|a: int, b: int|
                0 <= a < rest@.len() && 0 <= b < rest@.len() && a != b implies rest@[a]
                != rest@[b] by {
                assert(list@[MAX_SERIES + a] != list@[MAX_SERIES + b]);
            }
        }
        slots.push(rest);
        let mut name: String = "other (".to_owned();
        name.append(text::decimal((list.len() - MAX_SERIES) as u64).as_str());
        name.append(")");
        names.push(name);
    }
    assert(unboxed(slots@) =~= folded(list@)) by {
        assert forall|k: int| 0 <= k < slots@.len() implies unboxed(slots@)[k] == folded(
            list@,
        )[k] by {
            assert(slots@[k]@ == unboxed(slots@)[k]);
        }
    }
    assert(crate::view::filter::texts(names@) =~= folded_names(analysis.kinds@, list@)) by {
        assert forall|k: int| 0 <= k < names@.len() implies crate::view::filter::texts(names@)[k]
            == folded_names(analysis.kinds@, list@)[k] by {
            assert(names@[k]@ == crate::view::filter::texts(names@)[k]);
        }
    }
    let (count, bin_ms, series) = downsample(&analysis.histogram, &slots, max_bins);
    Series { start_ms: analysis.histogram.start_ms(), bin_ms, count, series, names }
}

/// How many events a group has.
pub open spec fn group_total(kinds: Seq<EventKind>, counts: Seq<u64>, group: Group) -> nat
    decreases kinds.len(),
{
    if kinds.len() == 0 {
        0
    } else {
        group_total(kinds.drop_last(), counts, group) + if kinds.last().group == group {
            counts[kinds.len() - 1] as nat
        } else {
            0
        }
    }
}

/// How many events every group has, held at `u64::MAX`.
pub open spec fn group_totals(kinds: Seq<EventKind>, counts: Seq<u64>) -> Seq<u64> {
    Seq::new(8, |g: int| latency::capped(group_total(kinds, counts, GROUPS@[g]) as int, 0))
}

/// The groups that occur, the busiest first.
pub open spec fn present(totals: Seq<u64>) -> Seq<usize> {
    order::ordered_picks(
        Seq::new(totals.len(), |g: int| totals[g] > 0),
        Seq::new(totals.len(), |g: int| (order::flipped(totals[g]), 0u64)),
    )
}

/// How many events a group has, held at `u64::MAX`.
fn total_of(analysis: &Analysis, group: Group) -> (total: u64)
    requires
        analysis.wf(),
    ensures
        total == latency::capped(
            group_total(analysis.kinds@, analysis.counts@, group) as int,
            0,
        ),
{
    let kinds = analysis.kinds.iter();
    let ghost model = analysis.kinds@;
    let mut total: u64 = 0;
    let mut i: usize = 0;
    while i < kinds.len()
        invariant
            i <= kinds@.len(),
            kinds@.len() == model.len(),
            model == analysis.kinds@,
            analysis.counts@.len() == model.len(),
            forall|k: int| 0 <= k < kinds@.len() ==> (#[trigger] kinds@[k])@ == model[k],
            total == latency::capped(
                group_total(model.take(i as int), analysis.counts@, group) as int,
                0,
            ),
        decreases kinds@.len() - i,
    {
        assert(model.take(i + 1).drop_last() =~= model.take(i as int));
        assert(kinds@[i as int]@ == model[i as int]);
        if kinds[i].group == group {
            total = total.saturating_add(analysis.counts[i]);
        }
        i = i + 1;
    }
    assert(model.take(i as int) =~= model);
    total
}

/// Groups present in the archive, busiest first, for the breakdown selector.
pub fn groups_present(analysis: &Analysis) -> (groups: Vec<&'static str>)
    requires
        analysis.wf(),
    ensures
        ({
            let order = present(group_totals(analysis.kinds@, analysis.counts@));
            &&& groups@.len() == order.len()
            &&& forall|i: int|
                0 <= i < groups@.len() ==> (#[trigger] groups@[i])@
                    == GROUPS@[order[i] as int].text()
        }),
{
    let ghost totals = group_totals(analysis.kinds@, analysis.counts@);
    let ghost occur = Seq::new(8, |g: int| totals[g] > 0);
    let ghost ranks = Seq::new(8, |g: int| (order::flipped(totals[g]), 0u64));
    let mut wanted: Vec<bool> = Vec::new();
    let mut keys: Vec<(u64, u64)> = Vec::new();
    let mut g: usize = 0;
    while g < 8
        invariant
            g <= 8,
            analysis.wf(),
            totals == group_totals(analysis.kinds@, analysis.counts@),
            occur == Seq::new(8, |g: int| totals[g] > 0),
            ranks == Seq::new(8, |g: int| (order::flipped(totals[g]), 0u64)),
            wanted@ == occur.take(g as int),
            keys@ == ranks.take(g as int),
        decreases 8 - g,
    {
        let total: u64 = total_of(analysis, GROUPS[g]);
        assert(total == totals[g as int]);
        wanted.push(total > 0);
        keys.push((u64::MAX - total, 0));
        g = g + 1;
        assert(wanted@ =~= occur.take(g as int));
        assert(keys@ =~= ranks.take(g as int));
    }
    assert(wanted@ =~= occur);
    assert(keys@ =~= ranks);
    let order = order::sort_picked(&wanted, &keys);
    assert(order@ == present(totals));
    let mut groups: Vec<&'static str> = Vec::new();
    let mut i: usize = 0;
    while i < order.len()
        invariant
            i <= order@.len(),
            groups@.len() == i,
            forall|k: int| 0 <= k < order@.len() ==> #[trigger] order@[k] < 8,
            forall|k: int|
                0 <= k < i ==> (#[trigger] groups@[k])@ == GROUPS@[order@[k] as int].text(),
        decreases order@.len() - i,
    {
        groups.push(GROUPS[order[i]].as_str());
        i = i + 1;
    }
    groups
}

/// How many of some events are of some kinds.
pub open spec fn among(events: Seq<(u64, u16)>, kinds: Seq<u16>) -> nat
    decreases events.len(),
{
    if events.len() == 0 {
        0
    } else {
        among(events.drop_last(), kinds) + if kinds.contains(events.last().1) {
            1nat
        } else {
            0nat
        }
    }
}

/// What the first merged bins of a series come to.
pub open spec fn across(
    events: Seq<(u64, u16)>,
    grid: Grid,
    kinds: Seq<u16>,
    merge: int,
    bins: int,
) -> nat
    decreases bins,
{
    if bins <= 0 {
        0
    } else {
        across(events, grid, kinds, merge, bins - 1) + tally_in(
            events,
            grid,
            kinds,
            merge,
            bins - 1,
        )
    }
}

proof fn lemma_across_step(
    events: Seq<(u64, u16)>,
    grid: Grid,
    kinds: Seq<u16>,
    merge: int,
    bins: int,
)
    ensures
        events.len() == 0 ==> across(events, grid, kinds, merge, bins) == 0,
        events.len() > 0 ==> across(events, grid, kinds, merge, bins) == across(
            events.drop_last(),
            grid,
            kinds,
            merge,
            bins,
        ) + if kinds.contains(events.last().1) && 0 <= grid.slot(events.last().0 as int) / merge
            < bins {
            1nat
        } else {
            0nat
        },
    decreases bins,
{
    if bins > 0 {
        lemma_across_step(events, grid, kinds, merge, bins - 1);
    }
}

proof fn lemma_across(
    events: Seq<(u64, u16)>,
    grid: Grid,
    kinds: Seq<u16>,
    merge: int,
    bins: int,
)
    requires
        forall|i: int|
            0 <= i < events.len() ==> 0 <= grid.slot(#[trigger] events[i].0 as int) / merge < bins,
    ensures
        across(events, grid, kinds, merge, bins) == among(events, kinds),
    decreases events.len(),
{
    lemma_across_step(events, grid, kinds, merge, bins);
    if events.len() > 0 {
        let rest = events.drop_last();
        assert forall|i: int| 0 <= i < rest.len() implies 0 <= grid.slot(
            #[trigger] rest[i].0 as int,
        ) / merge < bins by {
            assert(rest[i] == events[i]);
        }
        assert(0 <= grid.slot(events[events.len() - 1].0 as int) / merge < bins);
        lemma_across(rest, grid, kinds, merge, bins);
    }
}

/// Downsampling loses no event: the merged bins of a series come to exactly the
/// events of its kinds.
pub proof fn law_downsampling_loses_nothing(
    timeline: Timeline,
    kinds: Seq<u16>,
    max_bins: int,
)
    requires
        timeline.valid(),
        timeline.grid.bins > 0,
        max_bins > 0,
    ensures
        ({
            let merge = merged(timeline.grid.bins, max_bins);
            across(
                timeline.events,
                timeline.grid,
                kinds,
                merge,
                pieces(timeline.grid.bins, merge),
            ) == among(timeline.events, kinds)
        }),
{
    let grid = timeline.grid;
    let events = timeline.events;
    let merge = merged(grid.bins, max_bins);
    law_downsampled_to_at_most_the_requested_bins(grid.bins, max_bins);
    assert forall|i: int| 0 <= i < events.len() implies 0 <= grid.slot(
        #[trigger] events[i].0 as int,
    ) / merge < pieces(grid.bins, merge) by {
        if events[i].0 >= grid.start {
            lemma_div_pos_is_pos(events[i].0 - grid.start, grid.width);
        }
        lemma_merged_bin(grid.slot(events[i].0 as int), grid.bins, merge);
    }
    lemma_across(events, grid, kinds, merge, pieces(grid.bins, merge));
}

/// What the first of some series come to, each over all its time.
pub open spec fn spread(events: Seq<(u64, u16)>, slots: Seq<Seq<u16>>, upto: int) -> nat
    decreases upto,
{
    if upto <= 0 {
        0
    } else {
        spread(events, slots, upto - 1) + among(events, slots[upto - 1])
    }
}

/// How many of some events pass a test on their kind.
pub open spec fn passing(events: Seq<(u64, u16)>, test: spec_fn(u16) -> bool) -> nat
    decreases events.len(),
{
    if events.len() == 0 {
        0
    } else {
        passing(events.drop_last(), test) + if test(events.last().1) {
            1nat
        } else {
            0nat
        }
    }
}

/// Whether every kind that passes a test has exactly one series, its home.
spec fn housed(
    slots: Seq<Seq<u16>>,
    test: spec_fn(u16) -> bool,
    home: spec_fn(u16) -> int,
) -> bool {
    &&& forall|kind: u16, slot: int|
        #![trigger slots[slot].contains(kind)]
        0 <= slot < slots.len() ==> (slots[slot].contains(kind) <==> test(kind) && home(kind)
            == slot)
    &&& forall|kind: u16| #[trigger] test(kind) ==> 0 <= home(kind) < slots.len()
}

proof fn lemma_spread_step(
    events: Seq<(u64, u16)>,
    slots: Seq<Seq<u16>>,
    test: spec_fn(u16) -> bool,
    home: spec_fn(u16) -> int,
    upto: int,
)
    requires
        housed(slots, test, home),
        upto <= slots.len(),
    ensures
        events.len() == 0 ==> spread(events, slots, upto) == 0,
        events.len() > 0 ==> spread(events, slots, upto) == spread(
            events.drop_last(),
            slots,
            upto,
        ) + if test(events.last().1) && home(events.last().1) < upto {
            1nat
        } else {
            0nat
        },
    decreases upto,
{
    if upto > 0 {
        lemma_spread_step(events, slots, test, home, upto - 1);
        if events.len() > 0 {
            assert(slots[upto - 1].contains(events.last().1) <==> test(events.last().1) && home(
                events.last().1,
            ) == upto - 1);
        }
    } else if events.len() > 0 {
        assert(test(events.last().1) ==> 0 <= home(events.last().1));
    }
}

proof fn lemma_spread(
    events: Seq<(u64, u16)>,
    slots: Seq<Seq<u16>>,
    test: spec_fn(u16) -> bool,
    home: spec_fn(u16) -> int,
)
    requires
        housed(slots, test, home),
    ensures
        spread(events, slots, slots.len() as int) == passing(events, test),
    decreases events.len(),
{
    lemma_spread_step(events, slots, test, home, slots.len() as int);
    if events.len() > 0 {
        lemma_spread(events.drop_last(), slots, test, home);
        assert(test(events.last().1) ==> home(events.last().1) < slots.len());
    }
}

proof fn lemma_all_pass(events: Seq<(u64, u16)>, test: spec_fn(u16) -> bool)
    requires
        forall|i: int| 0 <= i < events.len() ==> test((#[trigger] events[i]).1),
    ensures
        passing(events, test) == events.len(),
    decreases events.len(),
{
    if events.len() > 0 {
        let rest = events.drop_last();
        assert forall|i: int| 0 <= i < rest.len() implies test((#[trigger] rest[i]).1) by {
            assert(rest[i] == events[i]);
        }
        assert(test(events[events.len() - 1].1));
        lemma_all_pass(rest, test);
    }
}

/// Every event of the archive is on its timeline once: the series of the groups
/// come to all the events there are.
pub proof fn law_the_timeline_shows_every_event_once(
    events: Seq<(u64, u16)>,
    kinds: Seq<EventKind>,
)
    requires
        kinds.len() <= 65536,
        forall|i: int| 0 <= i < events.len() ==> (#[trigger] events[i]).1 < kinds.len(),
    ensures
        spread(events, ids_by_group(kinds), 8) == events.len(),
{
    let slots = ids_by_group(kinds);
    let test = |kind: u16| kind < kinds.len();
    let home = |kind: u16| group_place(kinds[kind as int].group);
    assert forall|kind: u16, slot: int|
        #![trigger slots[slot].contains(kind)]
        0 <= slot < slots.len() implies (slots[slot].contains(kind) <==> test(kind) && home(kind)
        == slot) by {
        let group = GROUPS@[slot];
        lemma_ids_in(kinds, group);
        lemma_group_place(group, slot);
        if slots[slot].contains(kind) {
            let i = choose|i: int| 0 <= i < slots[slot].len() && slots[slot][i] == kind;
            assert(ids_in(kinds, group)[i] == kind);
        }
        if test(kind) && home(kind) == slot {
            lemma_group_place(kinds[kind as int].group, slot);
            assert(ids_in(kinds, group).contains(kind));
        }
    }
    lemma_spread(events, slots, test, home);
    lemma_all_pass(events, test);
}

/// Where a group stands in [`GROUPS`].
pub open spec fn group_place(group: Group) -> int {
    match group {
        Group::EbpfMessage => 0,
        Group::EbpfConnection => 1,
        Group::EbpfMempool => 2,
        Group::EbpfValidation => 3,
        Group::Rpc => 4,
        Group::P2p => 5,
        Group::Log => 6,
        Group::Ipc => 7,
    }
}

proof fn lemma_group_place(group: Group, at: int)
    requires
        0 <= at < 8,
    ensures
        0 <= group_place(group) < 8,
        GROUPS@[at] == group <==> group_place(group) == at,
{
}

/// Where a kind has its series.
spec fn series_of(list: Seq<usize>, kind: u16) -> int {
    let at = list.index_of(kind as usize);
    if at < MAX_SERIES {
        at
    } else {
        MAX_SERIES as int
    }
}

/// Folding the kinds past the cap into one bucket loses nothing: the series of a
/// group come to all the events of the kinds listed.
pub proof fn law_folding_loses_nothing(events: Seq<(u64, u16)>, list: Seq<usize>)
    requires
        list.no_duplicates(),
        forall|i: int| 0 <= i < list.len() ==> #[trigger] list[i] < 65536,
    ensures
        spread(events, folded(list), folded(list).len() as int) == among(events, as_ids(list)),
{
    let slots = folded(list);
    let test = |kind: u16| list.contains(kind as usize);
    let home = |kind: u16| series_of(list, kind);
    assert forall|kind: u16, slot: int|
        #![trigger slots[slot].contains(kind)]
        0 <= slot < slots.len() implies (slots[slot].contains(kind) <==> test(kind) && home(kind)
        == slot) by {
        if slot < MAX_SERIES {
            assert(slots[slot] =~= seq![list[slot] as u16]);
            assert(slots[slot][0] == list[slot] as u16);
            if slots[slot].contains(kind) {
                assert(list[slot] == kind as usize);
                assert(list.contains(kind as usize));
                assert(list[list.index_of(kind as usize)] == kind as usize);
            }
            if test(kind) && home(kind) == slot {
                assert(list[list.index_of(kind as usize)] == kind as usize);
            }
        } else {
            let rest = list.skip(MAX_SERIES as int);
            assert(slots[slot] == as_ids(rest));
            if slots[slot].contains(kind) {
                let i = choose|i: int| 0 <= i < as_ids(rest).len() && as_ids(rest)[i] == kind;
                assert(list[MAX_SERIES + i] == kind as usize);
                assert(list.contains(kind as usize));
                assert(list[list.index_of(kind as usize)] == kind as usize);
            }
            if test(kind) && home(kind) == slot {
                let at = list.index_of(kind as usize);
                assert(list[at] == kind as usize);
                assert(as_ids(rest)[at - MAX_SERIES] == kind);
            }
        }
    }
    assert forall|kind: u16| #[trigger] test(kind) implies 0 <= home(kind) < slots.len() by {
        let at = list.index_of(kind as usize);
        assert(0 <= at < list.len());
    }
    lemma_spread(events, slots, test, home);
    lemma_passing_among(events, list);
}

proof fn lemma_passing_among(events: Seq<(u64, u16)>, list: Seq<usize>)
    requires
        forall|i: int| 0 <= i < list.len() ==> #[trigger] list[i] < 65536,
    ensures
        passing(events, |kind: u16| list.contains(kind as usize)) == among(events, as_ids(list)),
    decreases events.len(),
{
    if events.len() > 0 {
        lemma_passing_among(events.drop_last(), list);
        let kind = events.last().1;
        let ids = as_ids(list);
        if list.contains(kind as usize) {
            let i = choose|i: int| 0 <= i < list.len() && list[i] == kind as usize;
            assert(ids[i] == kind);
        }
        if ids.contains(kind) {
            let i = choose|i: int| 0 <= i < ids.len() && ids[i] == kind;
            assert(list[i] == kind as usize);
        }
    }
}

/// The series of a group leave out no event of it.
pub proof fn law_a_group_timeline_shows_every_event_of_its_group(
    analysis: Analysis,
    group: Seq<char>,
)
    requires
        analysis.wf(),
    ensures
        ({
            let events = analysis.histogram@.events;
            let list = busiest(analysis.kinds@, analysis.counts@, group);
            spread(events, folded(list), folded(list).len() as int) == passing(
                events,
                |kind: u16| analysis.kinds@[kind as int].group.text() == group,
            )
        }),
{
    let events = analysis.histogram@.events;
    let kinds = analysis.kinds@;
    let counts = analysis.counts@;
    let list = busiest(kinds, counts, group);
    let wanted = of_group(kinds, counts, group);
    assert forall|row: usize| row < wanted.len() && wanted[row as int] implies #[trigger] list.contains(
        row,
    ) by {
        order::law_exactly_the_wanted_rows_are_listed(wanted, kind_keys(counts), row);
    }
    order::law_exactly_the_wanted_rows_are_listed(wanted, kind_keys(counts), 0);
    law_folding_loses_nothing(events, list);
    lemma_passing_among(events, list);
    let test = |kind: u16| kinds[kind as int].group.text() == group;
    assert forall|i: int| 0 <= i < events.len() implies list.contains(
        (#[trigger] events[i]).1 as usize,
    ) == test(events[i].1) by {
        let kind = events[i].1;
        lemma_an_event_counts(events, i);
        assert(counts[kind as int] == histogram::of_kind(events, kind as int));
        if test(kind) {
            assert(wanted[kind as int]);
            assert(list.contains(kind as usize));
        }
        if list.contains(kind as usize) {
            let k = choose|k: int| 0 <= k < list.len() && list[k] == kind as usize;
            assert(wanted[list[k] as int]);
        }
    }
    lemma_same_pass(events, |kind: u16| list.contains(kind as usize), test);
}

proof fn lemma_an_event_counts(events: Seq<(u64, u16)>, i: int)
    requires
        0 <= i < events.len(),
    ensures
        histogram::of_kind(events, events[i].1 as int) > 0,
    decreases events.len(),
{
    if i < events.len() - 1 {
        lemma_an_event_counts(events.drop_last(), i);
    }
}

proof fn lemma_same_pass(
    events: Seq<(u64, u16)>,
    a: spec_fn(u16) -> bool,
    b: spec_fn(u16) -> bool,
)
    requires
        forall|i: int| 0 <= i < events.len() ==> a((#[trigger] events[i]).1) == b(events[i].1),
    ensures
        passing(events, a) == passing(events, b),
    decreases events.len(),
{
    if events.len() > 0 {
        let rest = events.drop_last();
        assert forall|i: int| 0 <= i < rest.len() implies a((#[trigger] rest[i]).1) == b(
            rest[i].1,
        ) by {
            assert(rest[i] == events[i]);
        }
        assert(a(events[events.len() - 1].1) == b(events[events.len() - 1].1));
        lemma_same_pass(rest, a, b);
    }
}

/// A merged bin shows the events of its slice of time: one more event adds one to the bin
/// whose slice it is in if its kind is one of those shown, and to no other. The slices are
/// as wide as the bins that were merged, and follow each other from the start of the grid
/// on; what comes before that is in the first.
pub proof fn law_an_event_is_shown_in_the_bin_of_its_time(
    events: Seq<(u64, u16)>,
    event: (u64, u16),
    grid: Grid,
    kinds: Seq<u16>,
    merge: int,
    at: int,
)
    requires
        grid.width > 0,
        merge > 0,
        at >= 0,
    ensures
        ({
            let slice = grid.width * merge;
            tally_in(events.push(event), grid, kinds, merge, at) == tally_in(
                events,
                grid,
                kinds,
                merge,
                at,
            ) + if kinds.contains(event.1) && (grid.start + at * slice <= event.0 < grid.start + (at
                + 1) * slice || event.0 < grid.start && at == 0) {
                1nat
            } else {
                0nat
            }
        }),
        tally_in(Seq::empty(), grid, kinds, merge, at) == 0,
{
    assert(events.push(event).drop_last() =~= events);
    let slice = grid.width * merge;
    let span = event.0 - grid.start;
    assert(slice > 0) by (nonlinear_arith)
        requires
            grid.width > 0,
            merge > 0,
            slice == grid.width * merge,
    ;
    assert(at * slice >= 0) by (nonlinear_arith)
        requires
            at >= 0,
            slice > 0,
    ;
    histogram::lemma_slice(span, slice, at);
    if span >= 0 {
        lemma_div_denominator(span, grid.width, merge);
    } else {
        assert(0int / merge == 0) by (nonlinear_arith)
            requires
                merge > 0,
        ;
    }
}

/// No more bins are merged than it takes: with one fewer in each, there would be more of
/// them than asked for. Where there are no more to begin with, none are merged.
pub proof fn law_no_more_is_merged_than_must_be(bins: int, max_bins: int)
    requires
        bins > 0,
        max_bins > 0,
    ensures
        merged(bins, max_bins) * max_bins >= bins,
        (merged(bins, max_bins) - 1) * max_bins < bins,
        bins <= max_bins ==> merged(bins, max_bins) == 1 && pieces(bins, 1) == bins,
{
    let merge = merged(bins, max_bins);
    histogram::lemma_slice(bins + max_bins - 1, max_bins, merge);
    assert((merge + 1) * max_bins == merge * max_bins + max_bins) by (nonlinear_arith);
    assert((merge - 1) * max_bins == merge * max_bins - max_bins) by (nonlinear_arith);
    if bins <= max_bins {
        histogram::lemma_slice(bins + max_bins - 1, max_bins, 1);
    }
}

/// The series of a group are its kinds that occur, the busiest first and the one that was
/// met first where two are as busy. Up to eight have a series of their own; where there are
/// more, the rest share one more, which is called by how many they are.
pub proof fn law_the_busiest_kinds_have_a_series_of_their_own(
    kinds: Seq<EventKind>,
    counts: Seq<u64>,
    group: Seq<char>,
    kind: usize,
)
    requires
        kinds.len() == counts.len(),
        kinds.len() <= 65536,
    ensures
        ({
            let list = busiest(kinds, counts, group);
            let (slots, names) = (folded(list), folded_names(kinds, list));
            &&& list.no_duplicates()
            &&& list.contains(kind) <==> kind < kinds.len() && kinds[kind as int].group.text()
                == group && counts[kind as int] > 0
            &&& forall|i: int, j: int|
                #![trigger list[i], list[j]]
                0 <= i < j < list.len() ==> {
                    let (a, b) = (list[i], list[j]);
                    counts[a as int] > counts[b as int] || counts[a as int] == counts[b as int] && a
                        < b
                }
            &&& slots.len() == names.len()
            &&& list.len() <= 8 ==> slots.len() == list.len()
            &&& list.len() > 8 ==> slots.len() == 9 && slots[8].len() == list.len() - 8 && names[8]
                == "other ("@ + text::digits((list.len() - 8) as nat) + ")"@
            &&& forall|i: int|
                0 <= i < list.len() && i < 8 ==> (#[trigger] slots[i]).len() == 1 && slots[i][0]
                    == list[i] && names[i] == kinds[list[i] as int].name
            &&& forall|i: int| 8 <= i < list.len() ==> slots[8][i - 8] == #[trigger] list[i]
        }),
{
    let wanted = of_group(kinds, counts, group);
    let keys = kind_keys(counts);
    let list = busiest(kinds, counts, group);
    order::law_exactly_the_wanted_rows_are_listed(wanted, keys, kind);
    order::law_listed_rows_ascend(wanted, keys);
    if list.contains(kind) {
        let i = choose|i: int| 0 <= i < list.len() && list[i] == kind;
        assert(wanted[list[i] as int]);
    }
    assert forall|i: int| 0 <= i < list.len() implies #[trigger] list[i] < kinds.len() by {}
    assert forall|i: int, j: int|
        #![trigger list[i], list[j]]
        0 <= i < j < list.len() implies {
        let (a, b) = (list[i], list[j]);
        counts[a as int] > counts[b as int] || counts[a as int] == counts[b as int] && a < b
    } by {
        assert(list[i] < kinds.len() && list[j] < kinds.len());
        assert(keys[list[i] as int].1 == list[i] && keys[list[j] as int].1 == list[j]);
    }
    let slots = folded(list);
    assert forall|i: int| 8 <= i < list.len() implies slots[8][i - 8] == #[trigger] list[i] by {
        assert(list.skip(8)[i - 8] == list[i]);
        assert(slots[8] == as_ids(list.skip(8)));
    }
}

/// The groups that occur are listed the busiest first, each once.
pub proof fn law_the_busiest_groups_come_first(totals: Seq<u64>, group: usize)
    requires
        totals.len() <= usize::MAX,
    ensures
        ({
            let list = present(totals);
            &&& list.no_duplicates()
            &&& list.contains(group) <==> group < totals.len() && totals[group as int] > 0
            &&& forall|i: int, j: int|
                #![trigger list[i], list[j]]
                0 <= i < j < list.len() ==> {
                    let (a, b) = (list[i], list[j]);
                    totals[a as int] > totals[b as int] || totals[a as int] == totals[b as int] && a
                        < b
                }
        }),
{
    let wanted = Seq::new(totals.len(), |g: int| totals[g] > 0);
    let keys = Seq::new(totals.len(), |g: int| (order::flipped(totals[g]), 0u64));
    let list = present(totals);
    order::law_exactly_the_wanted_rows_are_listed(wanted, keys, group);
    order::law_listed_rows_ascend(wanted, keys);
    if list.contains(group) {
        let i = choose|i: int| 0 <= i < list.len() && list[i] == group;
        assert(wanted[list[i] as int]);
    }
    assert forall|i: int, j: int|
        #![trigger list[i], list[j]]
        0 <= i < j < list.len() implies {
        let (a, b) = (list[i], list[j]);
        totals[a as int] > totals[b as int] || totals[a as int] == totals[b as int] && a < b
    } by {
        assert(list[i] < wanted.len() && list[j] < wanted.len());
    }
}

} // verus!
