//! Totals, per-file detail and the category/group/kind breakdown.

use crate::analysis;
use crate::analysis::{Analysis, FileRecord, FileSummary};
use crate::exchange;
use crate::kind::{Category, EventKind, KindInfo};
use crate::latency;
use crate::order;
use crate::relay::Ratio;
use crate::store;
use crate::store::StoppedBecause;
use vstd::prelude::*;

verus! {

/// One kind of event.
#[derive(Debug)]
pub struct KindRow<'a> {
    pub id: u16,
    pub info: &'a KindInfo,
    pub category: Category,
    pub label: String,
    pub count: u64,
    /// How many of all events are of this kind.
    pub share: Ratio,
}

/// What the whole session comes to.
#[derive(Debug, Clone, Copy, PartialEq, Eq)]
pub struct Totals {
    pub events: u64,
    pub decode_errors: u64,
    pub peers: usize,
    pub kinds: usize,
    pub first_timestamp: Option<u64>,
    pub last_timestamp: Option<u64>,
    pub duration_ms: u64,
    pub compressed_bytes: u64,
    pub decompressed_bytes: u64,
    pub truncated: bool,
}

/// What was kept of the events.
#[derive(Debug, Clone, Copy, PartialEq, Eq)]
pub struct Kept {
    pub retained: usize,
    pub bytes_used: u64,
    pub budget_bytes: u64,
    pub full: bool,
    pub stripped_events: u64,
    pub stripped_bytes: u64,
    pub stopped_because: Option<&'static str>,
}

/// Totals, per-file detail and the breakdown by kind, the commonest first.
#[derive(Debug)]
pub struct Summary<'a> {
    pub files: &'a Vec<FileSummary>,
    pub totals: Totals,
    pub retention: Kept,
    pub breakdown: Vec<KindRow<'a>>,
}

/// Progress while a file is still loading.
#[derive(Debug, Clone, Copy, PartialEq, Eq)]
pub struct Progress {
    pub events: u64,
    pub compressed_bytes: u64,
    pub decompressed_bytes: u64,
    pub peers: usize,
    pub decode_errors: u64,
}

/// File bytes read of some files.
pub open spec fn compressed(files: Seq<FileRecord>) -> nat
    decreases files.len(),
{
    if files.len() == 0 {
        0
    } else {
        compressed(files.drop_last()) + files.last().compressed_bytes as nat
    }
}

/// Bytes some files came to once decompressed.
pub open spec fn decompressed(files: Seq<FileRecord>) -> nat
    decreases files.len(),
{
    if files.len() == 0 {
        0
    } else {
        decompressed(files.drop_last()) + files.last().decompressed_bytes as nat
    }
}

/// File bytes read, and what they came to, both held at `u64::MAX`.
fn bytes_in(files: &Vec<FileSummary>) -> (bytes: (u64, u64))
    ensures
        bytes.0 == latency::capped(compressed(analysis::file_records(files@)) as int, 0),
        bytes.1 == latency::capped(decompressed(analysis::file_records(files@)) as int, 0),
{
    let ghost all = analysis::file_records(files@);
    let mut before: u64 = 0;
    let mut after: u64 = 0;
    let mut i: usize = 0;
    while i < files.len()
        invariant
            i <= files@.len(),
            all == analysis::file_records(files@),
            before == latency::capped(compressed(all.take(i as int)) as int, 0),
            after == latency::capped(decompressed(all.take(i as int)) as int, 0),
        decreases files@.len() - i,
    {
        assert(all.take(i + 1).drop_last() =~= all.take(i as int));
        assert(all.take(i + 1).last() == files@[i as int]@);
        before = before.saturating_add(files[i].compressed_bytes);
        after = after.saturating_add(files[i].decompressed_bytes);
        i = i + 1;
    }
    assert(all.take(i as int) =~= all);
    (before, after)
}

/// What the breakdown is ordered by.
pub open spec fn breakdown_keys(counts: Seq<u64>) -> Seq<(u64, u64)> {
    Seq::new(counts.len(), |i: int| (order::flipped(counts[i]), 0u64))
}

/// Whether this is the row of a kind.
pub open spec fn is_kind_row(
    row: KindRow<'_>,
    id: usize,
    kinds: Seq<EventKind>,
    counts: Seq<u64>,
    total: u64,
) -> bool {
    &&& row.id == id
    &&& row.info@ == kinds[id as int]
    &&& row.category == kinds[id as int].group.of()
    &&& row.label@ == kinds[id as int].label()
    &&& row.count == counts[id as int]
    &&& row.share == (Ratio { part: counts[id as int], whole: total })
}

/// Why retention stopped, in a word.
pub open spec fn reason_text(reason: Option<StoppedBecause>) -> Option<Seq<char>> {
    match reason {
        Some(StoppedBecause::Budget) => Some("budget"@),
        Some(StoppedBecause::OutOfMemory) => Some("memory"@),
        None => None,
    }
}

/// Why retention stopped, in a word.
fn reason_name(reason: Option<StoppedBecause>) -> (name: Option<&'static str>)
    ensures
        crate::view::rows::name_in(name) == reason_text(reason),
{
    match reason {
        Some(StoppedBecause::Budget) => Some("budget"),
        Some(StoppedBecause::OutOfMemory) => Some("memory"),
        None => None,
    }
}

/// What each kind of event comes to, the commonest first.
fn breakdown(analysis: &Analysis) -> (rows: Vec<KindRow<'_>>)
    requires
        analysis.wf(),
    ensures
        ({
            let order = order::order_of(breakdown_keys(analysis.counts@));
            &&& rows@.len() == analysis.kinds@.len()
            &&& order.len() == rows@.len()
            &&& forall|i: int|
                0 <= i < rows@.len() ==> is_kind_row(
                    #[trigger] rows@[i],
                    order[i],
                    analysis.kinds@,
                    analysis.counts@,
                    analysis.total_events,
                )
        }),
{
    let counts = &analysis.counts;
    let kinds = analysis.kinds.iter();
    let mut keys: Vec<(u64, u64)> = Vec::new();
    let mut i: usize = 0;
    while i < counts.len()
        invariant
            i <= counts@.len(),
            keys@ == breakdown_keys(counts@).take(i as int),
        decreases counts@.len() - i,
    {
        keys.push((u64::MAX - counts[i], 0));
        i = i + 1;
        assert(keys@ =~= breakdown_keys(counts@).take(i as int));
    }
    assert(keys@ =~= breakdown_keys(counts@));
    let order = order::sort_by_numbers(keys);
    let mut rows: Vec<KindRow<'_>> = Vec::new();
    let mut k: usize = 0;
    while k < order.len()
        invariant
            k <= order@.len(),
            rows@.len() == k,
            order@.len() == counts@.len(),
            counts@ == analysis.counts@,
            kinds@.len() == counts@.len(),
            kinds@.len() <= 65536,
            kinds@.len() == analysis.kinds@.len(),
            forall|j: int| 0 <= j < kinds@.len() ==> (#[trigger] kinds@[j])@ == analysis.kinds@[j],
            forall|j: int| 0 <= j < order@.len() ==> #[trigger] order@[j] < counts@.len(),
            forall|j: int|
                0 <= j < k ==> is_kind_row(
                    #[trigger] rows@[j],
                    order@[j],
                    analysis.kinds@,
                    analysis.counts@,
                    analysis.total_events,
                ),
        decreases order@.len() - k,
    {
        let id: usize = order[k];
        let info: &KindInfo = &kinds[id];
        rows.push(
            KindRow {
                id: id as u16,
                info,
                category: info.category(),
                label: info.label(),
                count: counts[id],
                share: Ratio { part: counts[id], whole: analysis.total_events },
            },
        );
        k = k + 1;
    }
    rows
}

/// What the whole session comes to.
pub open spec fn totals_of(analysis: Analysis) -> Totals {
    let found = analysis.findings();
    Totals {
        events: found.total_events,
        decode_errors: found.decode_errors,
        peers: found.peers.peers.len() as usize,
        kinds: found.kinds.len() as usize,
        first_timestamp: found.first,
        last_timestamp: found.last,
        duration_ms: match (found.first, found.last) {
            (Some(first), Some(last)) => exchange::since(last, first),
            _ => 0,
        },
        compressed_bytes: latency::capped(compressed(found.files) as int, 0),
        decompressed_bytes: latency::capped(decompressed(found.files) as int, 0),
        truncated: exists|i: int|
            0 <= i < analysis.files@.len() && (#[trigger] analysis.files@[i]).truncated,
    }
}

/// Totals, per-file detail and the category/group/kind breakdown.
pub fn summary(analysis: &Analysis) -> (summary: Summary<'_>)
    requires
        analysis.wf(),
    ensures
        *summary.files == analysis.files,
        summary.totals == totals_of(*analysis),
        summary.retention.retained == analysis.store@.events.len(),
        summary.retention.bytes_used == store::cost(analysis.store@.events),
        summary.retention.budget_bytes == analysis.store@.budget,
        summary.retention.full == (analysis.store@.stopped is Some),
        summary.retention.stripped_events == analysis.stripped_events,
        summary.retention.stripped_bytes == analysis.stripped_bytes,
        crate::view::rows::name_in(summary.retention.stopped_because) == reason_text(
            analysis.store@.stopped,
        ),
        ({
            let order = order::order_of(breakdown_keys(analysis.counts@));
            &&& summary.breakdown@.len() == analysis.kinds@.len()
            &&& order.len() == summary.breakdown@.len()
            &&& forall|i: int|
                0 <= i < summary.breakdown@.len() ==> is_kind_row(
                    #[trigger] summary.breakdown@[i],
                    order[i],
                    analysis.kinds@,
                    analysis.counts@,
                    analysis.total_events,
                )
        }),
{
    let (compressed_bytes, decompressed_bytes) = bytes_in(&analysis.files);
    Summary {
        files: &analysis.files,
        totals: Totals {
            events: analysis.total_events,
            decode_errors: analysis.decode_errors,
            peers: analysis.peers.len(),
            kinds: analysis.kinds.len(),
            first_timestamp: analysis.first_timestamp,
            last_timestamp: analysis.last_timestamp,
            duration_ms: analysis.duration_ms(),
            compressed_bytes,
            decompressed_bytes,
            truncated: analysis.truncated(),
        },
        retention: Kept {
            retained: analysis.store.len(),
            bytes_used: analysis.store.bytes_used(),
            budget_bytes: analysis.store.budget_bytes(),
            full: analysis.store.is_full(),
            stripped_events: analysis.stripped_events,
            stripped_bytes: analysis.stripped_bytes,
            stopped_because: reason_name(analysis.store.stopped_because()),
        },
        breakdown: breakdown(analysis),
    }
}

/// Progress while a file is still loading.
pub fn progress(analysis: &Analysis) -> (progress: Progress)
    ensures
        ({
            let totals = totals_of(*analysis);
            progress == (Progress {
                events: totals.events,
                compressed_bytes: totals.compressed_bytes,
                decompressed_bytes: totals.decompressed_bytes,
                peers: totals.peers,
                decode_errors: totals.decode_errors,
            })
        }),
{
    let (compressed_bytes, decompressed_bytes) = bytes_in(&analysis.files);
    Progress {
        events: analysis.total_events,
        compressed_bytes,
        decompressed_bytes,
        peers: analysis.peers.len(),
        decode_errors: analysis.decode_errors,
    }
}

/// The breakdown has every kind once, the commonest first, and the one that was met first
/// where two are as common.
pub proof fn law_the_breakdown_lists_the_commonest_first(counts: Seq<u64>)
    requires
        counts.len() <= usize::MAX,
    ensures
        ({
            let order = order::order_of(breakdown_keys(counts));
            &&& order.len() == counts.len()
            &&& order.no_duplicates()
            &&& forall|i: int| 0 <= i < order.len() ==> #[trigger] order[i] < counts.len()
            &&& forall|i: int, j: int|
                #![trigger order[i], order[j]]
                0 <= i < j < order.len() ==> {
                    let (a, b) = (order[i], order[j]);
                    counts[a as int] > counts[b as int] || counts[a as int] == counts[b as int] && a
                        < b
                }
        }),
{
    let keys = breakdown_keys(counts);
    order::law_ordered_rows_ascend(keys);
    let order = order::order_of(keys);
    assert forall|i: int, j: int|
        #![trigger order[i], order[j]]
        0 <= i < j < order.len() implies {
        let (a, b) = (order[i], order[j]);
        counts[a as int] > counts[b as int] || counts[a as int] == counts[b as int] && a < b
    } by {
        assert(order[i] < keys.len() && order[j] < keys.len());
    }
}

/// A session lasts from its first event to its last, and what its files came to is what each
/// of them did: one more adds its bytes.
pub proof fn law_totals_add_up(analysis: Analysis, files: Seq<FileRecord>, file: FileRecord)
    ensures
        ({
            let totals = totals_of(analysis);
            let found = analysis.findings();
            match (found.first, found.last) {
                (Some(first), Some(last)) => totals.duration_ms == (if last >= first {
                    last - first
                } else {
                    0
                }),
                _ => totals.duration_ms == 0,
            }
        }),
        compressed(files.push(file)) == compressed(files) + file.compressed_bytes,
        decompressed(files.push(file)) == decompressed(files) + file.decompressed_bytes,
        compressed(Seq::empty()) == 0,
        decompressed(Seq::empty()) == 0,
{
    assert(files.push(file).drop_last() =~= files);
}

} // verus!
