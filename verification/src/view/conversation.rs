//! How each kind of request fared, and how long the answers took.

use crate::analysis::{Analysis, ExchangeStats};
use crate::exchange;
use crate::exchange::EXCHANGE_COUNT;
use crate::kind::{Group, EventKind};
use crate::order;
use crate::text;
use crate::view::distribution;
use crate::view::distribution::LatencyView;
use vstd::prelude::*;

verus! {

/// One kind of request.
#[derive(Debug)]
pub struct ExchangeRow {
    pub request: &'static str,
    pub replies: Vec<&'static str>,
    /// An announcement is not a request: we act on a fraction of what is announced
    /// to us, so its remainder is a choice, not a failure, and it is never counted
    /// as unanswered.
    pub optional: bool,
    pub replies_captured: bool,
    pub stats: ExchangeStats,
    pub unanswered: u64,
    pub undetermined: u64,
    pub peer_latency: LatencyView,
    pub our_latency: LatencyView,
}

/// How each kind of request fared.
#[derive(Debug)]
pub struct Exchanges {
    pub rows: Vec<ExchangeRow>,
    pub unanswered_meaningful: bool,
}

/// Whether any command that answers this exchange appears in the archive at all.
pub open spec fn captured(kinds: Seq<EventKind>, counts: Seq<u64>, index: int) -> bool {
    exists|i: int| #[trigger] captures(kinds, counts, index, i)
}

/// Whether a kind is a command that answers this exchange, and occurs.
pub open spec fn captures(kinds: Seq<EventKind>, counts: Seq<u64>, index: int, i: int) -> bool {
    &&& 0 <= i < kinds.len()
    &&& kinds[i].group == Group::EbpfMessage
    &&& exchange::answers(index, kinds[i].name)
    &&& counts[i] > 0
}

/// Whether some text is one of these names.
fn named(names: &Vec<&'static str>, name: &str) -> (found: bool)
    ensures
        found == names@.map_values(|n: &str| n@).contains(name@),
{
    let ghost all = names@.map_values(|n: &str| n@);
    let mut i: usize = 0;
    while i < names.len()
        invariant
            i <= names@.len(),
            all == names@.map_values(|n: &str| n@),
            forall|k: int| 0 <= k < i ==> #[trigger] all[k] != name@,
        decreases names@.len() - i,
    {
        assert(all[i as int] == names@[i as int]@);
        if text::same(names[i], name) {
            return true;
        }
        i = i + 1;
    }
    false
}

/// Whether any command that answers this exchange appears in the archive at all.
///
/// The archiver records which event types a run captured only as far as the
/// `low_data` flag; the message filter it used is not in the header. So an
/// archive holding `version` but no `verack` is indistinguishable from a node
/// whose every handshake failed -- except that every handshake failing is not a
/// thing that happens. Where a reply command never appears at all, silence says
/// nothing about the peers, and saying so beats reporting a number that is
/// certainly wrong.
pub fn replies_captured(analysis: &Analysis, index: usize) -> (yes: bool)
    requires
        analysis.wf(),
        index < EXCHANGE_COUNT,
    ensures
        yes == captured(analysis.kinds@, analysis.counts@, index as int),
{
    let names = exchange::reply_names(index);
    let kinds = analysis.kinds.iter();
    let ghost all = analysis.kinds@;
    let mut i: usize = 0;
    while i < kinds.len()
        invariant
            i <= kinds@.len(),
            kinds@.len() == all.len(),
            all == analysis.kinds@,
            analysis.counts@.len() == all.len(),
            forall|k: int| 0 <= k < kinds@.len() ==> (#[trigger] kinds@[k])@ == all[k],
            names@.map_values(|n: &str| n@) == exchange::reply_texts(index as int),
            forall|k: int|
                0 <= k < i ==> !#[trigger] captures(all, analysis.counts@, index as int, k),
        decreases kinds@.len() - i,
    {
        let info = &kinds[i];
        assert(info@ == all[i as int]);
        if info.group == Group::EbpfMessage && named(&names, info.name.as_str())
            && analysis.counts[i] > 0 {
            assert(captures(all, analysis.counts@, index as int, i as int));
            return true;
        }
        i = i + 1;
    }
    assert forall|k: int| !#[trigger] captures(all, analysis.counts@, index as int, k) by {
        if 0 <= k < all.len() {
        }
    }
    false
}

/// Whether an exchange has unanswered requests but none of the messages that would
/// have answered them.
pub open spec fn misleading(
    stats: Seq<ExchangeStats>,
    kinds: Seq<EventKind>,
    counts: Seq<u64>,
    index: int,
) -> bool {
    &&& 0 <= index < stats.len()
    &&& stats[index].silent() > 0
    &&& !captured(kinds, counts, index)
}

/// Whether unanswered counts mean anything.
pub open spec fn meaningful(
    stats: Seq<ExchangeStats>,
    kinds: Seq<EventKind>,
    counts: Seq<u64>,
) -> bool {
    forall|index: int| !#[trigger] misleading(stats, kinds, counts, index)
}

/// Whether unanswered counts mean anything for this archive.
///
/// False when some exchange produced unanswered requests but the archive never
/// captured the messages that would have answered them.
pub fn unanswered_is_meaningful(analysis: &Analysis) -> (yes: bool)
    requires
        analysis.wf(),
    ensures
        yes == meaningful(analysis.exchanges@, analysis.kinds@, analysis.counts@),
{
    let mut index: usize = 0;
    while index < analysis.exchanges.len()
        invariant
            index <= analysis.exchanges@.len(),
            analysis.exchanges@.len() == EXCHANGE_COUNT,
            analysis.wf(),
            forall|k: int|
                0 <= k < index ==> !#[trigger] misleading(
                    analysis.exchanges@,
                    analysis.kinds@,
                    analysis.counts@,
                    k,
                ),
        decreases analysis.exchanges@.len() - index,
    {
        if analysis.exchanges[index].unanswered() > 0 && !replies_captured(analysis, index) {
            assert(misleading(
                analysis.exchanges@,
                analysis.kinds@,
                analysis.counts@,
                index as int,
            ));
            return false;
        }
        index = index + 1;
    }
    true
}

/// Whether this is the line of an exchange.
pub open spec fn is_exchange_row(row: ExchangeRow, analysis: Analysis, index: int) -> bool {
    let stats = analysis.exchanges@[index];
    &&& row.request@ == exchange::request_text(index)
    &&& row.replies@.map_values(|name: &str| name@) == exchange::reply_texts(index)
    &&& row.optional == exchange::is_announcement(index)
    &&& row.replies_captured == captured(analysis.kinds@, analysis.counts@, index)
    &&& row.stats == stats
    &&& row.unanswered == stats.silent()
    &&& row.undetermined == stats.unclear()
    &&& distribution::lays_out(row.peer_latency, analysis.reply_latency@[index]@)
    &&& distribution::lays_out(row.our_latency, analysis.our_reply_latency@[index]@)
}

/// Which exchanges were opened at all.
pub open spec fn opened(stats: Seq<ExchangeStats>) -> Seq<bool> {
    Seq::new(stats.len(), |i: int| stats[i].opened > 0)
}

/// The line of an exchange.
fn exchange_row(analysis: &Analysis, index: usize) -> (row: ExchangeRow)
    requires
        analysis.wf(),
        index < EXCHANGE_COUNT,
    ensures
        is_exchange_row(row, *analysis, index as int),
{
    let stats: ExchangeStats = analysis.exchanges[index];
    ExchangeRow {
        request: exchange::request_name(index),
        replies: exchange::reply_names(index),
        optional: exchange::is_optional(index),
        replies_captured: replies_captured(analysis, index),
        stats,
        unanswered: stats.unanswered(),
        undetermined: stats.undetermined(),
        peer_latency: distribution::latencies(&analysis.reply_latency[index]),
        our_latency: distribution::latencies(&analysis.our_reply_latency[index]),
    }
}

/// How each kind of request fared, and how long the answers took.
pub fn exchanges(analysis: &Analysis) -> (view: Exchanges)
    requires
        analysis.wf(),
    ensures
        ({
            let listed = order::picked(opened(analysis.exchanges@));
            &&& view.rows@.len() == listed.len()
            &&& forall|i: int|
                0 <= i < listed.len() ==> is_exchange_row(
                    #[trigger] view.rows@[i],
                    *analysis,
                    listed[i] as int,
                )
        }),
        view.unanswered_meaningful == meaningful(
            analysis.exchanges@,
            analysis.kinds@,
            analysis.counts@,
        ),
{
    let mut wanted: Vec<bool> = Vec::new();
    let mut i: usize = 0;
    while i < analysis.exchanges.len()
        invariant
            i <= analysis.exchanges@.len(),
            wanted@ == opened(analysis.exchanges@).take(i as int),
        decreases analysis.exchanges@.len() - i,
    {
        wanted.push(analysis.exchanges[i].opened > 0);
        i = i + 1;
        assert(wanted@ =~= opened(analysis.exchanges@).take(i as int));
    }
    assert(wanted@ =~= opened(analysis.exchanges@));
    let listed = order::pick(&wanted);
    proof {
        order::lemma_picked(wanted@);
    }
    let mut rows: Vec<ExchangeRow> = Vec::new();
    let mut k: usize = 0;
    while k < listed.len()
        invariant
            k <= listed@.len(),
            rows@.len() == k,
            analysis.wf(),
            forall|j: int| 0 <= j < listed@.len() ==> #[trigger] listed@[j] < EXCHANGE_COUNT,
            forall|j: int|
                0 <= j < k ==> is_exchange_row(
                    #[trigger] rows@[j],
                    *analysis,
                    listed@[j] as int,
                ),
        decreases listed@.len() - k,
    {
        rows.push(exchange_row(analysis, listed[k]));
        k = k + 1;
    }
    Exchanges { rows, unanswered_meaningful: unanswered_is_meaningful(analysis) }
}

} // verus!
