//! Transaction relay: who announced what first, and what the duplicates cost.

use crate::analysis::Analysis;
use crate::latency;
use crate::order;
use crate::order::RowKeys;
use crate::peers;
use crate::peers::{Directory, PeerStats};
use crate::relay;
use crate::relay::{PeerRelay, Race, Ratio, Scorecard};
use crate::text;
use crate::view::distribution;
use crate::view::distribution::LatencyView;
use crate::view::rows;
use vstd::prelude::*;

verus! {

/// One peer's line in the relay scorecard.
#[derive(Debug)]
pub struct RelayRow<'a> {
    pub peer_id: u64,
    /// The peer, if the archive shows anything else of it.
    pub peer: Option<&'a PeerStats>,
    pub conn_type: Option<&'static str>,
    pub record: &'a PeerRelay,
    pub win_ratio: Option<Ratio>,
    pub lag_p50_ms: Option<u64>,
    pub lag_p90_ms: Option<u64>,
    pub heard_to_held_p50_ms: Option<u64>,
}

/// How often a peer was first, of all the times it announced anything.
pub open spec fn won(record: Scorecard) -> Option<Ratio> {
    if record.first == 0 && record.late == 0 {
        None
    } else {
        Some(
            Ratio {
                part: record.first,
                whole: latency::capped(record.first as int, record.late as int),
            },
        )
    }
}

/// Whether this is a peer's line.
pub open spec fn is_relay_row(
    row: RelayRow<'_>,
    peer_id: u64,
    record: Scorecard,
    directory: Directory,
) -> bool {
    &&& row.peer_id == peer_id
    &&& row.record@ == record
    &&& row.win_ratio == won(record)
    &&& row.lag_p50_ms == record.lag.percentile(50)
    &&& row.lag_p90_ms == record.lag.percentile(90)
    &&& row.heard_to_held_p50_ms == record.heard_to_held.percentile(50)
    &&& match peers::place(directory.peers, peer_id) {
        Some(at) => {
            &&& row.peer matches Some(peer) && peer@ == directory.peers[at]
            &&& rows::name_in(row.conn_type) == rows::conn_type_in(directory.peers[at])
        },
        None => row.peer is None && row.conn_type is None,
    }
}

/// One peer's line in the relay scorecard.
pub fn relay_row<'a>(
    analysis: &'a Analysis,
    peer_id: u64,
    record: &'a PeerRelay,
) -> (row: RelayRow<'a>)
    requires
        analysis.wf(),
    ensures
        is_relay_row(row, peer_id, record@, analysis.peers@),
{
    let peer = analysis.peers.get(peer_id);
    let conn_type: Option<&'static str> = match peer {
        Some(peer) => rows::conn_type_of(peer),
        None => None,
    };
    RelayRow {
        peer_id,
        peer,
        conn_type,
        record,
        win_ratio: record.win_ratio(),
        lag_p50_ms: record.lag.percentile_ms(50),
        lag_p90_ms: record.lag.percentile_ms(90),
        heard_to_held_p50_ms: record.heard_to_held.percentile_ms(50),
    }
}

/// What a line is ordered by: a fraction, or nothing, which is less than any
/// fraction, and the peer's id.
#[derive(Debug, Clone, Copy, PartialEq, Eq)]
pub struct RelayKey {
    pub known: bool,
    pub part: u64,
    pub whole: u64,
    pub id: u64,
}

/// The denominator of a key.
pub open spec fn under(key: RelayKey) -> int {
    if key.whole == 0 {
        1
    } else {
        key.whole as int
    }
}

/// Whether a key's fraction is less than another's.
pub open spec fn less(a: RelayKey, b: RelayKey) -> bool {
    if a.known && b.known {
        a.part * under(b) < b.part * under(a)
    } else {
        !a.known && b.known
    }
}

/// Whether line `a` comes before line `b`. Ties are broken by peer id so paging is
/// stable: the greater id first, or the smaller where the order descends.
pub open spec fn comes_before(keys: Seq<RelayKey>, descending: bool, a: int, b: int) -> bool {
    let (x, y) = if descending {
        (keys[b], keys[a])
    } else {
        (keys[a], keys[b])
    };
    ||| less(x, y)
    ||| !less(y, x) && x.id > y.id
    ||| !less(y, x) && x.id == y.id && a < b
}

/// Whether `order` lists the lines with these keys, each once, in order.
pub open spec fn is_relay_order(
    keys: Seq<RelayKey>,
    descending: bool,
    order: Seq<usize>,
) -> bool {
    &&& order.len() == keys.len()
    &&& forall|i: int| 0 <= i < order.len() ==> #[trigger] order[i] < keys.len()
    &&& forall|i: int, j: int|
        #![trigger order[i], order[j]]
        0 <= i < j < order.len() ==> comes_before(
            keys,
            descending,
            order[i] as int,
            order[j] as int,
        )
}

/// The order of the lines with these keys.
pub open spec fn relay_order(keys: Seq<RelayKey>, descending: bool) -> Seq<usize> {
    choose|order: Seq<usize>| is_relay_order(keys, descending, order)
}

/// The lines to be ordered.
struct Lines {
    keys: Vec<RelayKey>,
    descending: bool,
}

proof fn lemma_less_chains(a: RelayKey, b: RelayKey, c: RelayKey)
    ensures
        !less(a, a),
        less(a, b) && less(b, c) ==> less(a, c),
        !less(b, a) && !less(c, b) ==> !less(c, a),
        less(a, b) ==> !less(b, a),
        less(a, b) && !less(c, b) ==> less(a, c),
        !less(b, a) && less(b, c) ==> less(a, c),
{
    if a.known && b.known && c.known {
        let (p, q) = (a.part as int, under(a));
        let (r, s) = (b.part as int, under(b));
        let (t, u) = (c.part as int, under(c));
        assert(p * s < r * q && r * u < t * s ==> p * u < t * q) by (nonlinear_arith)
            requires
                q > 0,
                s > 0,
                u > 0,
                p >= 0,
                r >= 0,
                t >= 0,
        {
            if p * s < r * q && r * u < t * s {
                assert(p * s * u < r * q * u);
                assert(r * u * q < t * s * q);
                assert((p * u) * s < (t * q) * s);
            }
        }
        assert(p * s <= r * q && r * u <= t * s ==> p * u <= t * q) by (nonlinear_arith)
            requires
                q > 0,
                s > 0,
                u > 0,
                p >= 0,
                r >= 0,
                t >= 0,
        {
            if p * s <= r * q && r * u <= t * s {
                assert(p * s * u <= r * q * u);
                assert(r * u * q <= t * s * q);
                assert((p * u) * s <= (t * q) * s);
            }
        }
        assert(p * s < r * q && r * u <= t * s ==> p * u < t * q) by (nonlinear_arith)
            requires
                q > 0,
                s > 0,
                u > 0,
                p >= 0,
                r >= 0,
                t >= 0,
        {
            if p * s < r * q && r * u <= t * s {
                assert(p * s * u < r * q * u);
                assert(r * u * q <= t * s * q);
                assert((p * u) * s < (t * q) * s);
            }
        }
        assert(p * s <= r * q && r * u < t * s ==> p * u < t * q) by (nonlinear_arith)
            requires
                q > 0,
                s > 0,
                u > 0,
                p >= 0,
                r >= 0,
                t >= 0,
        {
            if p * s <= r * q && r * u < t * s {
                assert(p * s * u <= r * q * u);
                assert(r * u * q < t * s * q);
                assert((p * u) * s < (t * q) * s);
            }
        }
    }
}

impl RowKeys for Lines {
    closed spec fn rows(&self) -> nat {
        self.keys@.len()
    }

    closed spec fn precedes(&self, a: int, b: int) -> bool {
        comes_before(self.keys@, self.descending, a, b)
    }

    proof fn one_comes_first(&self, a: int, b: int, c: int) {
        let keys = self.keys@;
        lemma_less_chains(keys[a], keys[b], keys[c]);
        lemma_less_chains(keys[c], keys[b], keys[a]);
        lemma_less_chains(keys[b], keys[a], keys[b]);
    }

    fn len(&self) -> (len: usize) {
        self.keys.len()
    }

    fn comes_first(&self, a: usize, b: usize) -> (first: bool) {
        let (x, y) = if self.descending {
            (self.keys[b], self.keys[a])
        } else {
            (self.keys[a], self.keys[b])
        };
        is_less(&x, &y) || (!is_less(&y, &x) && (x.id > y.id || (x.id == y.id && a < b)))
    }
}

/// Whether a key's fraction is less than another's.
fn is_less(a: &RelayKey, b: &RelayKey) -> (yes: bool)
    ensures
        yes == less(*a, *b),
{
    if a.known && b.known {
        let under_a: u128 = if a.whole == 0 {
            1
        } else {
            a.whole as u128
        };
        let under_b: u128 = if b.whole == 0 {
            1
        } else {
            b.whole as u128
        };
        let x: u128 = a.part as u128;
        let y: u128 = b.part as u128;
        assert(x * under_b <= 0xffff_ffff_ffff_ffff * 0xffff_ffff_ffff_ffff) by (nonlinear_arith)
            requires
                x <= 0xffff_ffff_ffff_ffff,
                under_b <= 0xffff_ffff_ffff_ffff,
        ;
        assert(y * under_a <= 0xffff_ffff_ffff_ffff * 0xffff_ffff_ffff_ffff) by (nonlinear_arith)
            requires
                y <= 0xffff_ffff_ffff_ffff,
                under_a <= 0xffff_ffff_ffff_ffff,
        ;
        x * under_b < y * under_a
    } else {
        !a.known && b.known
    }
}

/// What a line is ordered by in a column.
pub open spec fn key_in(record: Scorecard, id: u64, sort: Seq<char>) -> RelayKey {
    if sort == "win"@ {
        match won(record) {
            Some(ratio) => RelayKey { known: true, part: ratio.part, whole: ratio.whole, id },
            None => RelayKey { known: false, part: 0, whole: 1, id },
        }
    } else {
        let part = if sort == "late"@ {
            record.late
        } else if sort == "lag"@ {
            match record.lag.percentile(50) {
                Some(ms) => ms,
                None => 0,
            }
        } else if sort == "delivered"@ {
            record.delivered
        } else if sort == "duplicate"@ {
            record.duplicate
        } else if sort == "duplicateBytes"@ {
            record.duplicate_bytes
        } else {
            record.first
        };
        RelayKey { known: true, part, whole: 1, id }
    }
}

/// What a line is ordered by in a column.
fn key_of(record: &PeerRelay, id: u64, sort: &str) -> (key: RelayKey)
    ensures
        key == key_in(record@, id, sort@),
{
    if text::same(sort, "win") {
        return match record.win_ratio() {
            Some(ratio) => RelayKey { known: true, part: ratio.part, whole: ratio.whole, id },
            None => RelayKey { known: false, part: 0, whole: 1, id },
        };
    }
    let part: u64 = if text::same(sort, "late") {
        record.late
    } else if text::same(sort, "lag") {
        match record.lag.percentile_ms(50) {
            Some(ms) => ms,
            None => 0,
        }
    } else if text::same(sort, "delivered") {
        record.delivered
    } else if text::same(sort, "duplicate") {
        record.duplicate
    } else if text::same(sort, "duplicateBytes") {
        record.duplicate_bytes
    } else {
        record.first
    };
    RelayKey { known: true, part, whole: 1, id }
}

/// Which peers relayed anything.
pub open spec fn relayed(peers: Seq<(u64, Scorecard)>) -> Seq<bool> {
    Seq::new(peers.len(), |i: int| !peers[i].1.is_blank())
}

/// The keys of the peers that stand at these places.
pub open spec fn keys_of(
    peers: Seq<(u64, Scorecard)>,
    places: Seq<usize>,
    sort: Seq<char>,
) -> Seq<RelayKey> {
    Seq::new(
        places.len(),
        |i: int| key_in(peers[places[i] as int].1, peers[places[i] as int].0, sort),
    )
}

/// The peers that relayed anything, in the order asked for.
pub open spec fn standings(
    peers: Seq<(u64, Scorecard)>,
    sort: Seq<char>,
    descending: bool,
) -> Seq<usize> {
    let places = order::picked(relayed(peers));
    order::arranged(places, relay_order(keys_of(peers, places, sort), descending))
}

/// Put lines in order.
fn sort_lines(keys: Vec<RelayKey>, descending: bool) -> (order: Vec<usize>)
    ensures
        order@ == relay_order(keys@, descending),
        is_relay_order(keys@, descending, order@),
{
    let lines = Lines { keys, descending };
    let order = order::sort_rows(&lines);
    proof {
        let chosen = relay_order(keys@, descending);
        assert(is_relay_order(keys@, descending, order@));
        assert(order::in_order(lines, chosen));
        order::law_order_is_unique(lines, order@, chosen);
    }
    order
}

/// The peers that relayed anything, in the order asked for.
fn rank(analysis: &Analysis, sort: &str, descending: bool) -> (list: Vec<usize>)
    requires
        analysis.wf(),
    ensures
        list@ == standings(analysis.relay@.peers, sort@, descending),
        forall|i: int| 0 <= i < list@.len() ==> #[trigger] list@[i] < analysis.relay@.peers.len(),
{
    let peers = analysis.relay.peers();
    let ghost all = analysis.relay@.peers;
    let mut wanted: Vec<bool> = Vec::new();
    let mut i: usize = 0;
    while i < peers.len()
        invariant
            i <= peers@.len(),
            peers@.len() == all.len(),
            forall|k: int|
                0 <= k < peers@.len() ==> ((#[trigger] peers@[k]).0, peers@[k].1@) == all[k],
            wanted@ == relayed(all).take(i as int),
        decreases peers@.len() - i,
    {
        assert((peers@[i as int].0, peers@[i as int].1@) == all[i as int]);
        wanted.push(!peers[i].1.is_empty());
        i = i + 1;
        assert(wanted@ =~= relayed(all).take(i as int));
    }
    assert(wanted@ =~= relayed(all));
    let places = order::pick(&wanted);
    proof {
        assert(wanted.len() == wanted@.len());
        order::lemma_picked(wanted@);
    }
    let mut keys: Vec<RelayKey> = Vec::new();
    let mut k: usize = 0;
    while k < places.len()
        invariant
            k <= places@.len(),
            peers@.len() == all.len(),
            forall|j: int|
                0 <= j < peers@.len() ==> ((#[trigger] peers@[j]).0, peers@[j].1@) == all[j],
            forall|j: int| 0 <= j < places@.len() ==> #[trigger] places@[j] < peers@.len(),
            keys@ == keys_of(all, places@, sort@).take(k as int),
        decreases places@.len() - k,
    {
        let at: usize = places[k];
        assert((peers@[at as int].0, peers@[at as int].1@) == all[at as int]);
        keys.push(key_of(&peers[at].1, peers[at].0, sort));
        k = k + 1;
        assert(keys@ =~= keys_of(all, places@, sort@).take(k as int));
    }
    assert(keys@ =~= keys_of(all, places@, sort@));
    let order = sort_lines(keys, descending);
    let mut list: Vec<usize> = Vec::new();
    let mut n: usize = 0;
    while n < order.len()
        invariant
            n <= order@.len(),
            forall|j: int| 0 <= j < order@.len() ==> #[trigger] order@[j] < places@.len(),
            list@ == order::arranged(places@, order@.take(n as int)),
        decreases order@.len() - n,
    {
        list.push(places[order[n]]);
        n = n + 1;
        assert(list@ =~= order::arranged(places@, order@.take(n as int)));
    }
    assert(order@.take(n as int) =~= order@);
    list
}

/// Transaction relay: who announced what first, and what the duplicates cost.
#[derive(Debug)]
pub struct RelayView<'a> {
    /// How many peers relayed anything.
    pub peers: usize,
    pub rows: Vec<RelayRow<'a>>,
    pub items: usize,
    pub announcements: u64,
    pub late_announcements: u64,
    pub deliveries: u64,
    pub duplicate_deliveries: u64,
    pub duplicate_bytes: u64,
    pub duplicate_factor: Option<Ratio>,
    pub capped: bool,
    pub untracked: u64,
    pub max_items: usize,
    pub first_announcers: u64,
    pub lag: LatencyView,
    pub heard_to_held: LatencyView,
}

/// How many times each transaction was delivered, as far as that can be said.
pub open spec fn repeated(race: Race) -> Option<Ratio> {
    if race.deliveries > race.duplicate_deliveries {
        Some(
            Ratio {
                part: race.deliveries,
                whole: (race.deliveries - race.duplicate_deliveries) as u64,
            },
        )
    } else {
        None
    }
}

/// Transaction relay: who announced what first, and what the duplicates cost.
///
/// `sort` picks the column: `first`, `late`, `win`, `lag`, `delivered` or
/// `duplicateBytes`.
pub fn relay<'a>(
    analysis: &'a Analysis,
    sort: &str,
    descending: bool,
    limit: usize,
) -> (view: RelayView<'a>)
    requires
        analysis.wf(),
    ensures
        ({
            let race = analysis.relay@;
            let list = standings(race.peers, sort@, descending);
            let shown = order::page_of(list, 0, limit as int);
            &&& view.peers == list.len()
            &&& view.rows@.len() == shown.len()
            &&& forall|i: int|
                0 <= i < shown.len() ==> is_relay_row(
                    #[trigger] view.rows@[i],
                    race.peers[shown[i] as int].0,
                    race.peers[shown[i] as int].1,
                    analysis.peers@,
                )
            &&& view.items == race.items.dom().len()
            &&& view.announcements == race.announcements
            &&& view.late_announcements == race.late_announcements
            &&& view.deliveries == race.deliveries
            &&& view.duplicate_deliveries == race.duplicate_deliveries
            &&& view.duplicate_bytes == race.duplicate_bytes
            &&& view.duplicate_factor == repeated(race)
            &&& view.capped == (race.untracked > 0)
            &&& view.untracked == race.untracked
            &&& view.max_items == relay::MAX_ITEMS
            &&& view.first_announcers == race.total_of(race.peers.len() as int).first
            &&& distribution::lays_out(view.lag, race.lag)
            &&& distribution::lays_out(view.heard_to_held, race.heard_to_held)
        }),
{
    let list = rank(analysis, sort, descending);
    let shown = order::page_rows(&list, 0, limit);
    let peers = analysis.relay.peers();
    let ghost all = analysis.relay@.peers;
    assert forall|k: int| 0 <= k < shown@.len() implies #[trigger] shown@[k] < all.len() by {
        assert(shown@[k] == list@[k]);
    }
    let mut rows: Vec<RelayRow<'a>> = Vec::new();
    let mut i: usize = 0;
    while i < shown.len()
        invariant
            i <= shown@.len(),
            rows@.len() == i,
            analysis.wf(),
            peers@.len() == all.len(),
            forall|k: int|
                0 <= k < peers@.len() ==> ((#[trigger] peers@[k]).0, peers@[k].1@) == all[k],
            forall|k: int| 0 <= k < shown@.len() ==> #[trigger] shown@[k] < all.len(),
            forall|k: int|
                0 <= k < i ==> is_relay_row(
                    #[trigger] rows@[k],
                    all[shown@[k] as int].0,
                    all[shown@[k] as int].1,
                    analysis.peers@,
                ),
        decreases shown@.len() - i,
    {
        let at: usize = shown[i];
        assert((peers@[at as int].0, peers@[at as int].1@) == all[at as int]);
        rows.push(relay_row(analysis, peers[at].0, &peers[at].1));
        i = i + 1;
    }
    let figures = analysis.relay.figures();
    let totals = analysis.relay.totals();
    RelayView {
        peers: list.len(),
        rows,
        items: analysis.relay.items(),
        announcements: figures.announcements,
        late_announcements: figures.late_announcements,
        deliveries: figures.deliveries,
        duplicate_deliveries: figures.duplicate_deliveries,
        duplicate_bytes: figures.duplicate_bytes,
        duplicate_factor: analysis.relay.duplicate_factor(),
        capped: analysis.relay.capped(),
        untracked: figures.untracked,
        max_items: relay::MAX_ITEMS,
        first_announcers: totals.first,
        lag: distribution::latencies(&figures.lag),
        heard_to_held: distribution::latencies(&figures.heard_to_held),
    }
}

/// Whether no two keys are of the same peer.
spec fn ids_apart(keys: Seq<RelayKey>) -> bool {
    forall|i: int, j: int|
        #![trigger keys[i], keys[j]]
        0 <= i < j < keys.len() ==> keys[i].id != keys[j].id
}

proof fn lemma_decides(keys: Seq<RelayKey>, descending: bool)
    ensures
        order::decides(|a: int, b: int| comes_before(keys, descending, a, b), keys.len()),
{
    let first = |a: int, b: int| comes_before(keys, descending, a, b);
    assert forall|a: int, b: int| 0 <= a < keys.len() && 0 <= b < keys.len() && a != b implies (
    #[trigger] first(a, b)) || first(b, a) by {
        lemma_less_chains(keys[a], keys[b], keys[a]);
        lemma_less_chains(keys[b], keys[a], keys[b]);
    }
    assert forall|a: int| 0 <= a < keys.len() implies !(#[trigger] first(a, a)) by {
        lemma_less_chains(keys[a], keys[a], keys[a]);
    }
    assert forall|a: int, b: int, c: int|
        0 <= a < keys.len() && 0 <= b < keys.len() && 0 <= c < keys.len() && #[trigger] first(a, b)
            && #[trigger] first(b, c) implies first(a, c) by {
        lemma_less_chains(keys[a], keys[b], keys[c]);
        lemma_less_chains(keys[c], keys[b], keys[a]);
        lemma_less_chains(keys[b], keys[a], keys[b]);
    }
}

proof fn lemma_relay_order(keys: Seq<RelayKey>, descending: bool)
    requires
        keys.len() <= usize::MAX,
    ensures
        is_relay_order(keys, descending, relay_order(keys, descending)),
        forall|order: Seq<usize>| #[trigger]
            is_relay_order(keys, descending, order) ==> order == relay_order(keys, descending),
{
    let first = |a: int, b: int| comes_before(keys, descending, a, b);
    lemma_decides(keys, descending);
    let order = order::lemma_can_be_ordered(first, keys.len());
    assert(is_relay_order(keys, descending, order));
    let chosen = relay_order(keys, descending);
    assert forall|other: Seq<usize>| #[trigger] is_relay_order(keys, descending, other) implies other
        == chosen by {
        assert(order::follows(first, keys.len(), other));
        assert(order::follows(first, keys.len(), chosen));
        order::lemma_one_order(first, keys.len(), other, chosen, keys.len());
    }
}

/// Turning the order round turns the lines round.
proof fn lemma_turned_round(keys: Seq<RelayKey>)
    requires
        keys.len() <= usize::MAX,
        ids_apart(keys),
    ensures
        relay_order(keys, false) == relay_order(keys, true).reverse(),
{
    lemma_relay_order(keys, true);
    lemma_relay_order(keys, false);
    let down = relay_order(keys, true);
    let up = down.reverse();
    let n = keys.len() as int;
    assert forall|i: int, j: int|
        #![trigger up[i], up[j]]
        0 <= i < j < up.len() implies comes_before(keys, false, up[i] as int, up[j] as int) by {
        let (a, b) = (up[i] as int, up[j] as int);
        assert(up[i] == down[n - 1 - i]);
        assert(up[j] == down[n - 1 - j]);
        assert(comes_before(keys, true, b, a));
        lemma_less_chains(keys[a], keys[a], keys[a]);
        if a < b {
            assert(keys[a].id != keys[b].id);
        } else if b < a {
            assert(keys[b].id != keys[a].id);
        }
    }
    assert(is_relay_order(keys, false, up));
}

/// The scorecard lists every peer that relayed anything, each once, and no other,
/// whatever it is sorted by.
pub proof fn law_the_scorecard_lists_every_peer_once(
    peers: Seq<(u64, Scorecard)>,
    sort: Seq<char>,
    descending: bool,
)
    requires
        peers.len() <= usize::MAX,
    ensures
        ({
            let rows = standings(peers, sort, descending);
            &&& rows.len() == order::picked(relayed(peers)).len()
            &&& rows.no_duplicates()
            &&& forall|i: int|
                0 <= i < rows.len() ==> (#[trigger] rows[i]) < peers.len()
                    && !peers[rows[i] as int].1.is_blank()
            &&& forall|at: int|
                0 <= at < peers.len() && !(#[trigger] peers[at]).1.is_blank() ==> rows.contains(
                    at as usize,
                )
        }),
{
    let wanted = relayed(peers);
    let places = order::picked(wanted);
    order::lemma_picked(wanted);
    let keys = keys_of(peers, places, sort);
    lemma_relay_order(keys, descending);
    let order = relay_order(keys, descending);
    let rows = standings(peers, sort, descending);
    assert(order.no_duplicates()) by {
        assert forall|i: int, j: int|
            0 <= i < order.len() && 0 <= j < order.len() && i != j implies order[i]
            != order[j] by {
            let (a, b) = if i < j {
                (i, j)
            } else {
                (j, i)
            };
            assert(comes_before(keys, descending, order[a] as int, order[b] as int));
            lemma_decides(keys, descending);
            let first = |x: int, y: int| comes_before(keys, descending, x, y);
            assert(!first(order[a] as int, order[a] as int));
        }
    }
    assert forall|i: int, j: int|
        0 <= i < rows.len() && 0 <= j < rows.len() && i != j implies rows[i] != rows[j] by {
        let (a, b) = (order[i] as int, order[j] as int);
        assert(a != b);
        assert(rows[i] == places[a] && rows[j] == places[b]);
        if a < b {
            assert(places[a] < places[b]);
        } else {
            assert(places[b] < places[a]);
        }
    }
    assert forall|i: int| 0 <= i < rows.len() implies (#[trigger] rows[i]) < peers.len()
        && !peers[rows[i] as int].1.is_blank() by {
        assert(rows[i] == places[order[i] as int]);
        assert(wanted[rows[i] as int]);
    }
    assert forall|at: int| 0 <= at < peers.len() && !(#[trigger] peers[at]).1.is_blank() implies rows.contains(
        at as usize,
    ) by {
        assert(wanted[at]);
        let p = choose|p: int| 0 <= p < places.len() && places[p] == at as usize;
        order::lemma_every_position(order, p as usize);
        let i = choose|i: int| 0 <= i < order.len() && order[i] == p as usize;
        assert(rows[i] == at as usize);
    }
}

/// The scorecard the other way up has the same lines in reverse; the lines descend by
/// their column, and where they are level by peer, the smaller id first; and asking for
/// fewer of them leaves out the last.
pub proof fn law_a_scorecard_can_be_turned_round(
    race: Race,
    sort: Seq<char>,
    limit: int,
    fewer: int,
)
    requires
        race.valid(),
        race.peers.len() <= usize::MAX,
        0 <= fewer <= limit,
    ensures
        standings(race.peers, sort, false) == standings(race.peers, sort, true).reverse(),
        ({
            let rows = standings(race.peers, sort, true);
            let key = |i: int| key_in(race.peers[rows[i] as int].1, race.peers[rows[i] as int].0, sort);
            forall|i: int, j: int|
                #![trigger rows[i], rows[j]]
                0 <= i < j < rows.len() ==> !less(key(i), key(j)) && (less(key(j), key(i))
                    || key(i).id < key(j).id)
        }),
        forall|descending: bool| #[trigger]
            order::page_of(standings(race.peers, sort, descending), 0, fewer).is_prefix_of(
                order::page_of(standings(race.peers, sort, descending), 0, limit),
            ),
{
    let wanted = relayed(race.peers);
    let places = order::picked(wanted);
    order::lemma_picked(wanted);
    let keys = keys_of(race.peers, places, sort);
    assert(ids_apart(keys)) by {
        assert forall|i: int, j: int|
            #![trigger keys[i], keys[j]]
            0 <= i < j < keys.len() implies keys[i].id != keys[j].id by {
            assert(places[i] < places[j]);
            assert(race.peers[places[i] as int].0 != race.peers[places[j] as int].0);
        }
    }
    lemma_turned_round(keys);
    lemma_relay_order(keys, true);
    let down = relay_order(keys, true);
    let rows = standings(race.peers, sort, true);
    assert(standings(race.peers, sort, false) =~= rows.reverse());
    let key = |i: int| key_in(race.peers[rows[i] as int].1, race.peers[rows[i] as int].0, sort);
    assert forall|i: int, j: int|
        #![trigger rows[i], rows[j]]
        0 <= i < j < rows.len() implies !less(key(i), key(j)) && (less(key(j), key(i)) || key(i).id
        < key(j).id) by {
        let (a, b) = (down[i] as int, down[j] as int);
        assert(rows[i] == places[a] && rows[j] == places[b]);
        assert(key(i) == keys[a] && key(j) == keys[b]);
        assert(comes_before(keys, true, a, b));
        lemma_less_chains(keys[a], keys[b], keys[a]);
        lemma_less_chains(keys[b], keys[a], keys[b]);
        if a < b {
            assert(keys[a].id != keys[b].id);
        } else if b < a {
            assert(keys[b].id != keys[a].id);
        }
    }
    assert forall|descending: bool| #[trigger]
        order::page_of(standings(race.peers, sort, descending), 0, fewer).is_prefix_of(
            order::page_of(standings(race.peers, sort, descending), 0, limit),
        ) by {
        let list = standings(race.peers, sort, descending);
        let (some, more) = (order::page_of(list, 0, fewer), order::page_of(list, 0, limit));
        assert(some =~= more.subrange(0, some.len() as int));
    }
}

/// The scorecard is in the order of its column, the largest first and by the ids where two
/// are level: by what a peer was late with, by how far behind it typically was, by what it
/// delivered, by what of that was there already and by the bytes of that, and by what it was
/// first with, which is also the order where no column is named. By what it won, it goes by
/// the share of the announcements that were first, and who never announced comes last.
pub proof fn law_the_scorecard_is_in_the_order_of_its_column(race: Race, sort: Seq<char>)
    requires
        race.valid(),
        race.peers.len() <= usize::MAX,
    ensures
        ({
            let rows = standings(race.peers, sort, true);
            forall|i: int, j: int|
                #![trigger rows[i], rows[j]]
                0 <= i < j < rows.len() ==> {
                    let (id, other) = (race.peers[rows[i] as int].0, race.peers[rows[j] as int].0);
                    let (a, b) = (race.peers[rows[i] as int].1, race.peers[rows[j] as int].1);
                    let nothing = 0u64;
                    if sort == "win"@ {
                        let (tries, others) = (a.first + a.late, b.first + b.late);
                        tries <= u64::MAX && others <= u64::MAX ==> {
                            &&& tries == 0 ==> others == 0 && id < other
                            &&& tries > 0 && others > 0 ==> a.first * others > b.first * tries
                                || a.first * others == b.first * tries && id < other
                        }
                    } else {
                        let (x, y) = if sort == "late"@ {
                            (a.late, b.late)
                        } else if sort == "lag"@ {
                            (
                                a.lag.percentile(50).unwrap_or(nothing),
                                b.lag.percentile(50).unwrap_or(nothing),
                            )
                        } else if sort == "delivered"@ {
                            (a.delivered, b.delivered)
                        } else if sort == "duplicate"@ {
                            (a.duplicate, b.duplicate)
                        } else if sort == "duplicateBytes"@ {
                            (a.duplicate_bytes, b.duplicate_bytes)
                        } else {
                            (a.first, b.first)
                        };
                        x > y || x == y && id < other
                    }
                }
        }),
{
    law_a_scorecard_can_be_turned_round(race, sort, 0, 0);
    let rows = standings(race.peers, sort, true);
    let key = |i: int| key_in(race.peers[rows[i] as int].1, race.peers[rows[i] as int].0, sort);
    assert forall|i: int, j: int|
        #![trigger rows[i], rows[j]]
        0 <= i < j < rows.len() implies !less(key(i), key(j)) && (less(key(j), key(i)) || key(i).id
        < key(j).id) by {}
    assert forall|i: int, j: int|
        #![trigger rows[i], rows[j]]
        0 <= i < j < rows.len() && sort != "win"@ implies key(i).part > key(j).part || key(i).part
        == key(j).part && key(i).id < key(j).id by {
        assert(!less(key(i), key(j)));
        assert(key(i).part * 1 == key(i).part && key(j).part * 1 == key(j).part);
    }
}

/// Every transaction was delivered as many times, on the average, as deliveries go into
/// those that were the first of theirs; how often a peer was first is out of all that it
/// announced.
pub proof fn law_shares_are_out_of_all_there_were(race: Race, record: Scorecard)
    ensures
        race.deliveries > race.duplicate_deliveries ==> (repeated(race) matches Some(ratio)
            && ratio.part == race.deliveries && ratio.whole == race.deliveries
            - race.duplicate_deliveries),
        race.deliveries <= race.duplicate_deliveries ==> repeated(race) is None,
        record.first + record.late == 0 ==> won(record) is None,
        0 < record.first + record.late <= u64::MAX ==> (won(record) matches Some(ratio)
            && ratio.part == record.first && ratio.whole == record.first + record.late),
{
}

} // verus!
