//! The networks (autonomous systems) the archive's peers belong to.
//!
//! Requires an asmap file; without one the page says so rather than falling back
//! to a guess like grouping by /16, which would be wrong for anyone multi-homing
//! or announcing out of a larger allocation.

use crate::analysis::Analysis;
use crate::asn;
use crate::asn::{Crowd, Network, NetworkStats};
use crate::latency;
use crate::order;
use crate::peers::Peer;
use crate::relay::Ratio;
use crate::text;
use crate::view::peer_list;
use crate::view::rows;
use crate::view::rows::PeerRow;
use asmap::Asmap;
use vstd::prelude::*;

verus! {

/// One network's line. Deliberately no AS name here: the tables that hold the
/// names are large, and a label shown on one screen can be loaded on demand.
#[derive(Debug, Clone, Copy)]
pub struct NetworkRow {
    pub network: Network,
    pub asn: Option<u32>,
    pub label: &'static str,
    pub stats: NetworkStats,
    pub eviction_ratio: Option<Ratio>,
    pub events: u64,
}

/// A page of networks.
#[derive(Debug)]
pub struct Networks {
    pub total: usize,
    pub offset: usize,
    pub peers_covered: u64,
    pub rows: Vec<NetworkRow>,
}

/// Whether this is a network's line.
pub open spec fn is_network_row(row: NetworkRow, group: (Network, Crowd)) -> bool {
    &&& row.network == group.0
    &&& row.asn == group.0.number()
    &&& row.label@ == group.0.text()
    &&& row.stats@ == group.1
    &&& row.eviction_ratio == group.1.evictions()
    &&& row.events == group.1.events()
}

/// One network's line.
fn network_row(network: Network, stats: &NetworkStats) -> (row: NetworkRow)
    ensures
        is_network_row(row, (network, stats@)),
{
    NetworkRow {
        network,
        asn: network.asn(),
        label: network.label(),
        stats: *stats,
        eviction_ratio: stats.eviction_ratio(),
        events: stats.events(),
    }
}

/// Networks the archive's peers belong to. `None` without an asmap.
pub fn networks(
    analysis: &Analysis,
    asmap: Option<&Asmap>,
    offset: usize,
    limit: usize,
) -> (page: Option<Networks>)
    requires
        analysis.wf(),
    ensures
        page is Some <==> asmap is Some,
        page matches Some(page) ==> exists|groups: Seq<(Network, Crowd)>|
            {
                &&& #[trigger] asn::is_grouping(
                    groups,
                    analysis.peers@.peers,
                    asn::networks_in(analysis.peers@.peers, asn::asmap_bytes(*asmap->0)),
                )
                &&& page.total == groups.len()
                &&& page.offset == offset
                &&& page.peers_covered == latency::capped(
                    asn::covered(groups, groups.len() as int),
                    0,
                )
                &&& page.rows@.len() == order::page_of(groups, offset as int, limit as int).len()
                &&& forall|i: int|
                    0 <= i < page.rows@.len() ==> is_network_row(
                        #[trigger] page.rows@[i],
                        order::page_of(groups, offset as int, limit as int)[i],
                    )
            },
{
    let asmap = match asmap {
        Some(asmap) => asmap,
        None => {
            return None;
        },
    };
    let groups = asn::group(analysis, asmap);
    let ghost listed = asn::crowds(groups@);
    let mut peers_covered: u64 = 0;
    let mut i: usize = 0;
    while i < groups.len()
        invariant
            i <= groups@.len(),
            listed == asn::crowds(groups@),
            peers_covered == latency::capped(asn::covered(listed, i as int), 0),
            asn::covered(listed, i as int) >= 0,
        decreases groups@.len() - i,
    {
        peers_covered = peers_covered.saturating_add(groups[i].1.peers);
        i = i + 1;
    }
    let (start, end) = order::page_bounds(groups.len(), offset, limit);
    let ghost page = order::page_of(listed, offset as int, limit as int);
    let mut rows: Vec<NetworkRow> = Vec::new();
    let mut at: usize = start;
    while at < end
        invariant
            start <= at <= end <= groups@.len(),
            listed == asn::crowds(groups@),
            page == listed.subrange(start as int, end as int),
            rows@.len() == at - start,
            forall|k: int| 0 <= k < rows@.len() ==> is_network_row(#[trigger] rows@[k], page[k]),
        decreases end - at,
    {
        rows.push(network_row(groups[at].0, &groups[at].1));
        at = at + 1;
    }
    Some(Networks { total: groups.len(), offset, peers_covered, rows })
}

/// The network asked for: by its number, or by its label where it has none.
pub open spec fn network_wanted(asn: Option<u32>, label: Seq<char>) -> Network {
    match asn {
        Some(asn) => Network::Asn(asn),
        None => if label == "unmapped IP"@ {
            Network::UnmappedIp
        } else if label == "Tor / I2P / CJDNS"@ {
            Network::Anonymising
        } else {
            Network::Unknown
        },
    }
}

/// Which peers are of a network.
pub open spec fn of_network(peers: Seq<Peer>, bytes: Seq<u8>, network: Network) -> Seq<bool> {
    Seq::new(peers.len(), |i: int| asn::network_in(peers[i], bytes) == network)
}

/// What peers of a network are ordered by: the busiest first.
pub open spec fn event_keys(peers: Seq<Peer>) -> Seq<(u64, u64)> {
    Seq::new(peers.len(), |i: int| (order::flipped(peers[i].events()), 0u64))
}

/// Peers belonging to one network, busiest first.
///
/// `asn_wanted` is `None` for the non-AS buckets, which `label` then distinguishes.
pub fn network_peers<'a>(
    analysis: &'a Analysis,
    asmap: Option<&Asmap>,
    asn_wanted: Option<u32>,
    label: &str,
    limit: usize,
) -> (lines: Vec<PeerRow<'a>>)
    requires
        analysis.wf(),
    ensures
        asmap is None ==> lines@.len() == 0,
        asmap matches Some(asmap) ==> {
            let peers = analysis.peers@.peers;
            let wanted = network_wanted(asn_wanted, label@);
            let shown = order::page_of(
                order::ordered_picks(
                    of_network(peers, asn::asmap_bytes(*asmap), wanted),
                    event_keys(peers),
                ),
                0,
                limit as int,
            );
            &&& lines@.len() == shown.len()
            &&& forall|i: int|
                0 <= i < shown.len() ==> rows::is_row_of(
                    #[trigger] lines@[i],
                    peers[shown[i] as int],
                )
        },
{
    let asmap = match asmap {
        Some(asmap) => asmap,
        None => {
            return Vec::new();
        },
    };
    let network = match asn_wanted {
        Some(asn) => Network::Asn(asn),
        None => if text::same(label, "unmapped IP") {
            Network::UnmappedIp
        } else if text::same(label, "Tor / I2P / CJDNS") {
            Network::Anonymising
        } else {
            Network::Unknown
        },
    };
    let list = analysis.peers.iter();
    let ghost peers = analysis.peers@.peers;
    let ghost bytes = asn::asmap_bytes(*asmap);
    let mut wanted: Vec<bool> = Vec::new();
    let mut keys: Vec<(u64, u64)> = Vec::new();
    let mut i: usize = 0;
    while i < list.len()
        invariant
            i <= list@.len(),
            list@.len() == peers.len(),
            forall|k: int| 0 <= k < list@.len() ==> (#[trigger] list@[k])@ == peers[k],
            bytes == asn::asmap_bytes(*asmap),
            wanted@ == of_network(peers, bytes, network).take(i as int),
            keys@ == event_keys(peers).take(i as int),
        decreases list@.len() - i,
    {
        let peer = &list[i];
        assert(peer@ == peers[i as int]);
        wanted.push(asn::network_of(peer, asmap) == network);
        keys.push((u64::MAX - peer.events(), 0));
        i = i + 1;
        assert(wanted@ =~= of_network(peers, bytes, network).take(i as int));
        assert(keys@ =~= event_keys(peers).take(i as int));
    }
    assert(wanted@ =~= of_network(peers, bytes, network));
    assert(keys@ =~= event_keys(peers));
    let order = order::sort_picked(&wanted, &keys);
    let shown = order::page_rows(&order, 0, limit);
    assert forall|k: int| 0 <= k < shown@.len() implies #[trigger] shown@[k] < peers.len() by {
        assert(shown@[k] == order@[k]);
    }
    peer_list::rows_at(list, &shown, Ghost(peers))
}

/// The peers shown of a network are all of its peers, each once, the busiest first.
pub proof fn law_a_network_shows_its_peers_busiest_first(
    peers: Seq<Peer>,
    bytes: Seq<u8>,
    network: Network,
    row: usize,
)
    requires
        peers.len() <= usize::MAX,
    ensures
        ({
            let rows = order::ordered_picks(of_network(peers, bytes, network), event_keys(peers));
            &&& rows.no_duplicates()
            &&& rows.contains(row) <==> row < peers.len() && asn::network_in(
                peers[row as int],
                bytes,
            ) == network
            &&& forall|i: int, j: int|
                #![trigger rows[i], rows[j]]
                0 <= i < j < rows.len() ==> peers[rows[i] as int].events()
                    >= peers[rows[j] as int].events()
        }),
{
    let wanted = of_network(peers, bytes, network);
    let keys = event_keys(peers);
    let rows = order::ordered_picks(wanted, keys);
    order::law_exactly_the_wanted_rows_are_listed(wanted, keys, row);
    order::law_listed_rows_ascend(wanted, keys);
    if rows.contains(row) {
        let i = choose|i: int| 0 <= i < rows.len() && rows[i] == row;
        assert(wanted[rows[i] as int]);
    }
    assert forall|i: int, j: int|
        #![trigger rows[i], rows[j]]
        0 <= i < j < rows.len() implies peers[rows[i] as int].events()
        >= peers[rows[j] as int].events() by {
        assert(rows[i] < wanted.len() && rows[j] < wanted.len());
        assert(keys[rows[i] as int].0 <= keys[rows[j] as int].0);
    }
}

} // verus!
