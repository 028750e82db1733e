//! The peer table, and one peer in full.

use crate::analysis::Analysis;
use crate::kind::EventKind;
use crate::latency;
use crate::order;
use crate::peers;
use crate::peers::{
    CommandCounts, Directory, Lifecycle, LifecycleEvent, Peer, PeerStats, LIFECYCLE_CAP,
};
use crate::relay;
use crate::text;
use crate::view::raster;
use crate::view::rows;
use crate::view::rows::PeerRow;
use crate::view::scorecard;
use crate::view::scorecard::RelayRow;
use vstd::prelude::*;

verus! {

/// A page of the peer table.
#[derive(Debug)]
pub struct PeerPage<'a> {
    pub total: usize,
    pub offset: usize,
    pub rows: Vec<PeerRow<'a>>,
}

/// What peer rows are ordered by.
pub open spec fn sort_key(peer: Peer, sort: Seq<char>) -> u64 {
    if sort == "firstSeen"@ {
        peer.first_seen
    } else if sort == "lastSeen"@ {
        peer.last_seen
    } else if sort == "duration"@ {
        peer.duration()
    } else if sort == "messagesIn"@ {
        peer.messages_in
    } else if sort == "messagesOut"@ {
        peer.messages_out
    } else if sort == "bytesIn"@ {
        peer.bytes_in
    } else if sort == "bytesOut"@ {
        peer.bytes_out
    } else if sort == "events"@ {
        peer.events()
    } else {
        peer.peer_id
    }
}

/// How peer rows are ordered.
pub fn peer_sort_key(peer: &PeerStats, sort: &str) -> (key: u64)
    ensures
        key == sort_key(peer@, sort@),
{
    if text::same(sort, "firstSeen") {
        peer.first_seen
    } else if text::same(sort, "lastSeen") {
        peer.last_seen
    } else if text::same(sort, "duration") {
        peer.duration_ms()
    } else if text::same(sort, "messagesIn") {
        peer.messages_in
    } else if text::same(sort, "messagesOut") {
        peer.messages_out
    } else if text::same(sort, "bytesIn") {
        peer.bytes_in
    } else if text::same(sort, "bytesOut") {
        peer.bytes_out
    } else if text::same(sort, "events") {
        peer.events()
    } else {
        peer.peer_id
    }
}

/// The keys of every peer. Peer id as a tiebreak keeps paging stable for equal
/// keys.
pub open spec fn sort_keys(
    peers: Seq<Peer>,
    sort: Seq<char>,
    descending: bool,
) -> Seq<(u64, u64)> {
    Seq::new(
        peers.len(),
        |i: int| (order::turned(sort_key(peers[i], sort), descending), peers[i].peer_id),
    )
}

/// A page of the peer table.
pub fn peers<'a>(
    analysis: &'a Analysis,
    sort: &str,
    descending: bool,
    offset: usize,
    limit: usize,
) -> (page: PeerPage<'a>)
    requires
        analysis.wf(),
    ensures
        page.total == analysis.peers@.peers.len(),
        page.offset == offset,
        ({
            let all = analysis.peers@.peers;
            let shown = order::page_of(
                order::order_of(sort_keys(all, sort@, descending)),
                offset as int,
                limit as int,
            );
            &&& page.rows@.len() == shown.len()
            &&& forall|i: int|
                0 <= i < shown.len() ==> rows::is_row_of(
                    #[trigger] page.rows@[i],
                    all[shown[i] as int],
                )
        }),
{
    let list = analysis.peers.iter();
    let ghost all = analysis.peers@.peers;
    let mut keys: Vec<(u64, u64)> = Vec::new();
    let mut i: usize = 0;
    while i < list.len()
        invariant
            i <= list@.len(),
            list@.len() == all.len(),
            forall|k: int| 0 <= k < list@.len() ==> (#[trigger] list@[k])@ == all[k],
            keys@ == sort_keys(all, sort@, descending).take(i as int),
        decreases list@.len() - i,
    {
        let peer = &list[i];
        assert(peer@ == all[i as int]);
        let key: u64 = peer_sort_key(peer, sort);
        keys.push(
            (
                if descending {
                    u64::MAX - key
                } else {
                    key
                },
                peer.peer_id,
            ),
        );
        i = i + 1;
        assert(keys@ =~= sort_keys(all, sort@, descending).take(i as int));
    }
    assert(keys@ =~= sort_keys(all, sort@, descending));
    let order = order::sort_by_numbers(keys);
    let shown = order::page_rows(&order, offset, limit);
    assert forall|k: int| 0 <= k < shown@.len() implies #[trigger] shown@[k] < all.len() by {
        let start = if offset < order@.len() {
            offset as int
        } else {
            order@.len() as int
        };
        assert(shown@[k] == order@[start + k]);
    }
    PeerPage { total: list.len(), offset, rows: rows_at(list, &shown, Ghost(all)) }
}

/// The lines of some peers.
pub(crate) fn rows_at<'a>(
    list: &'a Vec<PeerStats>,
    shown: &Vec<usize>,
    all: Ghost<Seq<Peer>>,
) -> (lines: Vec<PeerRow<'a>>)
    requires
        list@.len() == all@.len(),
        forall|k: int| 0 <= k < list@.len() ==> (#[trigger] list@[k])@ == all@[k],
        forall|k: int| 0 <= k < shown@.len() ==> #[trigger] shown@[k] < list@.len(),
    ensures
        lines@.len() == shown@.len(),
        forall|i: int|
            0 <= i < shown@.len() ==> rows::is_row_of(
                #[trigger] lines@[i],
                all@[shown@[i] as int],
            ),
{
    let mut lines: Vec<PeerRow<'a>> = Vec::new();
    let mut i: usize = 0;
    while i < shown.len()
        invariant
            i <= shown@.len(),
            lines@.len() == i,
            list@.len() == all@.len(),
            forall|k: int| 0 <= k < list@.len() ==> (#[trigger] list@[k])@ == all@[k],
            forall|k: int| 0 <= k < shown@.len() ==> #[trigger] shown@[k] < list@.len(),
            forall|k: int|
                0 <= k < i ==> rows::is_row_of(#[trigger] lines@[k], all@[shown@[k] as int]),
        decreases shown@.len() - i,
    {
        lines.push(rows::peer_row(&list[shown[i]]));
        i = i + 1;
    }
    lines
}

/// How often a peer used one command.
#[derive(Debug, Clone, Copy)]
pub struct CommandUse<'a> {
    pub command: &'a str,
    pub counts: CommandCounts,
    pub total: u64,
}

/// One event in the life of a connection.
#[derive(Debug)]
pub struct LifecycleRow<'a> {
    pub event: &'a LifecycleEvent,
    /// When the connection was established, in milliseconds since the epoch.
    pub established_at: Option<u64>,
    /// How long the connection had lived.
    pub lifetime_ms: Option<u64>,
}

/// One peer in full.
#[derive(Debug)]
pub struct PeerDetail<'a> {
    pub row: PeerRow<'a>,
    pub user_agent: Option<&'a str>,
    pub user_agent_from: Option<&'static str>,
    pub commands: Vec<CommandUse<'a>>,
    pub lifecycle: Vec<LifecycleRow<'a>>,
    pub lifecycle_total: u64,
    pub lifecycle_cap: usize,
    /// `None` for a peer that never relayed anything.
    pub relay: Option<RelayRow<'a>>,
}

/// When a connection was established, in milliseconds. `time_established` is a
/// UNIX epoch timestamp in *seconds*, not a duration.
pub open spec fn established_ms(entry: Lifecycle) -> Option<u64> {
    match entry.time_established {
        Some(seconds) => Some(latency::capped(seconds * 1000, 0)),
        None => None,
    }
}

/// How long a connection had lived. What is actually interesting is not when it
/// was established but that, so it is derived from the event's own millisecond
/// timestamp.
pub open spec fn lived_ms(entry: Lifecycle) -> Option<u64> {
    match entry.time_established {
        Some(seconds) => Some(peers::lifetime(entry.timestamp, seconds)),
        None => None,
    }
}

/// What some agent a peer goes by is called.
pub open spec fn agent_in(agents: Seq<Seq<char>>, peer: Peer) -> Option<Seq<char>> {
    match peer.user_agent {
        Some(id) => if id < agents.len() {
            Some(agents[id as int])
        } else {
            None
        },
        None => None,
    }
}

/// How a peer's name was learned.
pub open spec fn agent_source_in(peer: Peer) -> Option<Seq<char>> {
    match peer.user_agent_source {
        Some(source) => Some(source.text()),
        None => None,
    }
}

/// Whether this is how often a peer used a command.
pub open spec fn is_use_of(
    used: CommandUse<'_>,
    command: (u16, CommandCounts),
    kinds: Seq<EventKind>,
) -> bool {
    &&& used.command@ == raster::kind_text(kinds, command.0)
    &&& used.counts == command.1
    &&& used.total == command.1.total()
}

/// How often a peer used each command, the most used first.
fn uses_of<'a>(analysis: &'a Analysis, peer: &PeerStats) -> (uses: Vec<CommandUse<'a>>)
    ensures
        ({
            let order = order::order_of(raster::command_keys(peer@.commands));
            &&& uses@.len() == peer@.commands.len()
            &&& order.len() == uses@.len()
            &&& forall|i: int|
                0 <= i < uses@.len() ==> is_use_of(
                    #[trigger] uses@[i],
                    peer@.commands[order[i] as int],
                    analysis.kinds@,
                )
        }),
{
    let order = raster::command_order(&peer.commands);
    let mut uses: Vec<CommandUse<'a>> = Vec::new();
    let mut i: usize = 0;
    while i < order.len()
        invariant
            i <= order@.len(),
            uses@.len() == i,
            forall|k: int| 0 <= k < order@.len() ==> #[trigger] order@[k] < peer.commands@.len(),
            forall|k: int|
                0 <= k < i ==> is_use_of(
                    #[trigger] uses@[k],
                    peer.commands@[order@[k] as int],
                    analysis.kinds@,
                ),
        decreases order@.len() - i,
    {
        let command = &peer.commands[order[i]];
        uses.push(
            CommandUse {
                command: raster::kind_name(analysis, command.0),
                counts: command.1,
                total: command.1.messages(),
            },
        );
        i = i + 1;
    }
    uses
}

/// Whether this is the line of a connection event.
pub open spec fn is_lifecycle_row(row: LifecycleRow<'_>, entry: Lifecycle) -> bool {
    &&& row.event@ == entry
    &&& row.established_at == established_ms(entry)
    &&& row.lifetime_ms == lived_ms(entry)
}

/// The lines of a peer's connection events.
fn lifecycle_of(peer: &PeerStats) -> (lines: Vec<LifecycleRow<'_>>)
    ensures
        lines@.len() == peer@.lifecycle.len(),
        forall|i: int|
            0 <= i < lines@.len() ==> is_lifecycle_row(
                #[trigger] lines@[i],
                peer@.lifecycle[i],
            ),
{
    let mut lines: Vec<LifecycleRow<'_>> = Vec::new();
    let mut i: usize = 0;
    while i < peer.lifecycle.len()
        invariant
            i <= peer.lifecycle@.len(),
            lines@.len() == i,
            forall|k: int|
                0 <= k < i ==> is_lifecycle_row(#[trigger] lines@[k], peer@.lifecycle[k]),
        decreases peer.lifecycle@.len() - i,
    {
        let event: &LifecycleEvent = &peer.lifecycle[i];
        assert(event@ == peer@.lifecycle[i as int]);
        let established_at: Option<u64> = match event.time_established {
            Some(seconds) => Some(
                match seconds.checked_mul(1000) {
                    Some(ms) => ms,
                    None => u64::MAX,
                },
            ),
            None => None,
        };
        let lifetime_ms: Option<u64> = match established_at {
            Some(established) => Some(event.timestamp.saturating_sub(established)),
            None => None,
        };
        lines.push(LifecycleRow { event, established_at, lifetime_ms });
        i = i + 1;
    }
    lines
}

/// One peer in full: identity, per-command counts and connection lifecycle.
/// `None` if there is no such peer in the archive.
pub fn peer_detail<'a>(analysis: &'a Analysis, peer_id: u64) -> (detail: Option<PeerDetail<'a>>)
    requires
        analysis.wf(),
    ensures
        detail is None <==> peers::place(analysis.peers@.peers, peer_id) is None,
        detail matches Some(detail) ==> {
            let directory = analysis.peers@;
            let peer = directory.peers[peers::place(directory.peers, peer_id)->0];
            let order = order::order_of(raster::command_keys(peer.commands));
            let record = relay::record_of(analysis.relay@.peers, peer_id);
            &&& peer.peer_id == peer_id
            &&& rows::is_row_of(detail.row, peer)
            &&& rows::name_in(detail.user_agent) == agent_in(directory.agents, peer)
            &&& rows::name_in(detail.user_agent_from) == agent_source_in(peer)
            &&& detail.commands@.len() == peer.commands.len()
            &&& order.len() == peer.commands.len()
            &&& forall|i: int|
                0 <= i < detail.commands@.len() ==> is_use_of(
                    #[trigger] detail.commands@[i],
                    peer.commands[order[i] as int],
                    analysis.kinds@,
                )
            &&& detail.lifecycle@.len() == peer.lifecycle.len()
            &&& forall|i: int|
                0 <= i < detail.lifecycle@.len() ==> is_lifecycle_row(
                    #[trigger] detail.lifecycle@[i],
                    peer.lifecycle[i],
                )
            &&& detail.lifecycle_total == peer.lifecycle_total
            &&& detail.lifecycle_cap == LIFECYCLE_CAP
            &&& detail.relay is None <==> record.is_blank()
            &&& detail.relay matches Some(row) ==> scorecard::is_relay_row(
                row,
                peer_id,
                record,
                directory,
            )
        },
{
    let peer = match analysis.peers.get(peer_id) {
        Some(peer) => peer,
        None => {
            return None;
        },
    };
    let user_agent: Option<&'a str> = match peer.user_agent {
        Some(id) => analysis.peers.user_agent(id),
        None => None,
    };
    let user_agent_from: Option<&'static str> = match peer.user_agent_source {
        Some(source) => Some(source.as_str()),
        None => None,
    };
    let record = match analysis.relay.peer(peer_id) {
        Some(record) => if record.is_empty() {
            None
        } else {
            Some(scorecard::relay_row(analysis, peer_id, record))
        },
        None => None,
    };
    Some(
        PeerDetail {
            row: rows::peer_row(peer),
            user_agent,
            user_agent_from,
            commands: uses_of(analysis, peer),
            lifecycle: lifecycle_of(peer),
            lifecycle_total: peer.lifecycle_total,
            lifecycle_cap: LIFECYCLE_CAP,
            relay: record,
        },
    )
}

/// Whether `x` comes before `y` in a column, or stands level with it.
pub open spec fn in_turn(x: int, y: int, descending: bool) -> bool {
    if descending {
        x >= y
    } else {
        x <= y
    }
}

/// The peer table lists every peer once, by the column asked for: from the least up, or
/// from the largest down where it descends, and by their ids where they are level. What is
/// no column is the id.
pub proof fn law_the_peer_table_is_in_the_order_of_its_column(
    directory: Directory,
    sort: Seq<char>,
    descending: bool,
)
    requires
        directory.valid(),
        directory.peers.len() <= usize::MAX,
    ensures
        ({
            let peers = directory.peers;
            let order = order::order_of(sort_keys(peers, sort, descending));
            &&& order.len() == peers.len()
            &&& order.no_duplicates()
            &&& forall|i: int| 0 <= i < order.len() ==> #[trigger] order[i] < peers.len()
            &&& forall|i: int, j: int|
                #![trigger order[i], order[j]]
                0 <= i < j < order.len() ==> {
                    let (a, b) = (peers[order[i] as int], peers[order[j] as int]);
                    let (x, y) = if sort == "firstSeen"@ {
                        (a.first_seen as int, b.first_seen as int)
                    } else if sort == "lastSeen"@ {
                        (a.last_seen as int, b.last_seen as int)
                    } else if sort == "duration"@ {
                        (a.last_seen - a.first_seen, b.last_seen - b.first_seen)
                    } else if sort == "messagesIn"@ {
                        (a.messages_in as int, b.messages_in as int)
                    } else if sort == "messagesOut"@ {
                        (a.messages_out as int, b.messages_out as int)
                    } else if sort == "bytesIn"@ {
                        (a.bytes_in as int, b.bytes_in as int)
                    } else if sort == "bytesOut"@ {
                        (a.bytes_out as int, b.bytes_out as int)
                    } else if sort == "events"@ {
                        (a.events() as int, b.events() as int)
                    } else {
                        (a.peer_id as int, b.peer_id as int)
                    };
                    in_turn(x, y, descending) && (x == y ==> a.peer_id < b.peer_id)
                }
        }),
        in_turn(0, 1, false) && !in_turn(1, 0, false) && in_turn(1, 0, true) && !in_turn(0, 1, true),
{
    let peers = directory.peers;
    let keys = sort_keys(peers, sort, descending);
    order::law_ordered_rows_ascend(keys);
    let order = order::order_of(keys);
    assert forall|i: int, j: int|
        #![trigger order[i], order[j]]
        0 <= i < j < order.len() implies {
        let (a, b) = (peers[order[i] as int], peers[order[j] as int]);
        let (x, y) = (sort_key(a, sort), sort_key(b, sort));
        in_turn(x as int, y as int, descending) && (x == y ==> a.peer_id < b.peer_id)
    } by {
        let (a, b) = (order[i] as int, order[j] as int);
        assert(order[i] < keys.len() && order[j] < keys.len());
        assert(order[i] != order[j]);
        assert(peers[a].index == a && peers[b].index == b);
        if a < b {
            assert(peers[a].peer_id != peers[b].peer_id);
        } else {
            assert(peers[b].peer_id != peers[a].peer_id);
        }
    }
    assert forall|i: int, j: int|
        #![trigger order[i], order[j]]
        0 <= i < j < order.len() implies peers[order[i] as int].first_seen
        <= peers[order[i] as int].last_seen && peers[order[j] as int].first_seen
        <= peers[order[j] as int].last_seen by {
        assert(order[i] < peers.len() && order[j] < peers.len());
        assert(peers[order[i] as int].tidy() && peers[order[j] as int].tidy());
    }
}

/// When a connection was established is given in seconds and shown in milliseconds, as far
/// as those go, and how long it had lived is from then to the event; nothing if that is in
/// the future. An event that says nothing of it shows neither.
pub proof fn law_a_connection_lives_from_when_it_was_established(entry: Lifecycle)
    ensures
        match entry.time_established {
            Some(seconds) => {
                &&& seconds * 1000 <= u64::MAX ==> established_ms(entry) == Some(
                    (seconds * 1000) as u64,
                )
                &&& seconds * 1000 <= entry.timestamp ==> lived_ms(entry) == Some(
                    (entry.timestamp - seconds * 1000) as u64,
                )
                &&& seconds * 1000 > entry.timestamp ==> lived_ms(entry) == Some(0u64)
            },
            None => established_ms(entry) is None && lived_ms(entry) is None,
        },
{
}

} // verus!
