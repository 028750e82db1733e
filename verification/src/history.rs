//! What a run of recordings comes to, peer by peer.
//!
//! A peer table is changed one recording at a time. What it says of a peer in the end
//! is what the recordings about that peer say, whatever was recorded in between.

use crate::latency;
use crate::latency::Distribution;
use crate::peers;
use crate::peers::{Directory, Lifecycle, LifecycleKind, Peer, UserAgentSource};
use crate::proto::{ConnEvent, Connection, ConnectionEvent, MessageEvent, Metadata, Msg};
use vstd::prelude::*;

verus! {

/// Something recorded in a peer table.
pub enum Recording {
    Message(u64, MessageEvent, u16),
    Connection(u64, ConnectionEvent),
    Agent(u64, Seq<char>, UserAgentSource),
}

impl Recording {
    /// The peer it is an event about, if it is one, and when that was. What a peer is
    /// called is no event.
    pub open spec fn about(self) -> Option<(u64, u64)> {
        match self {
            Recording::Message(timestamp, event, _) => Some((event.meta.peer_id, timestamp)),
            Recording::Connection(timestamp, event) => match event.event {
                Some(inner) => Some((peers::reported(inner).peer_id, timestamp)),
                None => None,
            },
            Recording::Agent(_, _, _) => None,
        }
    }

    /// Whether it is an event about this peer.
    pub open spec fn concerns(self, peer_id: u64) -> bool {
        self.about() matches Some((id, _)) && id == peer_id
    }

    /// Whether it is a connection's event.
    pub open spec fn of_a_connection(self) -> bool {
        self matches Recording::Connection(_, event) && event.event is Some
    }

    /// Whether it is a connection's event of this kind.
    pub open spec fn is_of(self, kind: LifecycleKind) -> bool {
        self matches Recording::Connection(_, event) && (event.event matches Some(inner)
            && peers::reported(inner).kind == kind)
    }

    /// Whether it is a message that went this way.
    pub open spec fn went(self, inbound: bool) -> bool {
        self matches Recording::Message(_, event, _) && event.meta.inbound == inbound
    }

    /// The bytes it says were sent.
    pub open spec fn size(self) -> int {
        match self {
            Recording::Message(_, event, _) => event.meta.size as int,
            _ => 0,
        }
    }

    /// The directory once this has been recorded.
    pub open spec fn into(self, directory: Directory) -> Directory {
        match self {
            Recording::Message(timestamp, event, command) => directory.with_message(
                timestamp,
                event,
                command,
            ),
            Recording::Connection(timestamp, event) => directory.with_connection(timestamp, event),
            Recording::Agent(peer_id, agent, source) => directory.named(peer_id, agent, source),
        }
    }
}

/// The directory once all of this has been recorded, in order.
pub open spec fn after(run: Seq<Recording>) -> Directory
    decreases run.len(),
{
    if run.len() == 0 {
        Directory::empty()
    } else {
        run.last().into(after(run.drop_last()))
    }
}

/// The times of the events about a peer.
pub open spec fn times(run: Seq<Recording>, peer_id: u64) -> Seq<u64>
    decreases run.len(),
{
    if run.len() == 0 {
        Seq::empty()
    } else {
        let front = times(run.drop_last(), peer_id);
        match run.last().about() {
            Some((id, timestamp)) if id == peer_id => front.push(timestamp),
            _ => front,
        }
    }
}

/// How many events of connections there were about a peer.
pub open spec fn connection_events(run: Seq<Recording>, peer_id: u64) -> nat
    decreases run.len(),
{
    if run.len() == 0 {
        0
    } else {
        connection_events(run.drop_last(), peer_id) + (if run.last().concerns(peer_id)
            && run.last().of_a_connection() {
            1nat
        } else {
            0nat
        })
    }
}

/// How many of the events of connections about a peer were of this kind.
pub open spec fn events_of_kind(run: Seq<Recording>, peer_id: u64, kind: LifecycleKind) -> nat
    decreases run.len(),
{
    if run.len() == 0 {
        0
    } else {
        events_of_kind(run.drop_last(), peer_id, kind) + (if run.last().concerns(peer_id)
            && run.last().is_of(kind) {
            1nat
        } else {
            0nat
        })
    }
}

/// How many messages went one way between this node and a peer.
pub open spec fn messages(run: Seq<Recording>, peer_id: u64, inbound: bool) -> nat
    decreases run.len(),
{
    if run.len() == 0 {
        0
    } else {
        messages(run.drop_last(), peer_id, inbound) + (if run.last().concerns(peer_id)
            && run.last().went(inbound) {
            1nat
        } else {
            0nat
        })
    }
}

/// The bytes of those messages.
pub open spec fn bytes(run: Seq<Recording>, peer_id: u64, inbound: bool) -> int
    decreases run.len(),
{
    if run.len() == 0 {
        0
    } else {
        bytes(run.drop_last(), peer_id, inbound) + (if run.last().concerns(peer_id)
            && run.last().went(inbound) {
            run.last().size()
        } else {
            0
        })
    }
}

/// How many connections ended in this way.
pub open spec fn endings(run: Seq<Recording>, kind: LifecycleKind) -> nat
    decreases run.len(),
{
    if run.len() == 0 {
        0
    } else {
        endings(run.drop_last(), kind) + (if run.last().is_of(kind) {
            1nat
        } else {
            0nat
        })
    }
}

/// The peers that events are about, in the order of the first event about each.
pub open spec fn order_seen(run: Seq<Recording>) -> Seq<u64>
    decreases run.len(),
{
    if run.len() == 0 {
        Seq::empty()
    } else {
        let front = order_seen(run.drop_last());
        match run.last().about() {
            Some((id, _)) if !front.contains(id) => front.push(id),
            _ => front,
        }
    }
}

/// Whether there are indices for all the peers of a run. Without one, an event cannot be
/// recorded.
pub open spec fn has_room(run: Seq<Recording>) -> bool {
    order_seen(run).len() <= u32::MAX + 1
}

/// What a directory says of a peer.
pub open spec fn found(directory: Directory, peer_id: u64) -> Option<Peer> {
    match peers::place(directory.peers, peer_id) {
        Some(at) => Some(directory.peers[at]),
        None => None,
    }
}

/// A peer, apart from where it stands and what it is called.
pub open spec fn facts(peer: Peer) -> Peer {
    Peer { index: 0, user_agent: None, user_agent_source: None, ..peer }
}

/// What an event says of a peer, given what was known of it.
pub open spec fn told(known: Option<Peer>, recording: Recording, peer_id: u64) -> Option<Peer> {
    match recording.about() {
        Some((id, timestamp)) if id == peer_id => {
            let seen = match known {
                Some(peer) => peer.touched(timestamp),
                None => Peer::fresh(peer_id, 0, timestamp),
            };
            match recording {
                Recording::Message(_, event, command) => Some(
                    seen.with_message(event.meta, command),
                ),
                Recording::Connection(_, event) => {
                    let said = peers::reported(event.event->0);
                    Some(seen.identified(said.conn).with_lifecycle(entry_of(timestamp, said)))
                },
                Recording::Agent(_, _, _) => known,
            }
        },
        _ => known,
    }
}

/// The entry in a peer's lifecycle for a connection's event.
pub open spec fn entry_of(timestamp: u64, said: peers::Reported) -> Lifecycle {
    Lifecycle {
        timestamp,
        kind: said.kind,
        time_established: said.time_established,
        existing_connections: said.existing_connections,
        message: said.message,
    }
}

/// What the events about a peer say of it.
pub open spec fn story(run: Seq<Recording>, peer_id: u64) -> Option<Peer>
    decreases run.len(),
{
    if run.len() == 0 {
        None
    } else {
        told(story(run.drop_last(), peer_id), run.last(), peer_id)
    }
}

spec fn same_facts(a: Option<Peer>, b: Option<Peer>) -> bool {
    match (a, b) {
        (Some(a), Some(b)) => facts(a) == facts(b),
        (None, None) => true,
        _ => false,
    }
}

/// The ids of the peers in a directory, in their order.
pub open spec fn ids(directory: Directory) -> Seq<u64> {
    Seq::new(directory.peers.len(), |i: int| directory.peers[i].peer_id)
}

/// A peer stands in a directory if its id does.
proof fn lemma_ids(directory: Directory, peer_id: u64)
    ensures
        ids(directory).contains(peer_id) <==> peers::place(directory.peers, peer_id) is Some,
{
    if ids(directory).contains(peer_id) {
        let at = choose|at: int| 0 <= at < ids(directory).len() && ids(directory)[at] == peer_id;
        assert(peers::stands_at(directory.peers, peer_id, at));
    }
    if let Some(at) = peers::place(directory.peers, peer_id) {
        assert(peers::stands_at(directory.peers, peer_id, at));
        assert(ids(directory)[at] == peer_id);
    }
}

/// Changing a peer in its place changes what is found of that peer, and of no other.
proof fn lemma_found_changed(before: Directory, now: Directory, at: int, peer: Peer)
    requires
        before.valid(),
        now.valid(),
        0 <= at < before.peers.len(),
        now.peers == before.peers.update(at, peer),
        peer.peer_id == before.peers[at].peer_id,
    ensures
        found(now, peer.peer_id) == Some(peer),
        forall|id: u64| id != peer.peer_id ==> #[trigger] found(now, id) == found(before, id),
{
    assert(peers::stands_at(now.peers, peer.peer_id, at));
    peers::lemma_place(now, peer.peer_id, at);
    assert forall|id: u64| id != peer.peer_id implies #[trigger] found(now, id) == found(
        before,
        id,
    ) by {
        if let Some(i) = peers::place(before.peers, id) {
            assert(peers::stands_at(before.peers, id, i));
            assert(peers::stands_at(now.peers, id, i));
            peers::lemma_place(now, id, i);
        } else {
            assert forall|i: int| !peers::stands_at(now.peers, id, i) by {
                assert(!peers::stands_at(before.peers, id, i));
            }
        }
    }
}

proof fn lemma_found_touched(directory: Directory, peer_id: u64, timestamp: u64)
    requires
        directory.valid(),
        directory.has_room(peer_id),
    ensures
        ({
            let now = directory.touched(peer_id, timestamp);
            &&& now.valid()
            &&& now.durations == directory.durations
            &&& ids(now) == (if ids(directory).contains(peer_id) {
                ids(directory)
            } else {
                ids(directory).push(peer_id)
            })
            &&& found(now, peer_id) == Some(
                match found(directory, peer_id) {
                    Some(peer) => peer.touched(timestamp),
                    None => Peer::fresh(peer_id, directory.peers.len() as u32, timestamp),
                },
            )
            &&& forall|id: u64|
                id != peer_id ==> #[trigger] found(now, id) == found(directory, id)
        }),
{
    let now = directory.touched(peer_id, timestamp);
    match peers::place(directory.peers, peer_id) {
        Some(at) => {
            assert(peers::stands_at(directory.peers, peer_id, at));
            let peer = directory.peers[at].touched(timestamp);
            peers::lemma_changed(directory, now, at, peer);
            lemma_found_changed(directory, now, at, peer);
            assert(ids(directory)[at] == peer_id);
            assert(ids(now) =~= ids(directory));
        },
        None => {
            let n = directory.peers.len() as int;
            peers::lemma_fresh_tidy(peer_id, n as u32, timestamp);
            assert forall|i: int| 0 <= i < n implies (#[trigger] directory.peers[i]).peer_id
                != peer_id by {
                assert(!peers::stands_at(directory.peers, peer_id, i));
            }
            assert(now.valid());
            assert(!ids(directory).contains(peer_id));
            assert(ids(now) =~= ids(directory).push(peer_id));
            assert(peers::stands_at(now.peers, peer_id, n));
            peers::lemma_place(now, peer_id, n);
            assert forall|id: u64| id != peer_id implies #[trigger] found(now, id) == found(
                directory,
                id,
            ) by {
                if let Some(i) = peers::place(directory.peers, id) {
                    assert(peers::stands_at(directory.peers, id, i));
                    assert(peers::stands_at(now.peers, id, i));
                    peers::lemma_place(now, id, i);
                } else {
                    assert forall|i: int| !peers::stands_at(now.peers, id, i) by {
                        if 0 <= i < n {
                            assert(!peers::stands_at(directory.peers, id, i));
                        }
                    }
                }
            }
        },
    }
}

proof fn lemma_found_named(
    directory: Directory,
    peer_id: u64,
    agent: Seq<char>,
    source: UserAgentSource,
)
    requires
        directory.valid(),
    ensures
        ({
            let now = directory.named(peer_id, agent, source);
            &&& now.valid()
            &&& now.durations == directory.durations
            &&& ids(now) == ids(directory)
            &&& forall|id: u64| same_facts(#[trigger] found(now, id), found(directory, id))
        }),
{
    let now = directory.named(peer_id, agent, source);
    if peers::place(directory.peers, peer_id) is Some {
        peers::lemma_named(directory, peer_id, agent, source);
        let at = peers::place(directory.peers, peer_id)->0;
        assert(peers::stands_at(directory.peers, peer_id, at));
        if now != directory {
            let peer = now.peers[at];
            assert(now.peers =~= directory.peers.update(at, peer));
            lemma_found_changed(directory, now, at, peer);
            assert(ids(now) =~= ids(directory));
            assert(facts(peer) == facts(directory.peers[at]));
            peers::lemma_place(directory, peer_id, at);
        }
    }
}

/// Seeing a known peer once more changes when it was seen.
proof fn lemma_seen_again(directory: Directory, peer_id: u64, timestamp: u64)
    requires
        directory.valid(),
        found(directory, peer_id) is Some,
    ensures
        ({
            let now = directory.touched(peer_id, timestamp);
            &&& now.valid()
            &&& now.durations == directory.durations
            &&& ids(now) == ids(directory)
            &&& found(now, peer_id) == Some((found(directory, peer_id)->0).touched(timestamp))
            &&& forall|id: u64|
                id != peer_id ==> #[trigger] found(now, id) == found(directory, id)
        }),
{
    let now = directory.touched(peer_id, timestamp);
    let at = peers::place(directory.peers, peer_id)->0;
    assert(peers::stands_at(directory.peers, peer_id, at));
    let peer = directory.peers[at].touched(timestamp);
    peers::lemma_changed(directory, now, at, peer);
    lemma_found_changed(directory, now, at, peer);
    assert(ids(now) =~= ids(directory));
}

/// What a message says of a peer does not depend on where it stands or what it is
/// called.
proof fn lemma_same_message(a: Peer, b: Peer, meta: Metadata, command: u16)
    requires
        facts(a) == facts(b),
    ensures
        facts(a.with_message(meta, command)) == facts(b.with_message(meta, command)),
{
    assert(a.commands == facts(a).commands);
    assert(b.commands == facts(b).commands);
    assert(a.messages_in == facts(a).messages_in && a.messages_out == facts(a).messages_out);
    assert(a.bytes_in == facts(a).bytes_in && a.bytes_out == facts(a).bytes_out);
    assert(facts(a.with_message(meta, command)) =~= facts(b.with_message(meta, command)));
}

/// One more recording changes what is found of every peer as it says.
proof fn lemma_found_into(directory: Directory, recording: Recording)
    requires
        directory.valid(),
        recording.about() matches Some((id, _)) ==> directory.has_room(id),
    ensures
        ({
            let now = recording.into(directory);
            &&& now.valid()
            &&& ids(now) == (match recording.about() {
                Some((id, _)) if !ids(directory).contains(id) => ids(directory).push(id),
                _ => ids(directory),
            })
            &&& forall|id: u64|
                same_facts(#[trigger] found(now, id), told(found(directory, id), recording, id))
        }),
{
    let now = recording.into(directory);
    match recording {
        Recording::Agent(peer_id, agent, source) => {
            lemma_found_named(directory, peer_id, agent, source);
        },
        Recording::Message(timestamp, event, command) => {
            let id = event.meta.peer_id;
            lemma_found_touched(directory, id, timestamp);
            let once = directory.touched(id, timestamp);
            let introduced = match event.msg {
                Some(Msg::Version(version)) if event.meta.inbound => {
                    lemma_found_named(once, id, version.user_agent@, UserAgentSource::Version);
                    once.named(id, version.user_agent@, UserAgentSource::Version)
                },
                _ => directory,
            };
            assert(introduced == directory || (forall|other: u64|
                same_facts(#[trigger] found(introduced, other), found(once, other))));
            if introduced != directory {
                assert(found(introduced, id) is Some);
                lemma_seen_again(introduced, id, timestamp);
            }
            let seen = introduced.touched(id, timestamp);
            assert(seen.valid());
            assert(forall|other: u64|
                same_facts(#[trigger] found(seen, other), found(once, other)));
            let at = peers::place(seen.peers, id)->0;
            assert(found(seen, id) is Some);
            assert(peers::stands_at(seen.peers, id, at));
            let peer = seen.peers[at].with_message(event.meta, command);
            peers::lemma_message_tidy(seen.peers[at], event.meta, command);
            peers::lemma_changed(seen, now, at, peer);
            lemma_found_changed(seen, now, at, peer);
            assert(ids(now) =~= ids(seen));
            lemma_same_message(seen.peers[at], found(once, id)->0, event.meta, command);
        },
        Recording::Connection(timestamp, event) => {
            if let Some(inner) = event.event {
                let said = peers::reported(inner);
                let id = said.peer_id;
                lemma_found_touched(directory, id, timestamp);
                let seen = directory.touched(id, timestamp);
                let at = peers::place(seen.peers, id)->0;
                assert(peers::stands_at(seen.peers, id, at));
                let peer = seen.peers[at].identified(said.conn).with_lifecycle(
                    entry_of(timestamp, said),
                );
                peers::lemma_lifecycle_tidy(
                    seen.peers[at],
                    said.conn,
                    entry_of(timestamp, said),
                );
                peers::lemma_changed(seen, now, at, peer);
                lemma_found_changed(seen, now, at, peer);
                assert(ids(now) =~= ids(seen));
            }
        },
    }
}

/// What an event says of a peer does not depend on where it stands or what it is called.
proof fn lemma_told(a: Option<Peer>, b: Option<Peer>, recording: Recording, peer_id: u64)
    requires
        same_facts(a, b),
    ensures
        same_facts(told(a, recording, peer_id), told(b, recording, peer_id)),
{
    if let Some((id, timestamp)) = recording.about() {
        if id == peer_id {
            let base = |known: Option<Peer>|
                match known {
                    Some(peer) => peer.touched(timestamp),
                    None => Peer::fresh(peer_id, 0, timestamp),
                };
            if let (Some(p), Some(q)) = (a, b) {
                lemma_fields(p, q);
                assert(facts(p.touched(timestamp)) =~= facts(q.touched(timestamp)));
            }
            let (p, q) = (base(a), base(b));
            assert(facts(p) == facts(q));
            lemma_fields(p, q);
            match recording {
                Recording::Message(_, event, command) => {
                    lemma_same_message(p, q, event.meta, command);
                },
                Recording::Connection(_, event) => {
                    let said = peers::reported(event.event->0);
                    let entry = entry_of(timestamp, said);
                    assert(facts(p.identified(said.conn).with_lifecycle(entry)) =~= facts(
                        q.identified(said.conn).with_lifecycle(entry),
                    ));
                },
                Recording::Agent(_, _, _) => {},
            }
        }
    }
}

proof fn lemma_fields(a: Peer, b: Peer)
    requires
        facts(a) == facts(b),
    ensures
        a.peer_id == b.peer_id,
        a.addr == b.addr,
        a.conn_type == b.conn_type,
        a.network == b.network,
        a.first_seen == b.first_seen,
        a.last_seen == b.last_seen,
        a.messages_in == b.messages_in,
        a.messages_out == b.messages_out,
        a.bytes_in == b.bytes_in,
        a.bytes_out == b.bytes_out,
        a.commands == b.commands,
        a.lifecycle == b.lifecycle,
        a.lifecycle_total == b.lifecycle_total,
        a.lifecycle_counts == b.lifecycle_counts,
{
    let (x, y) = (facts(a), facts(b));
    assert(x.peer_id == a.peer_id && y.peer_id == b.peer_id);
}

/// A directory says of every peer what the events about it say.
proof fn lemma_after(run: Seq<Recording>)
    requires
        has_room(run),
    ensures
        after(run).valid(),
        ids(after(run)) == order_seen(run),
        forall|id: u64| same_facts(#[trigger] found(after(run), id), story(run, id)),
    decreases run.len(),
{
    if run.len() == 0 {
        assert forall|id: u64| same_facts(#[trigger] found(after(run), id), story(run, id)) by {
            assert forall|at: int| !peers::stands_at(after(run).peers, id, at) by {}
        }
        assert(ids(after(run)) =~= order_seen(run));
    } else {
        let front = run.drop_last();
        lemma_after(front);
        if let Some((id, _)) = run.last().about() {
            lemma_ids(after(front), id);
            assert(ids(after(front)).len() == after(front).peers.len());
        }
        lemma_found_into(after(front), run.last());
        assert forall|id: u64| same_facts(#[trigger] found(after(run), id), story(run, id)) by {
            lemma_told(found(after(front), id), story(front, id), run.last(), id);
        }
    }
}

/// Whether a peer was seen from the earliest of some times to the latest.
pub open spec fn spans(peer: Peer, times: Seq<u64>) -> bool {
    &&& times.contains(peer.first_seen)
    &&& times.contains(peer.last_seen)
    &&& forall|i: int|
        0 <= i < times.len() ==> peer.first_seen <= #[trigger] times[i] <= peer.last_seen
    &&& peer.duration() == peer.last_seen - peer.first_seen
}

/// Whether a peer has the messages that were recorded of it. Counters are held at the
/// largest their type can carry.
pub open spec fn has_messages(run: Seq<Recording>, peer_id: u64, peer: Peer) -> bool {
    &&& peer.messages_in == latency::capped(messages(run, peer_id, true) as int, 0)
    &&& peer.messages_out == latency::capped(messages(run, peer_id, false) as int, 0)
    &&& peer.bytes_in == latency::capped(bytes(run, peer_id, true), 0)
    &&& peer.bytes_out == latency::capped(bytes(run, peer_id, false), 0)
}

/// Whether a peer has the events of connections that were recorded of it, of every kind.
pub open spec fn has_connections(run: Seq<Recording>, peer_id: u64, peer: Peer) -> bool {
    &&& peer.lifecycle_total == latency::capped(connection_events(run, peer_id) as int, 0)
    &&& peer.lifecycle_counts.len() == 5
    &&& forall|kind: LifecycleKind|
        peer.lifecycle_counts[#[trigger] kind.slot()] == latency::capped32(
            events_of_kind(run, peer_id, kind) as int,
            0,
        )
}

/// Whether a peer is what the events about it make it.
pub open spec fn fits(run: Seq<Recording>, peer_id: u64, peer: Peer) -> bool {
    &&& peer.peer_id == peer_id
    &&& spans(peer, times(run, peer_id))
    &&& has_messages(run, peer_id, peer)
    &&& has_connections(run, peer_id, peer)
    &&& peer.events() == latency::capped(times(run, peer_id).len() as int, 0)
}

/// Every event about a peer is a message one way or the other, or an event of a
/// connection, of one kind.
proof fn lemma_events(run: Seq<Recording>, peer_id: u64)
    ensures
        times(run, peer_id).len() == messages(run, peer_id, true) + messages(run, peer_id, false)
            + connection_events(run, peer_id),
        connection_events(run, peer_id) == events_of_kind(run, peer_id, LifecycleKind::Inbound)
            + events_of_kind(run, peer_id, LifecycleKind::Outbound) + events_of_kind(
            run,
            peer_id,
            LifecycleKind::Closed,
        ) + events_of_kind(run, peer_id, LifecycleKind::InboundEvicted) + events_of_kind(
            run,
            peer_id,
            LifecycleKind::Misbehaving,
        ),
        bytes(run, peer_id, true) >= 0,
        bytes(run, peer_id, false) >= 0,
        messages(run, peer_id, true) == 0 ==> bytes(run, peer_id, true) == 0,
        messages(run, peer_id, false) == 0 ==> bytes(run, peer_id, false) == 0,
    decreases run.len(),
{
    if run.len() > 0 {
        lemma_events(run.drop_last(), peer_id);
    }
}

/// One more event about a peer widens the time it was seen in as far as it must.
proof fn lemma_spans(peer: Peer, times: Seq<u64>, timestamp: u64)
    requires
        spans(peer, times),
    ensures
        spans(peer.touched(timestamp), times.push(timestamp)),
{
    let now = times.push(timestamp);
    let low = choose|i: int| 0 <= i < times.len() && times[i] == peer.first_seen;
    let high = choose|i: int| 0 <= i < times.len() && times[i] == peer.last_seen;
    assert(now[low] == peer.first_seen);
    assert(now[high] == peer.last_seen);
    assert(now[times.len() as int] == timestamp);
    assert forall|i: int| 0 <= i < times.len() implies #[trigger] now[i] == times[i] by {}
}

/// One more event about a peer counts where it belongs.
proof fn lemma_counts(run: Seq<Recording>, peer_id: u64, seen: Peer)
    requires
        run.len() > 0,
        run.last().concerns(peer_id),
        has_messages(run.drop_last(), peer_id, seen),
        has_connections(run.drop_last(), peer_id, seen),
    ensures
        ({
            let now = match run.last() {
                Recording::Message(_, event, command) => seen.with_message(event.meta, command),
                Recording::Connection(timestamp, event) => {
                    let said = peers::reported(event.event->0);
                    seen.identified(said.conn).with_lifecycle(entry_of(timestamp, said))
                },
                Recording::Agent(_, _, _) => seen,
            };
            has_messages(run, peer_id, now) && has_connections(run, peer_id, now)
        }),
{
    let front = run.drop_last();
    lemma_events(front, peer_id);
    match run.last() {
        Recording::Message(_, event, command) => {
            let now = seen.with_message(event.meta, command);
            assert(now.lifecycle_counts == seen.lifecycle_counts);
            assert forall|kind: LifecycleKind| now.lifecycle_counts[#[trigger] kind.slot()]
                == latency::capped32(events_of_kind(run, peer_id, kind) as int, 0) by {}
        },
        Recording::Connection(timestamp, event) => {
            let said = peers::reported(event.event->0);
            let now = seen.identified(said.conn).with_lifecycle(entry_of(timestamp, said));
            assert forall|kind: LifecycleKind| now.lifecycle_counts[#[trigger] kind.slot()]
                == latency::capped32(events_of_kind(run, peer_id, kind) as int, 0) by {
                assert(seen.lifecycle_counts[kind.slot()] == latency::capped32(
                    events_of_kind(front, peer_id, kind) as int,
                    0,
                ));
            }
        },
        Recording::Agent(_, _, _) => {},
    }
}

proof fn lemma_story(run: Seq<Recording>, peer_id: u64)
    ensures
        match story(run, peer_id) {
            Some(peer) => fits(run, peer_id, peer),
            None => times(run, peer_id).len() == 0,
        },
    decreases run.len(),
{
    if run.len() > 0 {
        let front = run.drop_last();
        let last = run.last();
        lemma_story(front, peer_id);
        lemma_events(front, peer_id);
        lemma_events(run, peer_id);
        let before = times(front, peer_id);
        if last.concerns(peer_id) {
            let (_, timestamp) = last.about()->0;
            let known = story(front, peer_id);
            let seen = match known {
                Some(peer) => peer.touched(timestamp),
                None => Peer::fresh(peer_id, 0, timestamp),
            };
            match known {
                Some(peer) => lemma_spans(peer, before, timestamp),
                None => {
                    assert(before.push(timestamp)[0] == timestamp);
                    assert(before.push(timestamp).len() == 1);
                },
            }
            assert(has_messages(front, peer_id, seen));
            assert(has_connections(front, peer_id, seen)) by {
                assert forall|kind: LifecycleKind| seen.lifecycle_counts[#[trigger] kind.slot()]
                    == latency::capped32(events_of_kind(front, peer_id, kind) as int, 0) by {}
            }
            lemma_counts(run, peer_id, seen);
            let peer = story(run, peer_id)->0;
            assert(peer.first_seen == seen.first_seen && peer.last_seen == seen.last_seen);
        } else {
            if let Some(peer) = story(front, peer_id) {
                assert forall|kind: LifecycleKind| peer.lifecycle_counts[#[trigger] kind.slot()]
                    == latency::capped32(events_of_kind(run, peer_id, kind) as int, 0) by {}
            }
        }
    }
}

/// Over any run of recordings, a peer was seen from the earliest of the events about it
/// to the latest, whatever order they came in. Its events are those, however many entries
/// its lifecycle has dropped; its connections' events are counted exactly, in all and by
/// their kind, and its messages and their bytes by the way they went; counters stop where
/// they are full. Its figures fit together. A peer that no event is about is not there,
/// and what a peer is called changes none of this.
pub proof fn law_a_peer_is_what_its_events_make_it(run: Seq<Recording>, peer_id: u64)
    requires
        has_room(run),
    ensures
        match found(after(run), peer_id) {
            Some(peer) => fits(run, peer_id, peer) && peer.tidy(),
            None => times(run, peer_id).len() == 0,
        },
{
    lemma_after(run);
    lemma_story(run, peer_id);
    assert(same_facts(found(after(run), peer_id), story(run, peer_id)));
    if let Some(peer) = found(after(run), peer_id) {
        let told = story(run, peer_id)->0;
        lemma_fields(peer, told);
        assert(peer.events() == told.events());
        assert(peer.duration() == told.duration());
        let at = peers::place(after(run).peers, peer_id)->0;
        assert(peers::stands_at(after(run).peers, peer_id, at));
        assert(after(run).peers[at].index == at);
    }
}

/// Recording more only ever adds to the peers seen.
proof fn lemma_order(run: Seq<Recording>, more: Seq<Recording>)
    ensures
        order_seen(run).is_prefix_of(order_seen(run + more)),
        order_seen(run).no_duplicates(),
    decreases run.len() + more.len(),
{
    if more.len() == 0 {
        assert(run + more =~= run);
        if run.len() > 0 {
            lemma_order(run.drop_last(), Seq::empty());
        }
    } else {
        lemma_order(run, more.drop_last());
        assert((run + more).drop_last() =~= run + more.drop_last());
    }
}

/// Peers are numbered from zero in the order in which they were first seen, and a peer
/// keeps its number whatever is recorded later.
pub proof fn law_a_peer_keeps_its_index(run: Seq<Recording>, more: Seq<Recording>, at: int)
    requires
        has_room(run + more),
    ensures
        order_seen(run).no_duplicates(),
        after(run).peers.len() == order_seen(run).len(),
        0 <= at < order_seen(run).len() ==> {
            &&& after(run).peers[at].peer_id == order_seen(run)[at]
            &&& after(run).peers[at].index == at
            &&& at < after(run + more).peers.len()
            &&& after(run + more).peers[at].peer_id == order_seen(run)[at]
            &&& after(run + more).peers[at].index == at
            &&& peers::place(after(run + more).peers, order_seen(run)[at]) == Some(at)
        },
{
    lemma_order(run, more);
    lemma_after(run);
    lemma_after(run + more);
    assert(ids(after(run)).len() == after(run).peers.len());
    if 0 <= at < order_seen(run).len() {
        let id = order_seen(run)[at];
        assert(ids(after(run))[at] == id);
        assert(order_seen(run + more)[at] == id);
        assert(ids(after(run + more))[at] == id);
        assert(peers::stands_at(after(run + more).peers, id, at));
        peers::lemma_place(after(run + more), id, at);
    }
}

/// Recordings build nothing but valid directories: what holds of every valid one holds
/// after any run of them.
pub proof fn law_recordings_build_valid_directories(run: Seq<Recording>)
    requires
        has_room(run),
    ensures
        after(run).valid(),
        after(run).agents.no_duplicates(),
{
    lemma_after(run);
}

/// How many lifetimes some distributions hold.
pub open spec fn lifetimes(slots: Seq<Distribution>) -> int {
    slots[0].count + slots[1].count + slots[2].count + slots[3].count + slots[4].count
}

/// The distributions of connections that closed and of those that were evicted, together
/// for each type of connection.
pub open spec fn both(durations: peers::Durations) -> Seq<Distribution> {
    Seq::new(5, |i: int| durations.closed[i].merged(durations.evicted[i]))
}

/// Whether some distributions hold as many lifetimes as this, if that many can be
/// counted, and none only if it is none.
spec fn holds(slots: Seq<Distribution>, count: nat) -> bool {
    &&& slots.len() == 5
    &&& count <= u64::MAX ==> lifetimes(slots) == count
    &&& lifetimes(slots) == 0 <==> count == 0
}

proof fn lemma_one_lifetime_more(slots: Seq<Distribution>, slot: int, ms: u64, count: nat)
    requires
        holds(slots, count),
        0 <= slot < 5,
    ensures
        holds(slots.update(slot, slots[slot].with(ms)), count + 1),
{
}

/// Every connection that closed, and every one that was evicted, has its lifetime counted
/// once, and nothing else is: neither a lifecycle that is capped nor a peer that comes
/// back loses one. There are none if and only if no connection ended. The counts are
/// exact as far as a counter can go.
pub proof fn law_every_ended_connection_has_a_lifetime(run: Seq<Recording>)
    ensures
        ({
            let durations = after(run).durations;
            let closed = endings(run, LifecycleKind::Closed);
            let evicted = endings(run, LifecycleKind::InboundEvicted);
            &&& durations.closed.len() == 5
            &&& durations.evicted.len() == 5
            &&& durations.blank() <==> closed + evicted == 0
            &&& closed <= u64::MAX ==> lifetimes(durations.closed) == closed
            &&& evicted <= u64::MAX ==> lifetimes(durations.evicted) == evicted
            &&& closed + evicted <= u64::MAX ==> lifetimes(both(durations)) == closed + evicted
        }),
{
    lemma_lifetimes(run);
    let durations = after(run).durations;
    if endings(run, LifecycleKind::Closed) + endings(run, LifecycleKind::InboundEvicted) == 0 {
        assert(durations.blank());
    } else if durations.blank() {
        assert(durations.closed[0].count == 0 && durations.closed[1].count == 0
            && durations.closed[2].count == 0 && durations.closed[3].count == 0
            && durations.closed[4].count == 0);
    }
}

proof fn lemma_lifetimes(run: Seq<Recording>)
    ensures
        holds(after(run).durations.closed, endings(run, LifecycleKind::Closed)),
        holds(after(run).durations.evicted, endings(run, LifecycleKind::InboundEvicted)),
    decreases run.len(),
{
    if run.len() > 0 {
        let front = run.drop_last();
        lemma_lifetimes(front);
        let before = after(front);
        let last = run.last();
        match last {
            Recording::Connection(timestamp, event) => {
                if let Some(inner) = event.event {
                    let said = peers::reported(inner);
                    let seen = before.touched(said.peer_id, timestamp);
                    assert(seen.durations == before.durations);
                    if let Some(ended) = peers::ended_by(timestamp, said) {
                        let slot = peers::conn_slot(ended.conn_type as int);
                        if ended.evicted {
                            lemma_one_lifetime_more(
                                before.durations.evicted,
                                slot,
                                ended.lifetime_ms,
                                endings(front, LifecycleKind::InboundEvicted),
                            );
                        } else {
                            lemma_one_lifetime_more(
                                before.durations.closed,
                                slot,
                                ended.lifetime_ms,
                                endings(front, LifecycleKind::Closed),
                            );
                        }
                    }
                }
            },
            Recording::Message(timestamp, event, command) => {
                assert(after(run).durations == before.durations);
            },
            Recording::Agent(peer_id, agent, source) => {
                assert(after(run).durations == before.durations);
            },
        }
    }
}

/// A connection that ended adds how long it lived: from when it was established, which is
/// given in seconds, to the event that ends it, in milliseconds; nothing if that is in the
/// future. It goes with the connections of its type that ended in its way, of which there
/// are five, and a number that is no type counts as the nearest. Nothing else changes.
pub proof fn law_an_ended_connection_adds_how_long_it_lived(
    directory: Directory,
    timestamp: u64,
    event: ConnectionEvent,
    slot: int,
)
    requires
        directory.durations.closed.len() == 5,
        directory.durations.evicted.len() == 5,
        0 <= slot < 5,
    ensures
        ({
            let before = directory.durations;
            let after = directory.with_connection(timestamp, event).durations;
            match event.event {
                Some(ConnEvent::Closed(c)) => {
                    let lived = timestamp - c.time_established * 1000;
                    let ms = if lived >= 0 {
                        lived as u64
                    } else {
                        0
                    };
                    let of = c.conn.conn_type;
                    let here = of == slot || of < 0 && slot == 0 || of > 4 && slot == 4;
                    &&& after.evicted[slot] == before.evicted[slot]
                    &&& after.closed[slot] == (if here {
                        before.closed[slot].with(ms)
                    } else {
                        before.closed[slot]
                    })
                },
                Some(ConnEvent::InboundEvicted(c)) => {
                    let lived = timestamp - c.time_established * 1000;
                    let ms = if lived >= 0 {
                        lived as u64
                    } else {
                        0
                    };
                    let of = c.conn.conn_type;
                    let here = of == slot || of < 0 && slot == 0 || of > 4 && slot == 4;
                    &&& after.closed[slot] == before.closed[slot]
                    &&& after.evicted[slot] == (if here {
                        before.evicted[slot].with(ms)
                    } else {
                        before.evicted[slot]
                    })
                },
                _ => after == before,
            }
        }),
{
}

/// Whether a peer goes by a connection.
pub open spec fn goes_by(peer: Peer, conn: Connection) -> bool {
    &&& peer.addr == Some(conn.addr@)
    &&& peer.conn_type == Some(conn.conn_type)
    &&& peer.network == Some(conn.network)
}

/// A peer goes by what the latest event about it says: a message gives its address and how
/// it is connected, an event of a connection those and its network, and misbehaving none of
/// them. The latest event of a connection is the last in its lifecycle, as it was reported.
/// An event about one peer says nothing of another, and what a peer is called is no event.
pub proof fn law_the_latest_event_identifies_a_peer(run: Seq<Recording>, peer_id: u64)
    requires
        has_room(run),
        run.len() > 0,
        has_room(run.drop_last()),
    ensures
        ({
            let was = found(after(run.drop_last()), peer_id);
            let now = found(after(run), peer_id);
            let peer = now->0;
            let network = match was {
                Some(was) => was.network,
                None => None,
            };
            match run.last() {
                Recording::Message(_, event, _) if event.meta.peer_id == peer_id => {
                    &&& now is Some
                    &&& peer.addr == Some(event.meta.addr@)
                    &&& peer.conn_type == Some(event.meta.conn_type)
                    &&& peer.network == network
                },
                Recording::Connection(timestamp, event) if event.event is Some
                    && peers::reported(event.event->0).peer_id == peer_id => {
                    let last = peer.lifecycle.last();
                    &&& now is Some
                    &&& peer.lifecycle.len() > 0
                    &&& last.timestamp == timestamp
                    &&& match event.event->0 {
                        ConnEvent::Closed(c) => {
                            &&& c.conn.peer_id == peer_id
                            &&& goes_by(peer, c.conn)
                            &&& last.kind == LifecycleKind::Closed
                            &&& last.time_established == Some(c.time_established)
                        },
                        ConnEvent::InboundEvicted(c) => {
                            &&& c.conn.peer_id == peer_id
                            &&& goes_by(peer, c.conn)
                            &&& last.kind == LifecycleKind::InboundEvicted
                            &&& last.time_established == Some(c.time_established)
                        },
                        ConnEvent::Inbound(c) => {
                            &&& c.conn.peer_id == peer_id
                            &&& goes_by(peer, c.conn)
                            &&& last.kind == LifecycleKind::Inbound
                            &&& last.existing_connections == Some(c.existing_connections)
                        },
                        ConnEvent::Outbound(c) => {
                            &&& c.conn.peer_id == peer_id
                            &&& goes_by(peer, c.conn)
                            &&& last.kind == LifecycleKind::Outbound
                            &&& last.existing_connections == Some(c.existing_connections)
                        },
                        ConnEvent::Misbehaving(m) => {
                            &&& m.id == peer_id
                            &&& last.kind == LifecycleKind::Misbehaving
                            &&& last.message == Some(m.message@)
                            &&& peer.network == network
                            &&& match was {
                                Some(was) => peer.addr == was.addr && peer.conn_type
                                    == was.conn_type,
                                None => peer.addr is None && peer.conn_type is None,
                            }
                        },
                    }
                },
                _ => match (was, now) {
                    (Some(was), Some(now)) => now.addr == was.addr && now.conn_type
                        == was.conn_type && now.network == was.network && now.lifecycle
                        == was.lifecycle && now.commands == was.commands,
                    (None, None) => true,
                    _ => false,
                },
            }
        }),
{
    let front = run.drop_last();
    lemma_after(run);
    lemma_after(front);
    let was = found(after(front), peer_id);
    let now = found(after(run), peer_id);
    assert(same_facts(now, story(run, peer_id)));
    assert(same_facts(was, story(front, peer_id)));
    lemma_told(was, story(front, peer_id), run.last(), peer_id);
    if now is Some && story(run, peer_id) is Some {
        lemma_fields(now->0, story(run, peer_id)->0);
    }
    if was is Some && story(front, peer_id) is Some {
        lemma_fields(was->0, story(front, peer_id)->0);
    }
}

} // verus!
