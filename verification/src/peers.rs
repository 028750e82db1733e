//! Per-peer statistics, built from the eBPF message and connection events.
//!
//! A peer is identified by the `peer_id` Bitcoin Core assigns it. Note that ids
//! are only unique within one node run: an archive spanning a restart can reuse
//! them, and the UI says so.

use crate::latency;
use crate::latency::{Distribution, Latencies};
use crate::order;
use crate::order::RowKeys;
use crate::proto::{ConnEvent, Connection, ConnectionEvent, MessageEvent, Metadata, Msg};
use crate::text;
use std::collections::HashMap;
use vstd::prelude::*;

verus! {

broadcast use vstd::std_specs::hash::group_hash_axioms;

/// Kind of connection lifecycle event.
#[derive(Debug, Clone, Copy, PartialEq, Eq, Structural)]
pub enum LifecycleKind {
    Inbound,
    Outbound,
    Closed,
    InboundEvicted,
    Misbehaving,
}

impl LifecycleKind {
    /// Every kind, in a stable order, used to index the per-peer counters.
    pub const ALL: [LifecycleKind; 5] = [
        LifecycleKind::Inbound,
        LifecycleKind::Outbound,
        LifecycleKind::Closed,
        LifecycleKind::InboundEvicted,
        LifecycleKind::Misbehaving,
    ];

    pub open spec fn slot(self) -> int {
        match self {
            LifecycleKind::Inbound => 0,
            LifecycleKind::Outbound => 1,
            LifecycleKind::Closed => 2,
            LifecycleKind::InboundEvicted => 3,
            LifecycleKind::Misbehaving => 4,
        }
    }

    pub fn index(self) -> (index: usize)
        ensures
            index == self.slot(),
            index < 5,
    {
        match self {
            LifecycleKind::Inbound => 0,
            LifecycleKind::Outbound => 1,
            LifecycleKind::Closed => 2,
            LifecycleKind::InboundEvicted => 3,
            LifecycleKind::Misbehaving => 4,
        }
    }

    pub open spec fn text(self) -> Seq<char> {
        match self {
            LifecycleKind::Inbound => "inbound"@,
            LifecycleKind::Outbound => "outbound"@,
            LifecycleKind::Closed => "closed"@,
            LifecycleKind::InboundEvicted => "inbound_evicted"@,
            LifecycleKind::Misbehaving => "misbehaving"@,
        }
    }

    pub fn as_str(self) -> (name: &'static str)
        ensures
            name@ == self.text(),
    {
        match self {
            LifecycleKind::Inbound => "inbound",
            LifecycleKind::Outbound => "outbound",
            LifecycleKind::Closed => "closed",
            LifecycleKind::InboundEvicted => "inbound_evicted",
            LifecycleKind::Misbehaving => "misbehaving",
        }
    }
}

/// Where a peer's user agent came from.
///
/// The `version` message is what the peer actually put on the wire; the RPC
/// snapshot is Bitcoin Core repeating it back later. They agree in practice,
/// but only one of them is first-hand, and an archive often has just one.
#[derive(Debug, Clone, Copy, PartialEq, Eq, Structural)]
pub enum UserAgentSource {
    Version,
    PeerInfo,
}

impl UserAgentSource {
    pub open spec fn text(self) -> Seq<char> {
        match self {
            UserAgentSource::Version => "version"@,
            UserAgentSource::PeerInfo => "getpeerinfo"@,
        }
    }

    pub fn as_str(self) -> (name: &'static str)
        ensures
            name@ == self.text(),
    {
        match self {
            UserAgentSource::Version => "version",
            UserAgentSource::PeerInfo => "getpeerinfo",
        }
    }
}

/// How many lifecycle events to keep per peer.
///
/// The peer table is not covered by the event store's retention budget, so
/// anything unbounded in it is an allocation failure waiting to happen: an
/// archive of a churny node has millions of connection events, and a viewer that
/// kept them all would run the browser out of memory with no budget to blame.
/// Bitcoin Core assigns a fresh peer id per connection, so a peer id has one
/// lifecycle -- open, perhaps some misbehaviour, close. Eight is already
/// generous; `lifecycle_total` keeps the count honest when it is not.
pub const LIFECYCLE_CAP: usize = 8;

/// Slots for `bitcoin_primitives.ConnType`, which is dense from zero.
pub const CONN_TYPES: usize = 5;

/// One entry in a peer's connection lifecycle.
#[derive(Debug, PartialEq, Eq)]
pub struct LifecycleEvent {
    pub timestamp: u64,
    pub kind: LifecycleKind,
    /// When the connection was established, in seconds since the epoch, for
    /// close and evict events.
    pub time_established: Option<u64>,
    /// Connection count at the time, for open events.
    pub existing_connections: Option<u64>,
    /// Description, for misbehaving events.
    pub message: Option<String>,
}

/// A lifecycle entry.
pub struct Lifecycle {
    pub timestamp: u64,
    pub kind: LifecycleKind,
    pub time_established: Option<u64>,
    pub existing_connections: Option<u64>,
    pub message: Option<Seq<char>>,
}

/// The text in an optional string.
pub open spec fn text_in(text: Option<String>) -> Option<Seq<char>> {
    match text {
        Some(text) => Some(text@),
        None => None,
    }
}

impl View for LifecycleEvent {
    type V = Lifecycle;

    open spec fn view(&self) -> Lifecycle {
        Lifecycle {
            timestamp: self.timestamp,
            kind: self.kind,
            time_established: self.time_established,
            existing_connections: self.existing_connections,
            message: text_in(self.message),
        }
    }
}

/// Messages seen for one P2P command, split by direction.
#[derive(Debug, Clone, Copy, PartialEq, Eq)]
pub struct CommandCounts {
    pub inbound: u64,
    pub outbound: u64,
    pub inbound_bytes: u64,
    pub outbound_bytes: u64,
}

impl CommandCounts {
    pub open spec fn zero() -> CommandCounts {
        CommandCounts { inbound: 0, outbound: 0, inbound_bytes: 0, outbound_bytes: 0 }
    }

    /// The counts with one more message in them.
    pub open spec fn with(self, inbound: bool, size: u64) -> CommandCounts {
        if inbound {
            CommandCounts {
                inbound: latency::capped(self.inbound as int, 1),
                inbound_bytes: latency::capped(self.inbound_bytes as int, size as int),
                ..self
            }
        } else {
            CommandCounts {
                outbound: latency::capped(self.outbound as int, 1),
                outbound_bytes: latency::capped(self.outbound_bytes as int, size as int),
                ..self
            }
        }
    }

    /// How many messages there were, both ways.
    pub open spec fn total(self) -> u64 {
        latency::capped(self.inbound as int, self.outbound as int)
    }

    /// How many messages there were, both ways.
    pub fn messages(&self) -> (messages: u64)
        ensures
            messages == self.total(),
    {
        self.inbound.saturating_add(self.outbound)
    }

    fn add_message(&mut self, inbound: bool, size: u64)
        ensures
            *final(self) == old(self).with(inbound, size),
    {
        if inbound {
            self.inbound = self.inbound.saturating_add(1);
            self.inbound_bytes = self.inbound_bytes.saturating_add(size);
        } else {
            self.outbound = self.outbound.saturating_add(1);
            self.outbound_bytes = self.outbound_bytes.saturating_add(size);
        }
    }
}

impl Default for CommandCounts {
    fn default() -> (counts: Self)
        ensures
            counts == CommandCounts::zero(),
    {
        CommandCounts { inbound: 0, outbound: 0, inbound_bytes: 0, outbound_bytes: 0 }
    }
}

/// Where a command stands in some per-command counts, from `from` on.
pub open spec fn command_from(
    commands: Seq<(u16, CommandCounts)>,
    command: u16,
    from: int,
) -> Option<int>
    decreases commands.len() - from,
{
    if from >= commands.len() {
        None
    } else if commands[from].0 == command {
        Some(from)
    } else {
        command_from(commands, command, from + 1)
    }
}

/// Per-command counts with one more message of `command` in them.
pub open spec fn commands_with(
    commands: Seq<(u16, CommandCounts)>,
    command: u16,
    inbound: bool,
    size: u64,
) -> Seq<(u16, CommandCounts)> {
    match command_from(commands, command, 0) {
        Some(at) => commands.update(at, (command, commands[at].1.with(inbound, size))),
        None => commands.push((command, CommandCounts::zero().with(inbound, size))),
    }
}

/// Whether every command stands once in some per-command counts.
pub open spec fn commands_distinct(commands: Seq<(u16, CommandCounts)>) -> bool {
    forall|i: int, j: int|
        #![trigger commands[i], commands[j]]
        0 <= i < j < commands.len() ==> commands[i].0 != commands[j].0
}

proof fn lemma_command_from(commands: Seq<(u16, CommandCounts)>, command: u16, from: int)
    requires
        0 <= from <= commands.len(),
    ensures
        match command_from(commands, command, from) {
            Some(at) => from <= at < commands.len() && commands[at].0 == command,
            None => forall|i: int|
                from <= i < commands.len() ==> (#[trigger] commands[i]).0 != command,
        },
    decreases commands.len() - from,
{
    if from < commands.len() {
        lemma_command_from(commands, command, from + 1);
    }
}

/// Counting a message keeps every command in its one place.
pub proof fn lemma_commands_stay_distinct(
    commands: Seq<(u16, CommandCounts)>,
    command: u16,
    inbound: bool,
    size: u64,
)
    requires
        commands_distinct(commands),
    ensures
        commands_distinct(commands_with(commands, command, inbound, size)),
{
    lemma_command_from(commands, command, 0);
}

/// A lifecycle list with one more entry, the oldest making way once it is full.
pub open spec fn lifecycle_with(list: Seq<Lifecycle>, entry: Lifecycle) -> Seq<Lifecycle> {
    if list.len() == LIFECYCLE_CAP {
        list.drop_first().push(entry)
    } else {
        list.push(entry)
    }
}

#[derive(Debug)]
pub struct PeerStats {
    pub peer_id: u64,
    /// Dense index assigned in first-seen order, so the event store can refer
    /// to a peer in four bytes without truncating a 64-bit peer id.
    pub index: u32,
    /// Last address seen for this peer. `None` if only ever seen misbehaving.
    pub addr: Option<String>,
    /// Interned user agent, resolved with [`PeerTable::user_agent`]. Interned
    /// because a churning node sees the same few agent strings across hundreds
    /// of thousands of peers, and a `String` each would cost more than the rest
    /// of the peer table put together.
    pub user_agent: Option<u16>,
    pub user_agent_source: Option<UserAgentSource>,
    pub conn_type: Option<i32>,
    pub network: Option<u32>,
    pub first_seen: u64,
    pub last_seen: u64,
    pub messages_in: u64,
    pub messages_out: u64,
    pub bytes_in: u64,
    pub bytes_out: u64,
    /// Per-command counts, keyed by the interned kind id of the command.
    ///
    /// A hash map per peer costs a hash table and a `String` per command; with
    /// the hundreds of thousands of peers a busy node produces that dominated
    /// the peer table. A short vector scanned linearly is both smaller and
    /// faster at this size (a peer sees a handful of commands).
    pub commands: Vec<(u16, CommandCounts)>,
    /// The most recent [`LIFECYCLE_CAP`] lifecycle events.
    pub lifecycle: Vec<LifecycleEvent>,
    /// How many lifecycle events actually occurred, including those dropped.
    pub lifecycle_total: u64,
    /// Exact count per lifecycle kind, indexed by [`LifecycleKind::index`].
    /// The list above is capped, so this is the only exact per-kind source.
    pub lifecycle_counts: [u32; 5],
}

/// What is known about a peer. Counts are held at the largest their type can
/// carry.
#[verifier::ext_equal]
pub struct Peer {
    pub peer_id: u64,
    pub index: u32,
    pub addr: Option<Seq<char>>,
    pub user_agent: Option<u16>,
    pub user_agent_source: Option<UserAgentSource>,
    pub conn_type: Option<i32>,
    pub network: Option<u32>,
    pub first_seen: u64,
    pub last_seen: u64,
    pub messages_in: u64,
    pub messages_out: u64,
    pub bytes_in: u64,
    pub bytes_out: u64,
    pub commands: Seq<(u16, CommandCounts)>,
    pub lifecycle: Seq<Lifecycle>,
    pub lifecycle_total: u64,
    pub lifecycle_counts: Seq<u32>,
}

impl View for PeerStats {
    type V = Peer;

    open spec fn view(&self) -> Peer {
        Peer {
            peer_id: self.peer_id,
            index: self.index,
            addr: text_in(self.addr),
            user_agent: self.user_agent,
            user_agent_source: self.user_agent_source,
            conn_type: self.conn_type,
            network: self.network,
            first_seen: self.first_seen,
            last_seen: self.last_seen,
            messages_in: self.messages_in,
            messages_out: self.messages_out,
            bytes_in: self.bytes_in,
            bytes_out: self.bytes_out,
            commands: self.commands@,
            lifecycle: Seq::new(self.lifecycle@.len(), |i: int| self.lifecycle@[i]@),
            lifecycle_total: self.lifecycle_total,
            lifecycle_counts: self.lifecycle_counts@,
        }
    }
}

impl Peer {
    /// A peer nothing but its first sighting is known of.
    pub open spec fn fresh(peer_id: u64, index: u32, timestamp: u64) -> Peer {
        Peer {
            peer_id,
            index,
            addr: None,
            user_agent: None,
            user_agent_source: None,
            conn_type: None,
            network: None,
            first_seen: timestamp,
            last_seen: timestamp,
            messages_in: 0,
            messages_out: 0,
            bytes_in: 0,
            bytes_out: 0,
            commands: Seq::empty(),
            lifecycle: Seq::empty(),
            lifecycle_total: 0,
            lifecycle_counts: Seq::new(5, |i: int| 0u32),
        }
    }

    /// The peer, seen at one more time.
    pub open spec fn touched(self, timestamp: u64) -> Peer {
        Peer {
            first_seen: latency::least(self.first_seen, timestamp),
            last_seen: latency::greatest(self.last_seen, timestamp),
            ..self
        }
    }

    /// The peer, with one more message counted.
    pub open spec fn with_message(self, meta: Metadata, command: u16) -> Peer {
        let seen = Peer {
            addr: Some(meta.addr@),
            conn_type: Some(meta.conn_type),
            commands: commands_with(self.commands, command, meta.inbound, meta.size),
            ..self
        };
        if meta.inbound {
            Peer {
                messages_in: latency::capped(self.messages_in as int, 1),
                bytes_in: latency::capped(self.bytes_in as int, meta.size as int),
                ..seen
            }
        } else {
            Peer {
                messages_out: latency::capped(self.messages_out as int, 1),
                bytes_out: latency::capped(self.bytes_out as int, meta.size as int),
                ..seen
            }
        }
    }

    /// The peer, identified by one of its connections.
    pub open spec fn identified(self, conn: Option<Connection>) -> Peer {
        match conn {
            Some(conn) => Peer {
                addr: Some(conn.addr@),
                conn_type: Some(conn.conn_type),
                network: Some(conn.network),
                ..self
            },
            None => self,
        }
    }

    /// The peer, with one more lifecycle event.
    pub open spec fn with_lifecycle(self, entry: Lifecycle) -> Peer {
        let slot = entry.kind.slot();
        Peer {
            lifecycle: lifecycle_with(self.lifecycle, entry),
            lifecycle_total: latency::capped(self.lifecycle_total as int, 1),
            lifecycle_counts: self.lifecycle_counts.update(
                slot,
                latency::capped32(self.lifecycle_counts[slot] as int, 1),
            ),
            ..self
        }
    }

    /// Total events attributed to this peer.
    pub open spec fn events(self) -> u64 {
        latency::capped(self.messages_in + self.messages_out, self.lifecycle_total as int)
    }

    /// How long the peer was observed for, in milliseconds.
    pub open spec fn duration(self) -> u64 {
        if self.last_seen >= self.first_seen {
            (self.last_seen - self.first_seen) as u64
        } else {
            0
        }
    }

    /// Whether the counters of its messages and bytes can tell how many there were.
    pub open spec fn counted(self) -> bool {
        &&& self.messages_in < u64::MAX
        &&& self.messages_out < u64::MAX
        &&& self.bytes_in < u64::MAX
        &&& self.bytes_out < u64::MAX
    }

    /// Whether the counts of its connections' events by kind can tell how many there
    /// were: none of them is full, or all of the events together would go into one.
    pub open spec fn kinds_counted(self) -> bool {
        ||| self.lifecycle_total <= u32::MAX
        ||| forall|i: int| 0 <= i < 5 ==> #[trigger] self.lifecycle_counts[i] < u32::MAX
    }

    /// Whether its figures fit together: the lifecycle holds as many of the events of its
    /// connections as go into it, the counts per kind add up to all of them, and the
    /// counts per command, each of which stands once, to its messages and bytes. A counter
    /// that is full can no longer tell.
    pub open spec fn tidy(self) -> bool {
        &&& self.lifecycle.len() == (if self.lifecycle_total < LIFECYCLE_CAP {
            self.lifecycle_total as nat
        } else {
            LIFECYCLE_CAP as nat
        })
        &&& self.lifecycle_counts.len() == 5
        &&& self.kinds_counted() ==> sum_of_five(self.lifecycle_counts) == self.lifecycle_total
        &&& commands_distinct(self.commands)
        &&& self.counted() ==> commands_add_up(self)
        &&& self.first_seen <= self.last_seen
    }
}

/// The counts of a peer's lifecycle, added up.
pub open spec fn sum_of_five(counts: Seq<u32>) -> int {
    counts[0] + counts[1] + counts[2] + counts[3] + counts[4]
}

impl PeerStats {
    fn new(peer_id: u64, index: u32, timestamp: u64) -> (peer: Self)
        ensures
            peer@ == Peer::fresh(peer_id, index, timestamp),
    {
        let peer = PeerStats {
            peer_id,
            index,
            addr: None,
            user_agent: None,
            user_agent_source: None,
            conn_type: None,
            network: None,
            first_seen: timestamp,
            last_seen: timestamp,
            messages_in: 0,
            messages_out: 0,
            bytes_in: 0,
            bytes_out: 0,
            commands: Vec::new(),
            lifecycle: Vec::new(),
            lifecycle_total: 0,
            lifecycle_counts: [0u32; 5],
        };
        assert(peer@ =~= Peer::fresh(peer_id, index, timestamp));
        peer
    }

    fn touch(&mut self, timestamp: u64)
        ensures
            final(self)@ == old(self)@.touched(timestamp),
    {
        if timestamp < self.first_seen {
            self.first_seen = timestamp;
        }
        if timestamp > self.last_seen {
            self.last_seen = timestamp;
        }
        assert(self@ =~= old(self)@.touched(timestamp));
    }

    /// Count one message.
    fn add_message(&mut self, meta: &Metadata, command: u16)
        ensures
            final(self)@ == old(self)@.with_message(*meta, command),
    {
        let ghost was = self@;
        self.addr = Some(meta.addr.clone());
        self.conn_type = Some(meta.conn_type);
        count_command(&mut self.commands, command, meta.inbound, meta.size);
        if meta.inbound {
            self.messages_in = self.messages_in.saturating_add(1);
            self.bytes_in = self.bytes_in.saturating_add(meta.size);
        } else {
            self.messages_out = self.messages_out.saturating_add(1);
            self.bytes_out = self.bytes_out.saturating_add(meta.size);
        }
        assert(self@ =~= was.with_message(*meta, command));
    }

    /// Add one entry to the lifecycle, the oldest making way once it is full.
    fn add_lifecycle(&mut self, entry: LifecycleEvent)
        ensures
            final(self)@ == old(self)@.with_lifecycle(entry@),
    {
        let ghost was = self@;
        self.lifecycle_total = self.lifecycle_total.saturating_add(1);
        let slot: usize = entry.kind.index();
        let held: u32 = self.lifecycle_counts[slot];
        self.lifecycle_counts[slot] = held.saturating_add(1);
        if self.lifecycle.len() == LIFECYCLE_CAP {
            self.lifecycle.remove(0);
        }
        self.lifecycle.push(entry);
        assert(self@ =~= was.with_lifecycle(entry@));
    }

    /// Total events attributed to this peer.
    pub fn events(&self) -> (events: u64)
        ensures
            events == self@.events(),
    {
        self.messages_in.saturating_add(self.messages_out).saturating_add(self.lifecycle_total)
    }

    /// How long the peer was observed for, in milliseconds.
    pub fn duration_ms(&self) -> (ms: u64)
        ensures
            ms == self@.duration(),
    {
        self.last_seen.saturating_sub(self.first_seen)
    }
}

/// Count one message of a command.
fn count_command(
    commands: &mut Vec<(u16, CommandCounts)>,
    command: u16,
    inbound: bool,
    size: u64,
)
    ensures
        final(commands)@ == commands_with(old(commands)@, command, inbound, size),
{
    let mut at: usize = 0;
    while at < commands.len()
        invariant
            at <= commands@.len(),
            commands@ == old(commands)@,
            command_from(commands@, command, 0) == command_from(commands@, command, at as int),
        decreases commands@.len() - at,
    {
        let (id, mut counts) = commands[at];
        if id == command {
            counts.add_message(inbound, size);
            commands[at] = (id, counts);
            return ;
        }
        at = at + 1;
    }
    let mut counts = CommandCounts::default();
    counts.add_message(inbound, size);
    commands.push((command, counts));
}

/// A connection that ended, as reported by the event that ended it.
#[derive(Debug, Clone, Copy)]
pub struct EndedConnection {
    /// A [`crate::proto::ConnType`], as a number.
    pub conn_type: i32,
    pub evicted: bool,
    pub lifetime_ms: u64,
}

/// How long connections lasted, by connection type and by how they ended.
///
/// Bitcoin Core reports the establishment time on the event that ends a
/// connection, so this is the node's own account of the lifetime rather than
/// the span of events this tool happened to see. Accumulated during ingest
/// because the per-peer lifecycle list is capped: on a churning node the list
/// would have thrown most of these away.
///
/// Kept split by how the connection ended as well as by type, because those are
/// different populations. An evicted inbound connection lived for as long as it
/// took the next one to arrive; one that closed normally lived as long as the
/// peer wanted it to, and averaging them together describes neither.
pub struct ConnectionDurations {
    closed: [Latencies; CONN_TYPES],
    evicted: [Latencies; CONN_TYPES],
}

/// The lifetimes of connections, by type and by how they ended.
#[verifier::ext_equal]
pub struct Durations {
    pub closed: Seq<Distribution>,
    pub evicted: Seq<Distribution>,
}

impl View for ConnectionDurations {
    type V = Durations;

    closed spec fn view(&self) -> Durations {
        Durations {
            closed: Seq::new(CONN_TYPES as nat, |i: int| self.closed@[i]@),
            evicted: Seq::new(CONN_TYPES as nat, |i: int| self.evicted@[i]@),
        }
    }
}

/// The slot a connection type has: its number, held inside the slots there are.
pub open spec fn conn_slot(conn_type: int) -> int {
    if conn_type < 0 {
        0
    } else if conn_type >= CONN_TYPES {
        CONN_TYPES - 1
    } else {
        conn_type
    }
}

impl Durations {
    pub open spec fn empty() -> Durations {
        Durations {
            closed: Seq::new(CONN_TYPES as nat, |i: int| Distribution::empty()),
            evicted: Seq::new(CONN_TYPES as nat, |i: int| Distribution::empty()),
        }
    }

    /// The lifetimes with one more connection's in them.
    pub open spec fn with(self, ended: EndedConnection) -> Durations {
        let slot = conn_slot(ended.conn_type as int);
        if ended.evicted {
            Durations {
                evicted: self.evicted.update(slot, self.evicted[slot].with(ended.lifetime_ms)),
                ..self
            }
        } else {
            Durations {
                closed: self.closed.update(slot, self.closed[slot].with(ended.lifetime_ms)),
                ..self
            }
        }
    }

    /// Whether no connection has ended.
    pub open spec fn blank(self) -> bool {
        forall|i: int|
            0 <= i < CONN_TYPES ==> (#[trigger] self.closed[i]).count == 0 && self.evicted[i].count
                == 0
    }
}

impl Default for ConnectionDurations {
    fn default() -> (durations: Self)
        ensures
            durations@ == Durations::empty(),
    {
        let none = Latencies::default();
        let durations = ConnectionDurations {
            closed: [none, none, none, none, none],
            evicted: [none, none, none, none, none],
        };
        assert(durations@ =~= Durations::empty());
        durations
    }
}

impl ConnectionDurations {
    fn add(&mut self, ended: &EndedConnection)
        ensures
            final(self)@ == old(self)@.with(*ended),
    {
        let slot: usize = if ended.conn_type < 0 {
            0
        } else if ended.conn_type >= CONN_TYPES as i32 {
            CONN_TYPES - 1
        } else {
            ended.conn_type as usize
        };
        if ended.evicted {
            let mut held: Latencies = self.evicted[slot];
            held.add(ended.lifetime_ms);
            self.evicted[slot] = held;
        } else {
            let mut held: Latencies = self.closed[slot];
            held.add(ended.lifetime_ms);
            self.closed[slot] = held;
        }
        assert(self@ =~= old(self)@.with(*ended));
    }

    /// Durations for one connection type, for connections that closed normally.
    pub fn closed(&self, conn_type: usize) -> (durations: &Latencies)
        ensures
            durations@ == self@.closed[conn_slot(conn_type as int)],
    {
        let slot: usize = if conn_type < CONN_TYPES {
            conn_type
        } else {
            CONN_TYPES - 1
        };
        &self.closed[slot]
    }

    /// Durations for one connection type, for connections Core evicted.
    pub fn evicted(&self, conn_type: usize) -> (durations: &Latencies)
        ensures
            durations@ == self@.evicted[conn_slot(conn_type as int)],
    {
        let slot: usize = if conn_type < CONN_TYPES {
            conn_type
        } else {
            CONN_TYPES - 1
        };
        &self.evicted[slot]
    }

    /// Both, for one connection type.
    pub fn all(&self, conn_type: usize) -> (durations: Latencies)
        ensures
            durations@ == self@.closed[conn_slot(conn_type as int)].merged(
                self@.evicted[conn_slot(conn_type as int)],
            ),
    {
        let mut both: Latencies = *self.closed(conn_type);
        both.merge(self.evicted(conn_type));
        both
    }

    pub fn is_empty(&self) -> (empty: bool)
        ensures
            empty == self@.blank(),
    {
        let ghost held = self@;
        let mut i: usize = 0;
        while i < CONN_TYPES
            invariant
                i <= CONN_TYPES,
                held == self@,
                forall|j: int|
                    0 <= j < i ==> (#[trigger] held.closed[j]).count == 0 && held.evicted[j].count
                        == 0,
            decreases CONN_TYPES - i,
        {
            if !self.closed(i).is_empty() || !self.evicted(i).is_empty() {
                assert(held.closed[i as int].count != 0 || held.evicted[i as int].count != 0);
                return false;
            }
            i = i + 1;
        }
        assert forall|j: int| 0 <= j < CONN_TYPES implies (#[trigger] held.closed[j]).count == 0
            && held.evicted[j].count == 0 by {
            assert(j < i);
        }
        true
    }
}

/// Everything the peer table holds: the peers in first-seen order, how long
/// connections lasted, and the user agents peers have named themselves by.
#[verifier::ext_equal]
pub struct Directory {
    pub peers: Seq<Peer>,
    pub durations: Durations,
    pub agents: Seq<Seq<char>>,
}

/// Whether a peer stands at `at`.
pub open spec fn stands_at(peers: Seq<Peer>, peer_id: u64, at: int) -> bool {
    0 <= at < peers.len() && peers[at].peer_id == peer_id
}

/// Where a peer stands, if it has been seen.
pub open spec fn place(peers: Seq<Peer>, peer_id: u64) -> Option<int> {
    if exists|at: int| stands_at(peers, peer_id, at) {
        Some(choose|at: int| stands_at(peers, peer_id, at))
    } else {
        None
    }
}

/// Where a user agent stands among those known, from `from` on.
pub open spec fn agent_from(agents: Seq<Seq<char>>, agent: Seq<char>, from: int) -> Option<int>
    decreases agents.len() - from,
{
    if from >= agents.len() {
        None
    } else if agents[from] == agent {
        Some(from)
    } else {
        agent_from(agents, agent, from + 1)
    }
}

/// How many user agents ids can tell apart. More than that is not a peer
/// population, it is a garbage or adversarial archive.
pub const MAX_AGENTS: usize = 65536;

/// What a connection event says.
pub struct Reported {
    pub peer_id: u64,
    pub conn: Option<Connection>,
    pub kind: LifecycleKind,
    pub time_established: Option<u64>,
    pub existing_connections: Option<u64>,
    pub message: Option<Seq<char>>,
}

/// What a connection event says. `misbehaving` is the odd one out: it carries a
/// bare peer id and a description, with no address or connection type.
pub open spec fn reported(event: ConnEvent) -> Reported {
    match event {
        ConnEvent::Closed(c) => Reported {
            peer_id: c.conn.peer_id,
            conn: Some(c.conn),
            kind: LifecycleKind::Closed,
            time_established: Some(c.time_established),
            existing_connections: None,
            message: None,
        },
        ConnEvent::InboundEvicted(c) => Reported {
            peer_id: c.conn.peer_id,
            conn: Some(c.conn),
            kind: LifecycleKind::InboundEvicted,
            time_established: Some(c.time_established),
            existing_connections: None,
            message: None,
        },
        ConnEvent::Inbound(c) => Reported {
            peer_id: c.conn.peer_id,
            conn: Some(c.conn),
            kind: LifecycleKind::Inbound,
            time_established: None,
            existing_connections: Some(c.existing_connections),
            message: None,
        },
        ConnEvent::Outbound(c) => Reported {
            peer_id: c.conn.peer_id,
            conn: Some(c.conn),
            kind: LifecycleKind::Outbound,
            time_established: None,
            existing_connections: Some(c.existing_connections),
            message: None,
        },
        ConnEvent::Misbehaving(m) => Reported {
            peer_id: m.id,
            conn: None,
            kind: LifecycleKind::Misbehaving,
            time_established: None,
            existing_connections: None,
            message: Some(m.message@),
        },
    }
}

/// How long a connection had lived at `timestamp`, in milliseconds, given when it
/// was established in seconds. One established in the future has not lived.
pub open spec fn lifetime(timestamp: u64, established: u64) -> u64 {
    if timestamp >= established * 1000 {
        (timestamp - established * 1000) as u64
    } else {
        0
    }
}

/// The connection an event says has ended.
pub open spec fn ended_by(timestamp: u64, event: Reported) -> Option<EndedConnection> {
    match (event.conn, event.time_established) {
        (Some(conn), Some(established)) => Some(
            EndedConnection {
                conn_type: conn.conn_type,
                evicted: event.kind == LifecycleKind::InboundEvicted,
                lifetime_ms: lifetime(timestamp, established),
            },
        ),
        _ => None,
    }
}

impl Directory {
    pub open spec fn empty() -> Directory {
        Directory { peers: Seq::empty(), durations: Durations::empty(), agents: Seq::empty() }
    }

    /// Whether a peer has been seen, or there is an index left for it.
    pub open spec fn has_room(self, peer_id: u64) -> bool {
        place(self.peers, peer_id) is Some || self.peers.len() <= u32::MAX
    }

    /// The directory once a peer has been seen at `timestamp`.
    pub open spec fn touched(self, peer_id: u64, timestamp: u64) -> Directory {
        match place(self.peers, peer_id) {
            Some(at) => Directory {
                peers: self.peers.update(at, self.peers[at].touched(timestamp)),
                ..self
            },
            None => Directory {
                peers: self.peers.push(
                    Peer::fresh(peer_id, self.peers.len() as u32, timestamp),
                ),
                ..self
            },
        }
    }

    /// The directory with one peer changed.
    pub open spec fn with_peer(self, at: int, peer: Peer) -> Directory {
        Directory { peers: self.peers.update(at, peer), ..self }
    }

    /// The directory once a peer has been heard to call itself `agent`.
    ///
    /// The `version` message wins over the RPC snapshot: it is what the peer
    /// actually sent, and an archive holding both should report the first-hand
    /// one. Nothing else overwrites an agent already recorded. Only peers already
    /// known from their own events are annotated: a poll listing a peer this
    /// archive never otherwise saw must not invent one.
    pub open spec fn named(
        self,
        peer_id: u64,
        agent: Seq<char>,
        source: UserAgentSource,
    ) -> Directory {
        match place(self.peers, peer_id) {
            Some(at) => {
                let peer = self.peers[at];
                let upgrading = source == UserAgentSource::Version && peer.user_agent_source
                    != Some(source);
                let known = agent_from(self.agents, agent, 0);
                if agent.len() == 0 || (peer.user_agent is Some && !upgrading) || (known is None
                    && self.agents.len() >= MAX_AGENTS) {
                    self
                } else {
                    let (id, agents) = match known {
                        Some(id) => (id, self.agents),
                        None => (self.agents.len() as int, self.agents.push(agent)),
                    };
                    Directory {
                        peers: self.peers.update(
                            at,
                            Peer {
                                user_agent: Some(id as u16),
                                user_agent_source: Some(source),
                                ..peer
                            },
                        ),
                        agents,
                        ..self
                    }
                }
            },
            None => self,
        }
    }

    /// The directory once a P2P message has been recorded.
    pub open spec fn with_message(
        self,
        timestamp: u64,
        event: MessageEvent,
        command: u16,
    ) -> Directory {
        let id = event.meta.peer_id;
        // An inbound version carries the peer's agent; an outbound one carries
        // this node's, which is not what the peer page is about.
        let introduced = match event.msg {
            Some(Msg::Version(version)) if event.meta.inbound => self.touched(id, timestamp).named(
                id,
                version.user_agent@,
                UserAgentSource::Version,
            ),
            _ => self,
        };
        let seen = introduced.touched(id, timestamp);
        let at = place(seen.peers, id)->0;
        seen.with_peer(at, seen.peers[at].with_message(event.meta, command))
    }

    /// The directory once a connection event has been recorded.
    pub open spec fn with_connection(self, timestamp: u64, event: ConnectionEvent) -> Directory {
        match event.event {
            None => self,
            Some(event) => {
                let event = reported(event);
                let seen = self.touched(event.peer_id, timestamp);
                let at = place(seen.peers, event.peer_id)->0;
                let entry = Lifecycle {
                    timestamp,
                    kind: event.kind,
                    time_established: event.time_established,
                    existing_connections: event.existing_connections,
                    message: event.message,
                };
                let peer = seen.peers[at].identified(event.conn).with_lifecycle(entry);
                Directory {
                    durations: match ended_by(timestamp, event) {
                        Some(ended) => seen.durations.with(ended),
                        None => seen.durations,
                    },
                    ..seen.with_peer(at, peer)
                }
            },
        }
    }

    /// What recording events can build: every peer has an id of its own, its
    /// index is where it stands, its figures fit together, and its agent is one of
    /// those known, of which each is kept once.
    pub open spec fn valid(self) -> bool {
        &&& self.peers.len() <= u32::MAX + 1
        &&& self.agents.len() <= MAX_AGENTS
        &&& self.agents.no_duplicates()
        &&& forall|i: int|
            #![trigger self.peers[i]]
            0 <= i < self.peers.len() ==> {
                &&& self.peers[i].index == i
                &&& self.peers[i].tidy()
                &&& self.peers[i].user_agent matches Some(id) ==> id < self.agents.len()
            }
        &&& forall|i: int, j: int|
            #![trigger self.peers[i], self.peers[j]]
            0 <= i < j < self.peers.len() ==> self.peers[i].peer_id != self.peers[j].peer_id
    }
}

/// A peer stands in one place only.
pub proof fn lemma_place(directory: Directory, peer_id: u64, at: int)
    requires
        directory.valid(),
        stands_at(directory.peers, peer_id, at),
    ensures
        place(directory.peers, peer_id) == Some(at),
{
    let found = choose|found: int| stands_at(directory.peers, peer_id, found);
    assert(stands_at(directory.peers, peer_id, found));
}

/// Accumulates [`PeerStats`] across a whole archive.
pub struct PeerTable {
    peers: Vec<PeerStats>,
    /// Peer id -> dense index.
    places: HashMap<u64, usize>,
    durations: ConnectionDurations,
    user_agents: Vec<String>,
}

impl View for PeerTable {
    type V = Directory;

    closed spec fn view(&self) -> Directory {
        Directory {
            peers: Seq::new(self.peers@.len(), |i: int| self.peers@[i]@),
            durations: self.durations@,
            agents: Seq::new(self.user_agents@.len(), |i: int| self.user_agents@[i]@),
        }
    }
}

impl PeerTable {
    pub closed spec fn wf(&self) -> bool {
        &&& self@.valid()
        &&& self.indexed()
    }

    /// The index finds every peer, and nothing else.
    spec fn indexed(&self) -> bool {
        &&& forall|id: u64| #[trigger]
            self.places@.dom().contains(id) ==> stands_at(self@.peers, id, self.places@[id] as int)
        &&& forall|i: int|
            0 <= i < self.peers@.len() ==> self.places@.dom().contains(
                (#[trigger] self.peers@[i]).peer_id,
            )
    }

    pub fn new() -> (table: Self)
        ensures
            table.wf(),
            table@ == Directory::empty(),
    {
        let table = PeerTable {
            peers: Vec::new(),
            places: HashMap::new(),
            durations: ConnectionDurations::default(),
            user_agents: Vec::new(),
        };
        assert(table@ =~= Directory::empty());
        table
    }

    pub fn len(&self) -> (len: usize)
        ensures
            len == self@.peers.len(),
    {
        self.peers.len()
    }

    pub fn is_empty(&self) -> (empty: bool)
        ensures
            empty == (self@.peers.len() == 0),
    {
        self.peers.len() == 0
    }

    /// Where a peer stands.
    fn position(&self, peer_id: u64) -> (at: Option<usize>)
        requires
            self.wf(),
        ensures
            match at {
                Some(at) => place(self@.peers, peer_id) == Some(at as int) && stands_at(
                    self@.peers,
                    peer_id,
                    at as int,
                ),
                None => place(self@.peers, peer_id) is None,
            },
    {
        match self.places.get(&peer_id) {
            Some(at) => {
                proof {
                    lemma_place(self@, peer_id, *at as int);
                }
                Some(*at)
            },
            None => {
                assert forall|at: int| !stands_at(self@.peers, peer_id, at) by {
                    if stands_at(self@.peers, peer_id, at) {
                        assert(self.peers@[at].peer_id == peer_id);
                    }
                }
                None
            },
        }
    }

    pub fn get(&self, peer_id: u64) -> (peer: Option<&PeerStats>)
        requires
            self.wf(),
        ensures
            match peer {
                Some(peer) => place(self@.peers, peer_id) matches Some(at) && peer@
                    == self@.peers[at] && peer.peer_id == peer_id,
                None => place(self@.peers, peer_id) is None,
            },
    {
        match self.position(peer_id) {
            Some(at) => Some(&self.peers[at]),
            None => None,
        }
    }

    /// Every peer, in first-seen order.
    pub fn iter(&self) -> (peers: &Vec<PeerStats>)
        ensures
            peers@.len() == self@.peers.len(),
            forall|i: int| 0 <= i < peers@.len() ==> (#[trigger] peers@[i])@ == self@.peers[i],
    {
        &self.peers
    }

    /// How long connections lasted, by type and by how they ended.
    pub fn durations(&self) -> (durations: &ConnectionDurations)
        ensures
            durations@ == self@.durations,
    {
        &self.durations
    }

    /// Resolve an interned user agent.
    pub fn user_agent(&self, id: u16) -> (agent: Option<&str>)
        ensures
            match agent {
                Some(agent) => id < self@.agents.len() && agent@ == self@.agents[id as int],
                None => id >= self@.agents.len(),
            },
    {
        if (id as usize) < self.user_agents.len() {
            Some(self.user_agents[id as usize].as_str())
        } else {
            None
        }
    }

    /// Peer id for a dense index.
    pub fn peer_id_at(&self, index: u32) -> (peer_id: Option<u64>)
        ensures
            peer_id == (if index < self@.peers.len() {
                Some(self@.peers[index as int].peer_id)
            } else {
                None
            }),
    {
        if (index as usize) < self.peers.len() {
            Some(self.peers[index as usize].peer_id)
        } else {
            None
        }
    }

    /// The peer at a dense index.
    pub fn at(&self, index: u32) -> (peer: Option<&PeerStats>)
        ensures
            match peer {
                Some(peer) => index < self@.peers.len() && peer@ == self@.peers[index as int],
                None => index >= self@.peers.len(),
            },
    {
        if (index as usize) < self.peers.len() {
            Some(&self.peers[index as usize])
        } else {
            None
        }
    }

    /// Whether a peer has been seen, or there is an index left for it.
    pub fn has_room_for(&self, peer_id: u64) -> (room: bool)
        requires
            self.wf(),
        ensures
            room == self@.has_room(peer_id),
    {
        self.peers.len() as u64 <= u32::MAX as u64 || self.position(peer_id).is_some()
    }

    /// Note what a peer calls itself.
    ///
    /// The `version` message wins over the RPC snapshot: it is what the peer
    /// actually sent, and an archive holding both should report the first-hand
    /// one. Nothing else overwrites an agent already recorded, so the hundreds
    /// of `getpeerinfo` polls in a long archive cost one lookup each.
    pub fn record_user_agent(&mut self, peer_id: u64, agent: &str, source: UserAgentSource)
        requires
            old(self).wf(),
        ensures
            final(self).wf(),
            final(self)@ == old(self)@.named(peer_id, agent@, source),
    {
        if agent.is_empty() {
            return ;
        }
        let at: usize = match self.position(peer_id) {
            Some(at) => at,
            None => {
                return ;
            },
        };
        let upgrading = match source {
            UserAgentSource::Version => match self.peers[at].user_agent_source {
                Some(UserAgentSource::Version) => false,
                _ => true,
            },
            UserAgentSource::PeerInfo => false,
        };
        if self.peers[at].user_agent.is_some() && !upgrading {
            return ;
        }
        let ghost was = *self;
        let id: usize = match self.agent_position(agent) {
            Some(id) => id,
            None => {
                if self.user_agents.len() >= MAX_AGENTS {
                    return ;
                }
                self.user_agents.push(agent.to_owned());
                assert(self@.agents =~= was@.agents.push(agent@));
                self.user_agents.len() - 1
            },
        };
        let ghost mid = *self;
        self.peers[at].user_agent = Some(id as u16);
        self.peers[at].user_agent_source = Some(source);
        proof {
            let peer = Peer {
                user_agent: Some(id as u16),
                user_agent_source: Some(source),
                ..was@.peers[at as int]
            };
            assert(self.peers@[at as int]@ =~= peer);
            assert(self@.peers =~= was@.peers.update(at as int, peer));
            assert(self@ =~= was@.named(peer_id, agent@, source));
            lemma_names_stay_distinct(was@.agents, agent@);
            lemma_changed(was@, self@, at as int, peer);
            self.lemma_still_indexed(was);
        }
    }

    /// Where a user agent stands.
    fn agent_position(&self, agent: &str) -> (at: Option<usize>)
        ensures
            match at {
                Some(at) => agent_from(self@.agents, agent@, 0) == Some(at as int) && at
                    < self@.agents.len(),
                None => agent_from(self@.agents, agent@, 0) is None,
            },
    {
        let mut at: usize = 0;
        while at < self.user_agents.len()
            invariant
                at <= self.user_agents@.len(),
                self@.agents.len() == self.user_agents@.len(),
                agent_from(self@.agents, agent@, 0) == agent_from(self@.agents, agent@, at as int),
            decreases self.user_agents@.len() - at,
        {
            assert(self@.agents[at as int] == self.user_agents@[at as int]@);
            if text::same(self.user_agents[at].as_str(), agent) {
                return Some(at);
            }
            at = at + 1;
        }
        None
    }

    /// The index still finds every peer after a change that moves none of them.
    proof fn lemma_still_indexed(&self, was: PeerTable)
        requires
            was.indexed(),
            self.places@ == was.places@,
            self.peers@.len() == was.peers@.len(),
            forall|i: int|
                0 <= i < self.peers@.len() ==> (#[trigger] self.peers@[i]).peer_id
                    == was.peers@[i].peer_id,
        ensures
            self.indexed(),
    {
        assert forall|id: u64| #[trigger] self.places@.dom().contains(id) implies stands_at(
            self@.peers,
            id,
            self.places@[id] as int,
        ) by {
            assert(stands_at(was@.peers, id, was.places@[id] as int));
            assert(self.peers@[self.places@[id] as int].peer_id == id);
        }
        assert forall|i: int| 0 <= i < self.peers@.len() implies self.places@.dom().contains(
            (#[trigger] self.peers@[i]).peer_id,
        ) by {
            assert(was.places@.dom().contains(was.peers@[i].peer_id));
        }
    }

    fn entry(&mut self, peer_id: u64, timestamp: u64) -> (at: usize)
        requires
            old(self).wf(),
            old(self)@.has_room(peer_id),
        ensures
            final(self).wf(),
            final(self)@ == old(self)@.touched(peer_id, timestamp),
            place(final(self)@.peers, peer_id) == Some(at as int),
            at < final(self)@.peers.len(),
    {
        let ghost was = *self;
        match self.position(peer_id) {
            Some(at) => {
                self.peers[at].touch(timestamp);
                proof {
                    let peer = was@.peers[at as int].touched(timestamp);
                    assert(self@.peers =~= was@.peers.update(at as int, peer));
                    assert(self@ =~= was@.touched(peer_id, timestamp));
                    lemma_changed(was@, self@, at as int, peer);
                    self.lemma_still_indexed(was);
                    lemma_place(self@, peer_id, at as int);
                }
                at
            },
            None => {
                let at: usize = self.peers.len();
                self.peers.push(PeerStats::new(peer_id, at as u32, timestamp));
                self.places.insert(peer_id, at);
                proof {
                    let peer = Peer::fresh(peer_id, at as u32, timestamp);
                    assert(self@.peers =~= was@.peers.push(peer));
                    assert(self@ =~= was@.touched(peer_id, timestamp));
                    assert forall|i: int| 0 <= i < at implies was@.peers[i].peer_id != peer_id by {
                        assert(!stands_at(was@.peers, peer_id, i));
                    }
                    lemma_fresh_tidy(peer_id, at as u32, timestamp);
                    assert(self@.valid());
                    assert forall|id: u64| #[trigger] self.places@.dom().contains(
                        id,
                    ) implies stands_at(self@.peers, id, self.places@[id] as int) by {
                        if id != peer_id {
                            assert(stands_at(was@.peers, id, was.places@[id] as int));
                        }
                    }
                    assert forall|i: int|
                        0 <= i < self.peers@.len() implies self.places@.dom().contains(
                        (#[trigger] self.peers@[i]).peer_id,
                    ) by {
                        if i < at {
                            assert(was.places@.dom().contains(was.peers@[i].peer_id));
                        }
                    }
                    lemma_place(self@, peer_id, at as int);
                }
                at
            },
        }
    }

    /// Record a P2P message. `command` is the interned kind id of `meta.command`.
    pub fn record_message(&mut self, timestamp: u64, event: &MessageEvent, command: u16)
        requires
            old(self).wf(),
            old(self)@.has_room(event.meta.peer_id),
        ensures
            final(self).wf(),
            final(self)@ == old(self)@.with_message(timestamp, *event, command),
            place(final(self)@.peers, event.meta.peer_id) is Some,
    {
        let meta = &event.meta;
        if meta.inbound {
            if let Some(Msg::Version(version)) = &event.msg {
                self.entry(meta.peer_id, timestamp);
                let ghost mid = *self;
                self.record_user_agent(
                    meta.peer_id,
                    version.user_agent.as_str(),
                    UserAgentSource::Version,
                );
                proof {
                    let at = place(mid@.peers, meta.peer_id)->0;
                    assert(stands_at(mid@.peers, meta.peer_id, at));
                    assert(stands_at(self@.peers, meta.peer_id, at));
                }
            }
        }
        let at: usize = self.entry(meta.peer_id, timestamp);
        let ghost was = *self;
        self.peers[at].add_message(meta, command);
        proof {
            let peer = was@.peers[at as int].with_message(event.meta, command);
            assert(self@.peers =~= was@.peers.update(at as int, peer));
            assert(self@ =~= was@.with_peer(at as int, peer));
            lemma_message_tidy(was@.peers[at as int], event.meta, command);
            lemma_changed(was@, self@, at as int, peer);
            self.lemma_still_indexed(was);
            lemma_place(self@, meta.peer_id, at as int);
        }
    }

    /// Record a connection lifecycle event.
    pub fn record_connection(&mut self, timestamp: u64, event: &ConnectionEvent)
        requires
            old(self).wf(),
            event.event matches Some(inner) ==> old(self)@.has_room(reported(inner).peer_id),
        ensures
            final(self).wf(),
            final(self)@ == old(self)@.with_connection(timestamp, *event),
            event.event matches Some(inner) ==> place(
                final(self)@.peers,
                reported(inner).peer_id,
            ) is Some,
    {
        let inner = match &event.event {
            Some(inner) => inner,
            None => {
                return ;
            },
        };
        // `misbehaving` must not blank out what we already know about the peer.
        let (peer_id, conn, kind, time_established, existing_connections, message): (
            u64,
            Option<&Connection>,
            LifecycleKind,
            Option<u64>,
            Option<u64>,
            Option<String>,
        ) = match inner {
            ConnEvent::Closed(c) => (
                c.conn.peer_id,
                Some(&c.conn),
                LifecycleKind::Closed,
                Some(c.time_established),
                None,
                None,
            ),
            ConnEvent::InboundEvicted(c) => (
                c.conn.peer_id,
                Some(&c.conn),
                LifecycleKind::InboundEvicted,
                Some(c.time_established),
                None,
                None,
            ),
            ConnEvent::Inbound(c) => (
                c.conn.peer_id,
                Some(&c.conn),
                LifecycleKind::Inbound,
                None,
                Some(c.existing_connections),
                None,
            ),
            ConnEvent::Outbound(c) => (
                c.conn.peer_id,
                Some(&c.conn),
                LifecycleKind::Outbound,
                None,
                Some(c.existing_connections),
                None,
            ),
            ConnEvent::Misbehaving(m) => (
                m.id,
                None,
                LifecycleKind::Misbehaving,
                None,
                None,
                Some(m.message.clone()),
            ),
        };
        let ghost said = reported(*inner);
        let at: usize = self.entry(peer_id, timestamp);
        let ghost was = *self;
        if let Some(conn) = conn {
            update_identity(&mut self.peers[at], conn);
        }
        let ghost mid = *self;
        assert(mid.peers@[at as int]@ =~= was@.peers[at as int].identified(said.conn));
        let entry = LifecycleEvent {
            timestamp,
            kind,
            time_established,
            existing_connections,
            message,
        };
        self.peers[at].add_lifecycle(entry);

        // `time_established` is a UNIX timestamp in seconds, not a duration, so
        // the lifetime is the gap back to it from this event's own millisecond
        // clock. A connection that reports no establishment time contributes
        // nothing, and one established in the future has not lived.
        if let (Some(conn), Some(seconds)) = (conn, time_established) {
            let ended = EndedConnection {
                conn_type: conn.conn_type,
                evicted: match kind {
                    LifecycleKind::InboundEvicted => true,
                    _ => false,
                },
                lifetime_ms: lifetime_since(timestamp, seconds),
            };
            self.durations.add(&ended);
        }
        proof {
            let entry = Lifecycle {
                timestamp,
                kind: said.kind,
                time_established: said.time_established,
                existing_connections: said.existing_connections,
                message: said.message,
            };
            let peer = was@.peers[at as int].identified(said.conn).with_lifecycle(entry);
            assert(self.peers@[at as int]@ =~= peer);
            assert(self@.peers =~= was@.peers.update(at as int, peer));
            assert(self@ =~= old(self)@.with_connection(timestamp, *event));
            lemma_lifecycle_tidy(was@.peers[at as int], said.conn, entry);
            lemma_changed(was@, self@, at as int, peer);
            self.lemma_still_indexed(was);
            lemma_place(self@, peer_id, at as int);
        }
    }
}

fn lifetime_since(timestamp: u64, seconds: u64) -> (ms: u64)
    ensures
        ms == lifetime(timestamp, seconds),
{
    match seconds.checked_mul(1_000) {
        Some(established) => timestamp.saturating_sub(established),
        None => 0,
    }
}

fn update_identity(peer: &mut PeerStats, conn: &Connection)
    ensures
        final(peer)@ == old(peer)@.identified(Some(*conn)),
{
    let ghost was = peer@;
    peer.addr = Some(conn.addr.clone());
    peer.conn_type = Some(conn.conn_type);
    peer.network = Some(conn.network);
    assert(peer@ =~= was.identified(Some(*conn)));
}

/// Changing one peer, but not who or where it is, keeps a directory valid.
pub proof fn lemma_changed(before: Directory, after: Directory, at: int, peer: Peer)
    requires
        before.valid(),
        0 <= at < before.peers.len(),
        after.peers == before.peers.update(at, peer),
        after.agents.len() >= before.agents.len(),
        after.agents.len() <= MAX_AGENTS,
        after.agents.no_duplicates(),
        peer.peer_id == before.peers[at].peer_id,
        peer.index == before.peers[at].index,
        peer.tidy(),
        peer.user_agent matches Some(id) ==> id < after.agents.len(),
    ensures
        after.valid(),
{
    assert forall|i: int|
        #![trigger after.peers[i]]
        0 <= i < after.peers.len() implies {
        &&& after.peers[i].index == i
        &&& after.peers[i].tidy()
        &&& after.peers[i].user_agent matches Some(id) ==> id < after.agents.len()
    } by {
        assert(before.peers[i].index == i);
    }
    assert forall|i: int, j: int|
        #![trigger after.peers[i], after.peers[j]]
        0 <= i < j < after.peers.len() implies after.peers[i].peer_id != after.peers[j].peer_id by {
        assert(before.peers[i].peer_id != before.peers[j].peer_id);
    }
}

/// How many of some peers go by a user agent.
pub open spec fn agent_count(peers: Seq<Peer>, id: int) -> nat
    decreases peers.len(),
{
    if peers.len() == 0 {
        0
    } else {
        agent_count(peers.drop_last(), id) + if peers.last().user_agent matches Some(of) && of == id {
            1nat
        } else {
            0nat
        }
    }
}

/// The first `upto` user agents that any peer goes by, with how many do.
pub open spec fn agents_in_use(directory: Directory, upto: int) -> Seq<(Seq<char>, u64)>
    decreases upto,
{
    if upto <= 0 {
        Seq::empty()
    } else {
        let rows = agents_in_use(directory, upto - 1);
        let count = agent_count(directory.peers, upto - 1);
        if count > 0 {
            rows.push((directory.agents[upto - 1], count as u64))
        } else {
            rows
        }
    }
}

/// Whether agent row `a` is listed before agent row `b`: the busier one, or the
/// one whose name comes first.
pub open spec fn busier(rows: Seq<(Seq<char>, u64)>, a: int, b: int) -> bool {
    ||| rows[a].1 > rows[b].1
    ||| rows[a].1 == rows[b].1 && text::before(rows[a].0, rows[b].0)
    ||| rows[a].1 == rows[b].1 && rows[a].0 == rows[b].0 && a < b
}

/// Whether `order` lists all the agent rows, busiest first.
pub open spec fn busiest_first(rows: Seq<(Seq<char>, u64)>, order: Seq<usize>) -> bool {
    &&& order.len() == rows.len()
    &&& forall|i: int| 0 <= i < order.len() ==> #[trigger] order[i] < rows.len()
    &&& forall|i: int, j: int|
        #![trigger order[i], order[j]]
        0 <= i < j < order.len() ==> busier(rows, order[i] as int, order[j] as int)
}

/// Whether `listed` is all the agent rows, busiest first.
pub open spec fn agents_listed(
    rows: Seq<(Seq<char>, u64)>,
    listed: Seq<(Seq<char>, u64)>,
) -> bool {
    exists|order: Seq<usize>| #[trigger]
        busiest_first(rows, order) && listed == Seq::new(
            rows.len(),
            |i: int| rows[order[i] as int],
        )
}

/// User agents and how many peers go by them.
struct AgentRows<'a> {
    rows: Vec<(&'a str, u64)>,
}

spec fn agent_rows(rows: Seq<(&str, u64)>) -> Seq<(Seq<char>, u64)> {
    Seq::new(rows.len(), |i: int| (rows[i].0@, rows[i].1))
}

impl<'a> RowKeys for AgentRows<'a> {
    closed spec fn rows(&self) -> nat {
        self.rows@.len()
    }

    closed spec fn precedes(&self, a: int, b: int) -> bool {
        busier(agent_rows(self.rows@), a, b)
    }

    proof fn one_comes_first(&self, a: int, b: int, c: int) {
        let rows = agent_rows(self.rows@);
        text::lemma_before(rows[a].0, rows[b].0, rows[c].0);
    }

    fn len(&self) -> (len: usize) {
        self.rows.len()
    }

    fn comes_first(&self, a: usize, b: usize) -> (first: bool) {
        let x = self.rows[a];
        let y = self.rows[b];
        x.1 > y.1 || (x.1 == y.1 && (text::comes_before(x.0, y.0) || (text::same(x.0, y.0) && a < b)))
    }
}

proof fn lemma_agent_count(peers: Seq<Peer>, id: int)
    ensures
        agent_count(peers, id) <= peers.len(),
    decreases peers.len(),
{
    if peers.len() > 0 {
        lemma_agent_count(peers.drop_last(), id);
    }
}

impl PeerTable {
    /// How many peers go by each user agent, by its id.
    fn agent_tallies(&self) -> (counts: Vec<u64>)
        requires
            self.wf(),
        ensures
            counts@.len() == self@.agents.len(),
            forall|id: int|
                0 <= id < counts@.len() ==> #[trigger] counts@[id] == agent_count(self@.peers, id),
    {
        let mut counts: Vec<u64> = vec![0u64; self.user_agents.len()];
        assert(self@.peers.take(0) =~= Seq::empty());
        let mut i: usize = 0;
        while i < self.peers.len()
            invariant
                i <= self.peers@.len(),
                self.wf(),
                self@.peers.len() == self.peers@.len(),
                self@.agents.len() == counts@.len(),
                forall|id: int|
                    0 <= id < counts@.len() ==> #[trigger] counts@[id] == agent_count(
                        self@.peers.take(i as int),
                        id,
                    ),
            decreases self.peers@.len() - i,
        {
            proof {
                assert(self@.peers.take(i + 1).drop_last() =~= self@.peers.take(i as int));
                assert(self@.peers.take(i + 1).last() == self.peers@[i as int]@);
                assert(self@.peers[i as int].index == i);
            }
            if let Some(id) = self.peers[i].user_agent {
                proof {
                    lemma_agent_count(self@.peers.take(i as int), id as int);
                }
                let held: u64 = counts[id as usize];
                counts[id as usize] = held + 1;
            }
            i = i + 1;
        }
        assert(self@.peers.take(self@.peers.len() as int) =~= self@.peers);
        counts
    }

    /// Every user agent seen, with how many peers reported it, busiest first.
    pub fn user_agent_counts(&self) -> (agents: Vec<(&str, u64)>)
        requires
            self.wf(),
        ensures
            agents_listed(
                agents_in_use(self@, self@.agents.len() as int),
                Seq::new(agents@.len(), |i: int| (agents@[i].0@, agents@[i].1)),
            ),
    {
        let counts = self.agent_tallies();
        let mut rows: Vec<(&str, u64)> = Vec::new();
        let mut id: usize = 0;
        while id < self.user_agents.len()
            invariant
                id <= self.user_agents@.len(),
                self@.agents.len() == self.user_agents@.len(),
                counts@.len() == self@.agents.len(),
                forall|k: int|
                    0 <= k < counts@.len() ==> #[trigger] counts@[k] == agent_count(self@.peers, k),
                agent_rows(rows@) == agents_in_use(self@, id as int),
            decreases self.user_agents@.len() - id,
        {
            assert(self@.agents[id as int] == self.user_agents@[id as int]@);
            assert(counts@[id as int] == agent_count(self@.peers, id as int));
            if counts[id] > 0 {
                let ghost listed = rows@;
                rows.push((self.user_agents[id].as_str(), counts[id]));
                assert(agent_rows(rows@) =~= agent_rows(listed).push(
                    (self@.agents[id as int], counts@[id as int]),
                ));
            }
            id = id + 1;
        }
        let keys = AgentRows { rows };
        let order = order::sort_rows(&keys);
        let mut agents: Vec<(&str, u64)> = Vec::new();
        let mut i: usize = 0;
        while i < order.len()
            invariant
                i <= order@.len(),
                order::in_order(keys, order@),
                agents@.len() == i,
                forall|k: int|
                    0 <= k < i ==> #[trigger] agents@[k] == keys.rows@[order@[k] as int],
            decreases order@.len() - i,
        {
            agents.push(keys.rows[order[i]]);
            i = i + 1;
        }
        proof {
            let listed = agent_rows(keys.rows@);
            assert(busiest_first(listed, order@)) by {
                assert forall|i: int, j: int|
                    #![trigger order@[i], order@[j]]
                    0 <= i < j < order@.len() implies busier(
                    listed,
                    order@[i] as int,
                    order@[j] as int,
                ) by {
                    assert(keys.precedes(order@[i] as int, order@[j] as int));
                }
            }
            assert(Seq::new(agents@.len(), |i: int| (agents@[i].0@, agents@[i].1)) =~= Seq::new(
                listed.len(),
                |i: int| listed[order@[i] as int],
            ));
        }
        agents
    }
}

/// A peer table only ever holds a valid directory.
pub proof fn law_a_peer_table_is_valid(table: PeerTable)
    requires
        table.wf(),
    ensures
        table@.valid(),
{
}

/// Lifecycle entries, added one after another to an empty list.
pub open spec fn lifecycle_of(entries: Seq<Lifecycle>) -> Seq<Lifecycle>
    decreases entries.len(),
{
    if entries.len() == 0 {
        Seq::empty()
    } else {
        lifecycle_with(lifecycle_of(entries.drop_last()), entries.last())
    }
}

/// However many lifecycle events a peer has, the list keeps the latest of them,
/// up to the cap, in order.
pub proof fn law_the_latest_lifecycle_events_are_kept(entries: Seq<Lifecycle>)
    ensures
        lifecycle_of(entries) == (if entries.len() <= LIFECYCLE_CAP {
            entries
        } else {
            entries.skip(entries.len() - LIFECYCLE_CAP)
        }),
    decreases entries.len(),
{
    if entries.len() == 0 {
        assert(lifecycle_of(entries) =~= entries);
    } else {
        let rest = entries.drop_last();
        law_the_latest_lifecycle_events_are_kept(rest);
        assert(entries =~= rest.push(entries.last()));
        assert(lifecycle_of(entries) =~= (if entries.len() <= LIFECYCLE_CAP {
            entries
        } else {
            entries.skip(entries.len() - LIFECYCLE_CAP)
        }));
    }
}

/// A misbehaving event carries no address, so it leaves the address, connection
/// type and network of a known peer alone, and gives an unknown one none.
pub proof fn law_misbehaving_does_not_clobber_an_identity(
    directory: Directory,
    timestamp: u64,
    event: ConnectionEvent,
)
    requires
        directory.valid(),
        event.event matches Some(inner) && inner is Misbehaving,
    ensures
        ({
            let id = reported(event.event->0).peer_id;
            let after = directory.with_connection(timestamp, event);
            match place(directory.peers, id) {
                Some(at) => {
                    &&& after.peers[at].addr == directory.peers[at].addr
                    &&& after.peers[at].conn_type == directory.peers[at].conn_type
                    &&& after.peers[at].network == directory.peers[at].network
                },
                None => {
                    &&& after.peers.last().peer_id == id
                    &&& after.peers.last().addr is None
                    &&& after.peers.last().conn_type is None
                },
            }
        }),
{
    let id = reported(event.event->0).peer_id;
    lemma_touched(directory, id, timestamp);
}

/// Seeing a peer gives it a place, and keeps the one it has.
pub proof fn lemma_touched(directory: Directory, peer_id: u64, timestamp: u64)
    requires
        directory.valid(),
    ensures
        ({
            let after = directory.touched(peer_id, timestamp);
            match place(directory.peers, peer_id) {
                Some(at) => place(after.peers, peer_id) == Some(at) && 0 <= at
                    < directory.peers.len(),
                None => place(after.peers, peer_id) == Some(directory.peers.len() as int),
            }
        }),
{
    let after = directory.touched(peer_id, timestamp);
    match place(directory.peers, peer_id) {
        Some(at) => {
            assert(stands_at(directory.peers, peer_id, at));
            lemma_changed(directory, after, at, directory.peers[at].touched(timestamp));
            assert(stands_at(after.peers, peer_id, at));
            lemma_place(after, peer_id, at);
        },
        None => {
            let at = directory.peers.len() as int;
            assert(stands_at(after.peers, peer_id, at));
            assert forall|other: int| stands_at(after.peers, peer_id, other) implies other == at by {
                assert(!stands_at(directory.peers, peer_id, other));
            }
        },
    }
}

proof fn lemma_touched_len(directory: Directory, peer_id: u64, timestamp: u64)
    ensures
        directory.touched(peer_id, timestamp).peers.len() >= directory.peers.len(),
        ({
            let after = directory.touched(peer_id, timestamp);
            place(after.peers, peer_id) matches Some(at) && 0 <= at < after.peers.len()
        }),
{
    let after = directory.touched(peer_id, timestamp);
    match place(directory.peers, peer_id) {
        Some(at) => {
            assert(stands_at(directory.peers, peer_id, at));
            assert(stands_at(after.peers, peer_id, at));
        },
        None => {
            assert(stands_at(after.peers, peer_id, directory.peers.len() as int));
        },
    }
    let at = place(after.peers, peer_id)->0;
    assert(stands_at(after.peers, peer_id, at));
}

/// Recording an event loses no peer.
pub proof fn lemma_no_peer_is_lost(
    directory: Directory,
    timestamp: u64,
    message: MessageEvent,
    command: u16,
    connection: ConnectionEvent,
)
    ensures
        directory.with_message(timestamp, message, command).peers.len() >= directory.peers.len(),
        directory.with_connection(timestamp, connection).peers.len() >= directory.peers.len(),
{
    let id = message.meta.peer_id;
    lemma_touched_len(directory, id, timestamp);
    if let Some(Msg::Version(version)) = message.msg {
        let once = directory.touched(id, timestamp);
        let at = place(once.peers, id)->0;
        assert(stands_at(once.peers, id, at));
        let named = once.named(id, version.user_agent@, UserAgentSource::Version);
        assert(named.peers.len() == once.peers.len());
        lemma_touched_len(named, id, timestamp);
    }
    if let Some(event) = connection.event {
        lemma_touched_len(directory, reported(event).peer_id, timestamp);
    }
}

/// The agent a peer goes by.
pub open spec fn agent_of(directory: Directory, peer_id: u64) -> Option<Seq<char>> {
    match place(directory.peers, peer_id) {
        Some(at) => match directory.peers[at].user_agent {
            Some(id) => Some(directory.agents[id as int]),
            None => None,
        },
        None => None,
    }
}

/// Where the agent a peer goes by came from.
pub open spec fn agent_source(directory: Directory, peer_id: u64) -> Option<UserAgentSource> {
    match place(directory.peers, peer_id) {
        Some(at) => directory.peers[at].user_agent_source,
        None => None,
    }
}

/// Whether a user agent is known, or there is an id left for it.
pub open spec fn has_name_for(directory: Directory, agent: Seq<char>) -> bool {
    agent_from(directory.agents, agent, 0) is Some || directory.agents.len() < MAX_AGENTS
}

/// The version message wins over the RPC snapshot, whichever arrives first. It needs a
/// name that is known or an id that is left once the snapshot has been named.
pub proof fn law_a_version_message_wins(
    directory: Directory,
    peer_id: u64,
    wire: Seq<char>,
    polled: Seq<char>,
)
    requires
        directory.valid(),
        place(directory.peers, peer_id) is Some,
        agent_source(directory, peer_id) != Some(UserAgentSource::Version),
        wire.len() > 0,
        has_name_for(directory.named(peer_id, polled, UserAgentSource::PeerInfo), wire),
    ensures
        ({
            let after = directory.named(peer_id, wire, UserAgentSource::Version).named(
                peer_id,
                polled,
                UserAgentSource::PeerInfo,
            );
            &&& agent_of(after, peer_id) == Some(wire)
            &&& agent_source(after, peer_id) == Some(UserAgentSource::Version)
        }),
        ({
            let after = directory.named(peer_id, polled, UserAgentSource::PeerInfo).named(
                peer_id,
                wire,
                UserAgentSource::Version,
            );
            &&& agent_of(after, peer_id) == Some(wire)
            &&& agent_source(after, peer_id) == Some(UserAgentSource::Version)
        }),
{
    lemma_named(directory, peer_id, wire, UserAgentSource::Version);
    let first = directory.named(peer_id, wire, UserAgentSource::Version);
    lemma_named(first, peer_id, polled, UserAgentSource::PeerInfo);
    lemma_named(directory, peer_id, polled, UserAgentSource::PeerInfo);
    let second = directory.named(peer_id, polled, UserAgentSource::PeerInfo);
    lemma_named(second, peer_id, wire, UserAgentSource::Version);
}

/// A poll naming a peer this archive never otherwise saw changes nothing.
pub proof fn law_a_poll_invents_no_peer(
    directory: Directory,
    peer_id: u64,
    agent: Seq<char>,
    source: UserAgentSource,
)
    requires
        place(directory.peers, peer_id) is None,
    ensures
        directory.named(peer_id, agent, source) == directory,
{
}

proof fn lemma_agent_from(agents: Seq<Seq<char>>, agent: Seq<char>, from: int)
    requires
        0 <= from,
    ensures
        agent_from(agents, agent, from) matches Some(at) ==> from <= at < agents.len() && agents[at]
            == agent,
    decreases agents.len() - from,
{
    if from < agents.len() {
        lemma_agent_from(agents, agent, from + 1);
    }
}

pub proof fn lemma_named(
    directory: Directory,
    peer_id: u64,
    agent: Seq<char>,
    source: UserAgentSource,
)
    requires
        directory.valid(),
        place(directory.peers, peer_id) is Some,
    ensures
        ({
            let after = directory.named(peer_id, agent, source);
            let at = place(directory.peers, peer_id)->0;
            let peer = directory.peers[at];
            let upgrading = source == UserAgentSource::Version && peer.user_agent_source
                != Some(source);
            &&& after.valid()
            &&& place(after.peers, peer_id) == Some(at)
            &&& 0 <= at < after.peers.len()
            &&& after.agents == directory.agents || directory.agents.len() < MAX_AGENTS
                && after.agents == directory.agents.push(agent)
            &&& (agent.len() > 0 && has_name_for(directory, agent) && (peer.user_agent is None
                || upgrading)) ==> {
                &&& after.peers[at].user_agent matches Some(id) && after.agents[id as int] == agent
                &&& after.peers[at].user_agent_source == Some(source)
            }
            &&& !(agent.len() > 0 && (peer.user_agent is None || upgrading)) ==> after == directory
        }),
{
    let at = place(directory.peers, peer_id)->0;
    assert(stands_at(directory.peers, peer_id, at));
    let after = directory.named(peer_id, agent, source);
    lemma_agent_from(directory.agents, agent, 0);
    lemma_names_stay_distinct(directory.agents, agent);
    if after != directory {
        lemma_changed(directory, after, at, after.peers[at]);
        assert(after.peers =~= directory.peers.update(at, after.peers[at]));
        assert(stands_at(after.peers, peer_id, at));
        lemma_place(after, peer_id, at);
    }
}

/// A name that is not found is nowhere among the names.
proof fn lemma_agent_absent(agents: Seq<Seq<char>>, agent: Seq<char>, from: int)
    requires
        0 <= from,
        agent_from(agents, agent, from) is None,
    ensures
        forall|i: int| from <= i < agents.len() ==> #[trigger] agents[i] != agent,
    decreases agents.len() - from,
{
    if from < agents.len() {
        lemma_agent_absent(agents, agent, from + 1);
    }
}

/// One more name, if it is not there yet, leaves every name there once.
proof fn lemma_names_stay_distinct(agents: Seq<Seq<char>>, agent: Seq<char>)
    requires
        agents.no_duplicates(),
    ensures
        agent_from(agents, agent, 0) is None ==> agents.push(agent).no_duplicates(),
{
    if agent_from(agents, agent, 0) is None {
        lemma_agent_absent(agents, agent, 0);
    }
}

/// Something about each of the first `upto` commands, added up.
pub open spec fn over_commands(
    commands: Seq<(u16, CommandCounts)>,
    of: spec_fn(CommandCounts) -> u64,
    upto: int,
) -> int
    decreases upto,
{
    if upto <= 0 {
        0
    } else {
        over_commands(commands, of, upto - 1) + of(commands[upto - 1].1)
    }
}

/// Something about every command of a peer, added up.
pub open spec fn of_all(peer: Peer, of: spec_fn(CommandCounts) -> u64) -> int {
    over_commands(peer.commands, of, peer.commands.len() as int)
}

/// Whether what a peer's commands say adds up to what its own figures say.
pub open spec fn commands_add_up(peer: Peer) -> bool {
    &&& commands_distinct(peer.commands)
    &&& of_all(peer, |c: CommandCounts| c.inbound) == peer.messages_in
    &&& of_all(peer, |c: CommandCounts| c.outbound) == peer.messages_out
    &&& of_all(peer, |c: CommandCounts| c.inbound_bytes) == peer.bytes_in
    &&& of_all(peer, |c: CommandCounts| c.outbound_bytes) == peer.bytes_out
}

proof fn lemma_over_same(
    a: Seq<(u16, CommandCounts)>,
    b: Seq<(u16, CommandCounts)>,
    of: spec_fn(CommandCounts) -> u64,
    upto: int,
)
    requires
        upto <= a.len(),
        upto <= b.len(),
        forall|i: int| 0 <= i < upto ==> #[trigger] a[i] == b[i],
    ensures
        over_commands(a, of, upto) == over_commands(b, of, upto),
    decreases upto,
{
    if upto > 0 {
        lemma_over_same(a, b, of, upto - 1);
    }
}

proof fn lemma_over_bound(
    commands: Seq<(u16, CommandCounts)>,
    of: spec_fn(CommandCounts) -> u64,
    at: int,
    upto: int,
)
    requires
        upto <= commands.len(),
    ensures
        0 <= over_commands(commands, of, upto),
        0 <= at < upto ==> of(commands[at].1) <= over_commands(commands, of, upto),
    decreases upto,
{
    if upto > 0 {
        lemma_over_bound(commands, of, at, upto - 1);
    }
}

proof fn lemma_over_update(
    commands: Seq<(u16, CommandCounts)>,
    of: spec_fn(CommandCounts) -> u64,
    at: int,
    changed: (u16, CommandCounts),
    upto: int,
)
    requires
        0 <= at < upto <= commands.len(),
    ensures
        over_commands(commands.update(at, changed), of, upto) == over_commands(commands, of, upto)
            - of(commands[at].1) + of(changed.1),
    decreases upto,
{
    if upto - 1 == at {
        lemma_over_same(commands, commands.update(at, changed), of, upto - 1);
    } else {
        lemma_over_update(commands, of, at, changed, upto - 1);
    }
}

/// Counting a message changes a sum over the commands by what it adds to its own.
proof fn lemma_over_with(
    commands: Seq<(u16, CommandCounts)>,
    command: u16,
    inbound: bool,
    size: u64,
    of: spec_fn(CommandCounts) -> u64,
    more: int,
)
    requires
        of(CommandCounts::zero()) == 0,
        forall|c: CommandCounts|
            of(c) + more <= u64::MAX ==> of(#[trigger] c.with(inbound, size)) == of(c) + more,
        0 <= more,
        over_commands(commands, of, commands.len() as int) + more <= u64::MAX,
    ensures
        ({
            let after = commands_with(commands, command, inbound, size);
            over_commands(after, of, after.len() as int) == over_commands(
                commands,
                of,
                commands.len() as int,
            ) + more
        }),
{
    let n = commands.len() as int;
    lemma_command_from(commands, command, 0);
    match command_from(commands, command, 0) {
        Some(at) => {
            lemma_over_bound(commands, of, at, n);
            lemma_over_update(
                commands,
                of,
                at,
                (command, commands[at].1.with(inbound, size)),
                n,
            );
        },
        None => {
            lemma_over_bound(commands, of, -1, n);
            let after = commands_with(commands, command, inbound, size);
            lemma_over_same(commands, after, of, n);
        },
    }
}

pub proof fn lemma_fresh_tidy(peer_id: u64, index: u32, timestamp: u64)
    ensures
        Peer::fresh(peer_id, index, timestamp).tidy(),
{
}

/// A message keeps a peer's figures fitting together.
pub proof fn lemma_message_tidy(peer: Peer, meta: Metadata, command: u16)
    requires
        peer.tidy(),
    ensures
        peer.with_message(meta, command).tidy(),
        exists|i: int|
            0 <= i < peer.with_message(meta, command).commands.len() && (
            #[trigger] peer.with_message(meta, command).commands[i]).0 == command,
{
    let after = peer.with_message(meta, command);
    lemma_commands_stay_distinct(peer.commands, command, meta.inbound, meta.size);
    lemma_command_from(peer.commands, command, 0);
    match command_from(peer.commands, command, 0) {
        Some(at) => {
            assert(after.commands[at].0 == command);
        },
        None => {
            assert(after.commands[peer.commands.len() as int].0 == command);
        },
    }
    if after.counted() {
        let (messages, bytes) = if meta.inbound {
            ((1int, 0int), (meta.size as int, 0int))
        } else {
            ((0int, 1int), (0int, meta.size as int))
        };
        lemma_over_with(
            peer.commands,
            command,
            meta.inbound,
            meta.size,
            |c: CommandCounts| c.inbound,
            messages.0,
        );
        lemma_over_with(
            peer.commands,
            command,
            meta.inbound,
            meta.size,
            |c: CommandCounts| c.outbound,
            messages.1,
        );
        lemma_over_with(
            peer.commands,
            command,
            meta.inbound,
            meta.size,
            |c: CommandCounts| c.inbound_bytes,
            bytes.0,
        );
        lemma_over_with(
            peer.commands,
            command,
            meta.inbound,
            meta.size,
            |c: CommandCounts| c.outbound_bytes,
            bytes.1,
        );
    }
}

/// An event of a connection keeps a peer's figures fitting together.
pub proof fn lemma_lifecycle_tidy(peer: Peer, conn: Option<Connection>, entry: Lifecycle)
    requires
        peer.tidy(),
    ensures
        peer.identified(conn).with_lifecycle(entry).tidy(),
{
    let after = peer.identified(conn).with_lifecycle(entry);
    assert(after.commands == peer.commands);
    assert(after.counted() == peer.counted());
    if after.kinds_counted() {
        let slot = entry.kind.slot();
        if after.lifecycle_total > u32::MAX {
            assert(after.lifecycle_counts[slot] < u32::MAX);
            assert forall|i: int| 0 <= i < 5 implies #[trigger] peer.lifecycle_counts[i]
                < u32::MAX by {
                assert(after.lifecycle_counts[i] < u32::MAX);
            }
        }
        assert(peer.kinds_counted());
    }
}

/// A peer's messages and bytes are those of its commands, of which each stands once, and
/// of its connections' events there are as many as there are of each kind: so it is of
/// every peer there is, in every table, until a counter is full. A message of a command
/// counts once in both, the way it went, and leaves the other way alone.
pub proof fn law_commands_add_up(
    table: PeerTable,
    at: int,
    meta: Metadata,
    command: u16,
)
    requires
        table.wf(),
        0 <= at < table@.peers.len(),
    ensures
        table@.peers[at].tidy(),
        ({
            let peer = table@.peers[at];
            let after = peer.with_message(meta, command);
            &&& after.tidy()
            &&& exists|i: int|
                0 <= i < after.commands.len() && (#[trigger] after.commands[i]).0 == command
            &&& after.messages_in == latency::capped(
                peer.messages_in as int,
                if meta.inbound {
                    1
                } else {
                    0
                },
            )
            &&& after.messages_out == latency::capped(
                peer.messages_out as int,
                if meta.inbound {
                    0
                } else {
                    1
                },
            )
            &&& after.bytes_in == latency::capped(
                peer.bytes_in as int,
                if meta.inbound {
                    meta.size as int
                } else {
                    0
                },
            )
            &&& after.bytes_out == latency::capped(
                peer.bytes_out as int,
                if meta.inbound {
                    0
                } else {
                    meta.size as int
                },
            )
            &&& after.addr == Some(meta.addr@)
            &&& after.conn_type == Some(meta.conn_type)
        }),
{
    let peer = table@.peers[at];
    assert(peer.index == at);
    lemma_message_tidy(peer, meta, command);
}

/// What is counted under a command.
pub open spec fn counts_of(
    commands: Seq<(u16, CommandCounts)>,
    command: u16,
) -> CommandCounts {
    match command_from(commands, command, 0) {
        Some(at) => commands[at].1,
        None => CommandCounts::zero(),
    }
}

/// A message is counted under its own command, by the way it went: one more, and its bytes
/// more, as far as the counters go. What is counted under another stays as it is.
pub proof fn law_a_message_is_counted_under_its_command(
    commands: Seq<(u16, CommandCounts)>,
    command: u16,
    inbound: bool,
    size: u64,
    other: u16,
)
    requires
        commands_distinct(commands),
    ensures
        ({
            let after = commands_with(commands, command, inbound, size);
            let was = counts_of(commands, other);
            let now = counts_of(after, other);
            &&& other != command ==> now == was
            &&& other == command && inbound ==> {
                &&& was.inbound < u64::MAX ==> now.inbound == was.inbound + 1
                &&& was.inbound_bytes + size <= u64::MAX ==> now.inbound_bytes
                    == was.inbound_bytes + size
                &&& now.outbound == was.outbound && now.outbound_bytes == was.outbound_bytes
            }
            &&& other == command && !inbound ==> {
                &&& was.outbound < u64::MAX ==> now.outbound == was.outbound + 1
                &&& was.outbound_bytes + size <= u64::MAX ==> now.outbound_bytes
                    == was.outbound_bytes + size
                &&& now.inbound == was.inbound && now.inbound_bytes == was.inbound_bytes
            }
            &&& forall|at: int|
                0 <= at < after.len() && (#[trigger] after[at]).0 == other ==> after[at].1 == now
            &&& (exists|at: int| 0 <= at < after.len() && (#[trigger] after[at]).0 == other) || now
                == CommandCounts::zero()
        }),
{
    let after = commands_with(commands, command, inbound, size);
    lemma_commands_stay_distinct(commands, command, inbound, size);
    lemma_command_from(commands, command, 0);
    lemma_command_from(commands, other, 0);
    lemma_command_from(after, other, 0);
    if let Some(at) = command_from(commands, other, 0) {
        assert(after[at].0 == other);
        let now = command_from(after, other, 0)->0;
        assert(now == at) by {
            assert(after[now].0 == other);
        }
    } else if other == command {
        assert(after[commands.len() as int].0 == other);
        let now = command_from(after, other, 0)->0;
        assert(after[now].0 == other);
        assert(now == commands.len());
    } else {
        if let Some(now) = command_from(after, other, 0) {
            assert(after[now].0 == other);
            if now < commands.len() {
                assert(commands[now].0 == other);
            }
        }
    }
    assert forall|at: int|
        0 <= at < after.len() && (#[trigger] after[at]).0 == other implies after[at].1 == counts_of(
        after,
        other,
    ) by {
        let now = command_from(after, other, 0)->0;
        assert(after[now].0 == other);
        assert(now == at);
    }
}

/// A name is one peer's: a peer that is known and goes by none yet is called what it is
/// named, and one that goes by what a snapshot said is called what it said itself. A name of
/// no letters, or one that there is no id left for, is none. Nobody else is called anything
/// else, and no peer comes or goes.
pub proof fn law_a_name_is_one_peers(
    directory: Directory,
    peer_id: u64,
    agent: Seq<char>,
    source: UserAgentSource,
    other: u64,
)
    requires
        directory.valid(),
    ensures
        ({
            let after = directory.named(peer_id, agent, source);
            let known = place(directory.peers, peer_id) is Some;
            let free = agent_of(directory, peer_id) is None || source == UserAgentSource::Version
                && agent_source(directory, peer_id) != Some(UserAgentSource::Version);
            let takes = known && free && agent.len() > 0 && (directory.agents.contains(agent)
                || directory.agents.len() < 65536);
            &&& after.valid()
            &&& place(after.peers, other) == place(directory.peers, other)
            &&& after.agents.len() <= directory.agents.len() + 1
            &&& other == peer_id && takes ==> agent_of(after, other) == Some(agent)
                && agent_source(after, other) == Some(source)
            &&& other != peer_id || !takes ==> agent_of(after, other) == agent_of(directory, other)
                && agent_source(after, other) == agent_source(directory, other)
        }),
{
    let after = directory.named(peer_id, agent, source);
    lemma_agent_from(directory.agents, agent, 0);
    if agent_from(directory.agents, agent, 0) is None {
        lemma_agent_absent(directory.agents, agent, 0);
    }
    if place(directory.peers, peer_id) is Some {
        lemma_named(directory, peer_id, agent, source);
        let at = place(directory.peers, peer_id)->0;
        assert(stands_at(directory.peers, peer_id, at));
        assert(directory.peers[at].index == at);
        if let Some(i) = place(directory.peers, other) {
            assert(stands_at(directory.peers, other, i));
            assert(stands_at(after.peers, other, i));
            lemma_place(after, other, i);
            assert(directory.peers[i].index == i);
        } else {
            assert forall|i: int| !stands_at(after.peers, other, i) by {
                assert(!stands_at(directory.peers, other, i));
            }
        }
    }
}

} // verus!
