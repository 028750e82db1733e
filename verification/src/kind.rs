//! The event taxonomy: every event is classified as category → group → kind.
//!
//! Kinds are interned to `u16` ids because they are not a closed set — an
//! `ebpf.message` event is classified by its `meta.command`, which is free text
//! for unrecognised P2P commands.

use crate::proto::{
    ConnEvent, Ebpf, EbpfEvent, Event, Ipc, IpcEvent, Log, LogEvent, MempoolChange, P2p, P2pEvent,
    PeerObserverEvent, Rpc, RpcEvent, Validated,
};
use crate::text;
use vstd::prelude::*;
use vstd::string::*;

verus! {

/// Top-level classification, matching the `Event` oneof arms.
#[derive(Debug, Clone, Copy, PartialEq, Eq, Hash, PartialOrd, Ord, Structural)]
pub enum Category {
    Ebpf,
    Rpc,
    P2p,
    Log,
    Ipc,
}

impl Category {
    pub open spec fn text(self) -> Seq<char> {
        match self {
            Category::Ebpf => "ebpf"@,
            Category::Rpc => "rpc"@,
            Category::P2p => "p2p"@,
            Category::Log => "log"@,
            Category::Ipc => "ipc"@,
        }
    }

    pub fn as_str(self) -> (name: &'static str)
        ensures
            name@ == self.text(),
    {
        match self {
            Category::Ebpf => "ebpf",
            Category::Rpc => "rpc",
            Category::P2p => "p2p",
            Category::Log => "log",
            Category::Ipc => "ipc",
        }
    }
}

/// Second level. The eBPF category splits four ways; the others have a single
/// group so that the timeline always has one series per group.
#[derive(Debug, Clone, Copy, PartialEq, Eq, Hash, PartialOrd, Ord, Structural)]
pub enum Group {
    EbpfMessage,
    EbpfConnection,
    EbpfMempool,
    EbpfValidation,
    Rpc,
    P2p,
    Log,
    Ipc,
}

/// Every group, in display order. This is also the timeline's series order.
pub const GROUPS: [Group; 8] = [
    Group::EbpfMessage,
    Group::EbpfConnection,
    Group::EbpfMempool,
    Group::EbpfValidation,
    Group::Rpc,
    Group::P2p,
    Group::Log,
    Group::Ipc,
];

impl Group {
    pub open spec fn text(self) -> Seq<char> {
        match self {
            Group::EbpfMessage => "message"@,
            Group::EbpfConnection => "connection"@,
            Group::EbpfMempool => "mempool"@,
            Group::EbpfValidation => "validation"@,
            Group::Rpc => "rpc"@,
            Group::P2p => "p2p"@,
            Group::Log => "log"@,
            Group::Ipc => "ipc"@,
        }
    }

    pub fn as_str(self) -> (name: &'static str)
        ensures
            name@ == self.text(),
    {
        match self {
            Group::EbpfMessage => "message",
            Group::EbpfConnection => "connection",
            Group::EbpfMempool => "mempool",
            Group::EbpfValidation => "validation",
            Group::Rpc => "rpc",
            Group::P2p => "p2p",
            Group::Log => "log",
            Group::Ipc => "ipc",
        }
    }

    pub open spec fn of(self) -> Category {
        match self {
            Group::EbpfMessage
            | Group::EbpfConnection
            | Group::EbpfMempool
            | Group::EbpfValidation => Category::Ebpf,
            Group::Rpc => Category::Rpc,
            Group::P2p => Category::P2p,
            Group::Log => Category::Log,
            Group::Ipc => Category::Ipc,
        }
    }

    pub fn category(self) -> (category: Category)
        ensures
            category == self.of(),
    {
        match self {
            Group::EbpfMessage
            | Group::EbpfConnection
            | Group::EbpfMempool
            | Group::EbpfValidation => Category::Ebpf,
            Group::Rpc => Category::Rpc,
            Group::P2p => Category::P2p,
            Group::Log => Category::Log,
            Group::Ipc => Category::Ipc,
        }
    }

    /// Index into [`GROUPS`].
    pub fn index(self) -> (index: usize)
        ensures
            index < 8,
            GROUPS@[index as int] == self,
    {
        match self {
            Group::EbpfMessage => 0,
            Group::EbpfConnection => 1,
            Group::EbpfMempool => 2,
            Group::EbpfValidation => 3,
            Group::Rpc => 4,
            Group::P2p => 5,
            Group::Log => 6,
            Group::Ipc => 7,
        }
    }
}

/// No group is listed twice.
pub proof fn law_groups_are_distinct(i: int, j: int)
    requires
        0 <= i < 8,
        0 <= j < 8,
        GROUPS@[i] == GROUPS@[j],
    ensures
        i == j,
{
}

/// A distinct event kind, e.g. `ebpf` / `message` / `inv`.
#[derive(Debug, PartialEq, Eq)]
pub struct KindInfo {
    pub group: Group,
    pub name: String,
}

/// A kind: its group and its name.
pub struct EventKind {
    pub group: Group,
    pub name: Seq<char>,
}

impl View for KindInfo {
    type V = EventKind;

    open spec fn view(&self) -> EventKind {
        EventKind { group: self.group, name: self.name@ }
    }
}

impl EventKind {
    /// What the event table calls it.
    pub open spec fn label(self) -> Seq<char> {
        match self.group {
            Group::EbpfMessage => self.name,
            group => group.text() + " "@ + self.name,
        }
    }
}

impl KindInfo {
    pub fn category(&self) -> (category: Category)
        ensures
            category == self@.group.of(),
    {
        self.group.category()
    }

    /// Display label for the event table.
    ///
    /// P2P message kinds are wire command names (`inv`, `version`) and stand on
    /// their own. Everywhere else the bare kind is ambiguous — `rejected`,
    /// `closed` and `block_connected` mean nothing without knowing whether they
    /// came from the mempool, a connection or validation — so the group is
    /// carried along.
    pub fn label(&self) -> (label: String)
        ensures
            label@ == self@.label(),
    {
        match self.group {
            Group::EbpfMessage => self.name.clone(),
            group => {
                let mut label = group.as_str().to_owned();
                label.append(" ");
                label.append(self.name.as_str());
                label
            },
        }
    }
}

/// Where a kind stands among some, from `from` on.
pub open spec fn find_from(kinds: Seq<EventKind>, kind: EventKind, from: int) -> Option<int>
    decreases kinds.len() - from,
{
    if from >= kinds.len() {
        None
    } else if kinds[from] == kind {
        Some(from)
    } else {
        find_from(kinds, kind, from + 1)
    }
}

/// Where a kind stands among some.
pub open spec fn find(kinds: Seq<EventKind>, kind: EventKind) -> Option<int> {
    find_from(kinds, kind, 0)
}

/// How many kinds ids can tell apart.
pub const MAX_KINDS: usize = 65536;

/// The kinds once `kind` has an id.
pub open spec fn interned(kinds: Seq<EventKind>, kind: EventKind) -> Seq<EventKind> {
    if find(kinds, kind) is Some {
        kinds
    } else {
        kinds.push(kind)
    }
}

/// The id of `kind` once it has one.
pub open spec fn id_of(kinds: Seq<EventKind>, kind: EventKind) -> u16 {
    match find(kinds, kind) {
        Some(id) => id as u16,
        None => kinds.len() as u16,
    }
}

/// Whether `kind` has an id, or can be given one.
pub open spec fn internable(kinds: Seq<EventKind>, kind: EventKind) -> bool {
    find(kinds, kind) is Some || kinds.len() < MAX_KINDS
}

/// Interns kinds to dense `u16` ids so events can be stored compactly.
pub struct KindTable {
    kinds: Vec<KindInfo>,
}

impl View for KindTable {
    type V = Seq<EventKind>;

    closed spec fn view(&self) -> Seq<EventKind> {
        Seq::new(self.kinds@.len(), |i: int| self.kinds@[i]@)
    }
}

/// Whether some kinds are all different, and few enough to have ids.
pub open spec fn distinct(kinds: Seq<EventKind>) -> bool {
    &&& kinds.len() <= MAX_KINDS
    &&& forall|i: int, j: int|
        #![trigger kinds[i], kinds[j]]
        0 <= i < j < kinds.len() ==> kinds[i] != kinds[j]
}

impl KindTable {
    pub closed spec fn wf(&self) -> bool {
        distinct(self@)
    }

    pub fn new() -> (table: Self)
        ensures
            table.wf(),
            table@ == Seq::<EventKind>::empty(),
    {
        let table = KindTable { kinds: Vec::new() };
        assert(table@ =~= Seq::empty());
        table
    }

    /// Where a kind stands, if it is known.
    fn position(&self, group: Group, name: &str) -> (position: Option<usize>)
        ensures
            match position {
                Some(position) => find(self@, EventKind { group, name: name@ }) == Some(position as int)
                    && position < self@.len(),
                None => find(self@, EventKind { group, name: name@ }) is None,
            },
    {
        let ghost kind = EventKind { group, name: name@ };
        let mut i: usize = 0;
        while i < self.kinds.len()
            invariant
                i <= self.kinds@.len(),
                self@.len() == self.kinds@.len(),
                find(self@, kind) == find_from(self@, kind, i as int),
                kind == (EventKind { group, name: name@ }),
            decreases self.kinds@.len() - i,
        {
            assert(self@[i as int] == self.kinds@[i as int]@);
            if self.kinds[i].group == group && text::same(self.kinds[i].name.as_str(), name) {
                return Some(i);
            }
            i = i + 1;
        }
        None
    }

    /// Whether a kind has an id or can be given one. An archive with more kinds
    /// than ids is not an archive.
    pub fn has_room_for(&self, group: Group, name: &str) -> (room: bool)
        ensures
            room == internable(self@, EventKind { group, name: name@ }),
    {
        self.kinds.len() < MAX_KINDS || self.position(group, name).is_some()
    }

    /// Id for a kind, interning it on first sight.
    pub fn intern(&mut self, group: Group, name: &str) -> (id: u16)
        requires
            old(self).wf(),
            internable(old(self)@, EventKind { group, name: name@ }),
        ensures
            final(self).wf(),
            final(self)@ == interned(old(self)@, EventKind { group, name: name@ }),
            id == id_of(old(self)@, EventKind { group, name: name@ }),
            id < final(self)@.len(),
            final(self)@[id as int] == (EventKind { group, name: name@ }),
    {
        let ghost kind = EventKind { group, name: name@ };
        proof {
            lemma_find(self@, kind, 0);
        }
        match self.position(group, name) {
            Some(position) => position as u16,
            None => {
                let id: u16 = self.kinds.len() as u16;
                self.kinds.push(KindInfo { group, name: name.to_owned() });
                assert(self@ =~= old(self)@.push(kind));
                id
            },
        }
    }

    pub fn get(&self, id: u16) -> (info: Option<&KindInfo>)
        ensures
            match info {
                Some(info) => id < self@.len() && info@ == self@[id as int],
                None => id >= self@.len(),
            },
    {
        if (id as usize) < self.kinds.len() {
            Some(&self.kinds[id as usize])
        } else {
            None
        }
    }

    pub fn len(&self) -> (len: usize)
        ensures
            len == self@.len(),
    {
        self.kinds.len()
    }

    pub fn is_empty(&self) -> (empty: bool)
        ensures
            empty == (self@.len() == 0),
    {
        self.kinds.len() == 0
    }

    /// Every kind, by id.
    pub fn iter(&self) -> (kinds: &Vec<KindInfo>)
        ensures
            kinds@.len() == self@.len(),
            forall|i: int| 0 <= i < kinds@.len() ==> (#[trigger] kinds@[i])@ == self@[i],
    {
        &self.kinds
    }
}

proof fn lemma_find(kinds: Seq<EventKind>, kind: EventKind, from: int)
    requires
        0 <= from,
    ensures
        match find_from(kinds, kind, from) {
            Some(at) => from <= at < kinds.len() && kinds[at] == kind,
            None => forall|i: int| from <= i < kinds.len() ==> kinds[i] != kind,
        },
    decreases kinds.len() - from,
{
    if from < kinds.len() {
        lemma_find(kinds, kind, from + 1);
    }
}

/// Interning is stable and dense: a kind keeps the id it has, a new one gets the
/// next, and every id reads back as the kind it was given for.
pub proof fn law_interning_is_stable_and_dense(kinds: Seq<EventKind>, kind: EventKind, other: EventKind)
    requires
        distinct(kinds),
        internable(kinds, kind),
    ensures
        distinct(interned(kinds, kind)),
        interned(interned(kinds, kind), kind) == interned(kinds, kind),
        id_of(interned(kinds, kind), kind) == id_of(kinds, kind),
        interned(kinds, kind)[id_of(kinds, kind) as int] == kind,
        id_of(kinds, kind) < interned(kinds, kind).len() <= kinds.len() + 1,
        find(kinds, other) is Some ==> id_of(interned(kinds, kind), other) == id_of(kinds, other),
        find(kinds, other) is Some && other != kind ==> id_of(kinds, other) != id_of(kinds, kind),
{
    let after = interned(kinds, kind);
    lemma_find(kinds, kind, 0);
    lemma_find(after, kind, 0);
    lemma_find(kinds, other, 0);
    lemma_find(after, other, 0);
    if find(kinds, other) is Some {
        let at = find(kinds, other)->0;
        assert(after[at] == other);
        assert(find(after, other) is Some);
        assert(find(after, other)->0 == at);
    }
    if find(kinds, kind) is None {
        assert(after[kinds.len() as int] == kind);
        assert(find(after, kind) is Some);
        assert(find(after, kind)->0 == kinds.len());
    }
}

/// Shown when an arm is present but this build does not recognise it, which
/// happens when an archive was written by a newer peer-observer.
pub const UNKNOWN: &'static str = "(unknown)";

/// What an event is classified as. eBPF messages go by the wire command rather
/// than the oneof arm, so that unrecognised commands stay distinguishable
/// instead of collapsing into one "unknown" bucket.
pub open spec fn classified(event: Event) -> EventKind {
    match event.peer_observer_event {
        Some(PeerObserverEvent::EbpfExtractor(ebpf)) => classified_ebpf(ebpf),
        Some(PeerObserverEvent::RpcExtractor(rpc)) => EventKind {
            group: Group::Rpc,
            name: rpc_name(rpc),
        },
        Some(PeerObserverEvent::P2pExtractor(p2p)) => EventKind {
            group: Group::P2p,
            name: p2p_name(p2p),
        },
        Some(PeerObserverEvent::LogExtractor(log)) => EventKind {
            group: Group::Log,
            name: log_name(log),
        },
        Some(PeerObserverEvent::IpcExtractor(ipc)) => EventKind {
            group: Group::Ipc,
            name: ipc_name(ipc),
        },
        // An event with no oneof arm set: either an older writer or a newer
        // schema than this build knows about.
        None => EventKind { group: Group::EbpfMessage, name: UNKNOWN@ },
    }
}

pub open spec fn classified_ebpf(ebpf: Ebpf) -> EventKind {
    match ebpf.ebpf_event {
        Some(EbpfEvent::Message(m)) => EventKind { group: Group::EbpfMessage, name: m.meta.command@ },
        Some(EbpfEvent::Connection(c)) => EventKind {
            group: Group::EbpfConnection,
            name: match c.event {
                Some(ConnEvent::Closed(_)) => "closed"@,
                Some(ConnEvent::InboundEvicted(_)) => "inbound_evicted"@,
                Some(ConnEvent::Inbound(_)) => "inbound"@,
                Some(ConnEvent::Outbound(_)) => "outbound"@,
                Some(ConnEvent::Misbehaving(_)) => "misbehaving"@,
                None => UNKNOWN@,
            },
        },
        Some(EbpfEvent::Mempool(m)) => EventKind {
            group: Group::EbpfMempool,
            name: match m.event {
                Some(MempoolChange::Added) => "added"@,
                Some(MempoolChange::Replaced) => "replaced"@,
                Some(MempoolChange::Removed) => "removed"@,
                Some(MempoolChange::Rejected) => "rejected"@,
                None => UNKNOWN@,
            },
        },
        Some(EbpfEvent::Validation(v)) => EventKind {
            group: Group::EbpfValidation,
            name: match v.event {
                Some(Validated::BlockConnected) => "block_connected"@,
                None => UNKNOWN@,
            },
        },
        None => EventKind { group: Group::EbpfMessage, name: UNKNOWN@ },
    }
}

pub open spec fn rpc_name(rpc: Rpc) -> Seq<char> {
    match rpc.rpc_event {
        Some(RpcEvent::PeerInfos(_)) => "peer_infos"@,
        Some(RpcEvent::MempoolInfo) => "mempool_info"@,
        Some(RpcEvent::Uptime) => "uptime"@,
        Some(RpcEvent::NetTotals) => "net_totals"@,
        Some(RpcEvent::MemoryInfo) => "memory_info"@,
        Some(RpcEvent::AddrmanInfo) => "addrman_info"@,
        Some(RpcEvent::ChainTxStats) => "chain_tx_stats"@,
        Some(RpcEvent::NetworkInfo) => "network_info"@,
        Some(RpcEvent::BlockchainInfo) => "blockchain_info"@,
        Some(RpcEvent::OrphanTxs) => "orphan_txs"@,
        Some(RpcEvent::Addrman) => "addrman"@,
        Some(RpcEvent::EstimateSmartFee) => "estimate_smart_fee"@,
        None => UNKNOWN@,
    }
}

pub open spec fn p2p_name(p2p: P2p) -> Seq<char> {
    match p2p.p2p_event {
        Some(P2pEvent::PingDuration) => "ping_duration"@,
        Some(P2pEvent::AddressAnnouncement) => "address_announcement"@,
        Some(P2pEvent::InventoryAnnouncement) => "inventory_announcement"@,
        Some(P2pEvent::FeefilterAnnouncement) => "feefilter_announcement"@,
        None => UNKNOWN@,
    }
}

pub open spec fn log_name(log: Log) -> Seq<char> {
    match log.log_event {
        Some(LogEvent::UnknownLogMessage) => "unknown_log_message"@,
        Some(LogEvent::BlockConnectedLog) => "block_connected"@,
        Some(LogEvent::BlockCheckedLog) => "block_checked"@,
        Some(LogEvent::SawNewHeaderLog) => "saw_new_header"@,
        Some(LogEvent::CompactBlockReconstructedLog) => "compact_block_reconstructed"@,
        None => UNKNOWN@,
    }
}

pub open spec fn ipc_name(ipc: Ipc) -> Seq<char> {
    match ipc.ipc_event {
        Some(IpcEvent::BlockTip) => "block_tip"@,
        None => UNKNOWN@,
    }
}

/// Classify an event. The returned name is borrowed from the event where
/// possible so that the common path allocates nothing.
pub fn classify(event: &Event) -> (kind: (Group, &str))
    ensures
        (EventKind { group: kind.0, name: kind.1@ }) == classified(*event),
{
    match &event.peer_observer_event {
        Some(PeerObserverEvent::EbpfExtractor(ebpf)) => classify_ebpf(ebpf),
        Some(PeerObserverEvent::RpcExtractor(rpc)) => (Group::Rpc, classify_rpc(rpc)),
        Some(PeerObserverEvent::P2pExtractor(p2p)) => (Group::P2p, classify_p2p(p2p)),
        Some(PeerObserverEvent::LogExtractor(log)) => (Group::Log, classify_log(log)),
        Some(PeerObserverEvent::IpcExtractor(ipc)) => (Group::Ipc, classify_ipc(ipc)),
        None => (Group::EbpfMessage, UNKNOWN),
    }
}

fn classify_ebpf(ebpf: &Ebpf) -> (kind: (Group, &str))
    ensures
        (EventKind { group: kind.0, name: kind.1@ }) == classified_ebpf(*ebpf),
{
    match &ebpf.ebpf_event {
        Some(EbpfEvent::Message(m)) => (Group::EbpfMessage, m.meta.command.as_str()),
        Some(EbpfEvent::Connection(c)) => {
            let name = match &c.event {
                Some(ConnEvent::Closed(_)) => "closed",
                Some(ConnEvent::InboundEvicted(_)) => "inbound_evicted",
                Some(ConnEvent::Inbound(_)) => "inbound",
                Some(ConnEvent::Outbound(_)) => "outbound",
                Some(ConnEvent::Misbehaving(_)) => "misbehaving",
                None => UNKNOWN,
            };
            (Group::EbpfConnection, name)
        },
        Some(EbpfEvent::Mempool(m)) => {
            let name = match &m.event {
                Some(MempoolChange::Added) => "added",
                Some(MempoolChange::Replaced) => "replaced",
                Some(MempoolChange::Removed) => "removed",
                Some(MempoolChange::Rejected) => "rejected",
                None => UNKNOWN,
            };
            (Group::EbpfMempool, name)
        },
        Some(EbpfEvent::Validation(v)) => {
            let name = match &v.event {
                Some(Validated::BlockConnected) => "block_connected",
                None => UNKNOWN,
            };
            (Group::EbpfValidation, name)
        },
        None => (Group::EbpfMessage, UNKNOWN),
    }
}

fn classify_rpc(rpc: &Rpc) -> (name: &'static str)
    ensures
        name@ == rpc_name(*rpc),
{
    match &rpc.rpc_event {
        Some(RpcEvent::PeerInfos(_)) => "peer_infos",
        Some(RpcEvent::MempoolInfo) => "mempool_info",
        Some(RpcEvent::Uptime) => "uptime",
        Some(RpcEvent::NetTotals) => "net_totals",
        Some(RpcEvent::MemoryInfo) => "memory_info",
        Some(RpcEvent::AddrmanInfo) => "addrman_info",
        Some(RpcEvent::ChainTxStats) => "chain_tx_stats",
        Some(RpcEvent::NetworkInfo) => "network_info",
        Some(RpcEvent::BlockchainInfo) => "blockchain_info",
        Some(RpcEvent::OrphanTxs) => "orphan_txs",
        Some(RpcEvent::Addrman) => "addrman",
        Some(RpcEvent::EstimateSmartFee) => "estimate_smart_fee",
        None => UNKNOWN,
    }
}

fn classify_p2p(p2p: &P2p) -> (name: &'static str)
    ensures
        name@ == p2p_name(*p2p),
{
    match &p2p.p2p_event {
        Some(P2pEvent::PingDuration) => "ping_duration",
        Some(P2pEvent::AddressAnnouncement) => "address_announcement",
        Some(P2pEvent::InventoryAnnouncement) => "inventory_announcement",
        Some(P2pEvent::FeefilterAnnouncement) => "feefilter_announcement",
        None => UNKNOWN,
    }
}

fn classify_log(log: &Log) -> (name: &'static str)
    ensures
        name@ == log_name(*log),
{
    match &log.log_event {
        Some(LogEvent::UnknownLogMessage) => "unknown_log_message",
        Some(LogEvent::BlockConnectedLog) => "block_connected",
        Some(LogEvent::BlockCheckedLog) => "block_checked",
        Some(LogEvent::SawNewHeaderLog) => "saw_new_header",
        Some(LogEvent::CompactBlockReconstructedLog) => "compact_block_reconstructed",
        None => UNKNOWN,
    }
}

fn classify_ipc(ipc: &Ipc) -> (name: &'static str)
    ensures
        name@ == ipc_name(*ipc),
{
    match &ipc.ipc_event {
        Some(IpcEvent::BlockTip) => "block_tip",
        None => UNKNOWN,
    }
}

/// No kind has two ids, and there are no more of them than ids can tell apart.
pub proof fn law_a_kind_has_one_id(table: KindTable)
    requires
        table.wf(),
    ensures
        distinct(table@),
{
}

/// An event of a connection is called by its kind, and a message by its command; nothing
/// else is in those groups.
pub proof fn law_events_are_called_by_what_they_are(event: Event)
    ensures
        match event.peer_observer_event {
            Some(PeerObserverEvent::EbpfExtractor(ebpf)) => match ebpf.ebpf_event {
                Some(EbpfEvent::Message(message)) => classified(event) == (EventKind {
                    group: Group::EbpfMessage,
                    name: message.meta.command@,
                }),
                Some(EbpfEvent::Connection(connection)) => {
                    &&& classified(event).group == Group::EbpfConnection
                    &&& connection.event matches Some(inner) ==> classified(event).name
                        == crate::peers::reported(inner).kind.text()
                },
                _ => classified(event).group != Group::EbpfMessage && classified(event).group
                    != Group::EbpfConnection || ebpf.ebpf_event is None,
            },
            Some(_) => classified(event).group != Group::EbpfMessage && classified(event).group
                != Group::EbpfConnection,
            None => true,
        },
{
}

} // verus!
