//! Who told us about each transaction first, and what the losers cost us.
//!
//! This is the one question an archive can answer that a running node cannot be
//! asked after the fact: for every transaction, which peer announced it first,
//! how far behind everyone else was, and how many bytes went on receiving
//! something we already had. Aggregated per peer it is a relay scorecard --
//! "first to tell me" against "duplicate bytes contributed" -- which is the
//! evidence for whether a peer is earning its connection slot.
//!
//! # What is tracked, and what that costs
//!
//! One entry per distinct inventory hash, holding when it was first seen and
//! how often since. Announcements arrive by the thousand, so an entry is kept
//! deliberately small: a 64-bit prefix of the hash as the key, a millisecond
//! offset from the start of the archive rather than an absolute timestamp, and
//! saturating 16-bit counters. Past [`MAX_ITEMS`] no new hash is tracked, which
//! bounds the table; already-tracked hashes keep counting, so the numbers stay
//! meaningful for the part of the archive that was covered. [`Relay::capped`]
//! reports when that happened, and the views say so.
//!
//! # What it cannot see
//!
//! Bitcoin Core announces a transaction by wtxid to peers that negotiated
//! BIP339 and by txid to those that did not, and for a segwit transaction those
//! are different hashes. A race between one peer of each kind therefore looks
//! like two separate races. Nearly all modern peers use wtxid relay, so this is
//! rare in practice, but it is a real limit rather than a rounding error. A
//! delivered transaction carries both hashes, so a delivery is matched against
//! an announcement under either.

use crate::latency;
use crate::latency::{Distribution, Latencies};
use crate::proto::{InventoryItem, Item, MessageEvent, Msg};
use std::collections::HashMap;
use vstd::prelude::*;

verus! {

broadcast use vstd::std_specs::hash::group_hash_axioms;

/// How many distinct inventory hashes to track.
///
/// At roughly twenty bytes an entry this caps the table near forty megabytes,
/// which is affordable next to the event store's own budget. A busy node
/// announces a few hundred thousand distinct transactions an hour, so this
/// covers many hours before it bites.
pub const MAX_ITEMS: usize = 2_000_000;

/// One number out of another, for a share or a rate to be worked out from.
#[derive(Debug, Clone, Copy, PartialEq, Eq)]
pub struct Ratio {
    pub part: u64,
    pub whole: u64,
}

/// What is known about one announced or delivered inventory item.
#[derive(Debug, Clone, Copy)]
pub struct Item64 {
    /// When it was first announced, or delivered if nobody has announced it yet, in
    /// milliseconds after the first event in the archive.
    pub first_ms: u32,
    pub announcements: u16,
    pub deliveries: u16,
}

/// One more, held at the largest value a `u16` can carry.
pub open spec fn one_more(n: u16) -> u16 {
    if n == u16::MAX {
        n
    } else {
        (n + 1) as u16
    }
}

/// One peer's relay record.
#[derive(Debug, Clone, Copy)]
pub struct PeerRelay {
    /// Times this peer was the first to announce something.
    pub first: u64,
    /// Times it announced something already announced by someone else.
    pub late: u64,
    /// How far behind it was on those, in milliseconds.
    pub lag: Latencies,
    /// Transactions delivered by this peer.
    pub delivered: u64,
    /// Deliveries of a transaction already delivered by someone.
    pub duplicate: u64,
    /// Bytes spent on those duplicates.
    pub duplicate_bytes: u64,
    /// From the first announcement by anyone to this peer's delivery.
    ///
    /// Not "how fast this peer answered": the clock starts when the network
    /// first told us, which is usually a different peer. It measures how long
    /// the node went between hearing about a transaction and holding it.
    pub heard_to_held: Latencies,
}

/// A relay record. Counts are held at the largest a `u64` can carry.
#[verifier::ext_equal]
pub struct Scorecard {
    pub first: u64,
    pub late: u64,
    pub lag: Distribution,
    pub delivered: u64,
    pub duplicate: u64,
    pub duplicate_bytes: u64,
    pub heard_to_held: Distribution,
}

impl View for PeerRelay {
    type V = Scorecard;

    open spec fn view(&self) -> Scorecard {
        Scorecard {
            first: self.first,
            late: self.late,
            lag: self.lag@,
            delivered: self.delivered,
            duplicate: self.duplicate,
            duplicate_bytes: self.duplicate_bytes,
            heard_to_held: self.heard_to_held@,
        }
    }
}

impl Scorecard {
    pub open spec fn blank() -> Scorecard {
        Scorecard {
            first: 0,
            late: 0,
            lag: Distribution::empty(),
            delivered: 0,
            duplicate: 0,
            duplicate_bytes: 0,
            heard_to_held: Distribution::empty(),
        }
    }

    /// Whether the peer never relayed anything.
    pub open spec fn is_blank(self) -> bool {
        self.first == 0 && self.late == 0 && self.delivered == 0
    }

    pub open spec fn won(self) -> Scorecard {
        Scorecard { first: latency::capped(self.first as int, 1), ..self }
    }

    pub open spec fn lost(self, lag: u64) -> Scorecard {
        Scorecard {
            late: latency::capped(self.late as int, 1),
            lag: self.lag.with(lag),
            ..self
        }
    }

    pub open spec fn has_delivered(self) -> Scorecard {
        Scorecard { delivered: latency::capped(self.delivered as int, 1), ..self }
    }

    pub open spec fn wasted(self, size: u64) -> Scorecard {
        Scorecard {
            duplicate: latency::capped(self.duplicate as int, 1),
            duplicate_bytes: latency::capped(self.duplicate_bytes as int, size as int),
            ..self
        }
    }

    pub open spec fn waited(self, ms: u64) -> Scorecard {
        Scorecard { heard_to_held: self.heard_to_held.with(ms), ..self }
    }

    /// Both records folded into one.
    pub open spec fn merged(self, other: Scorecard) -> Scorecard {
        Scorecard {
            first: latency::capped(self.first as int, other.first as int),
            late: latency::capped(self.late as int, other.late as int),
            lag: self.lag.merged(other.lag),
            delivered: latency::capped(self.delivered as int, other.delivered as int),
            duplicate: latency::capped(self.duplicate as int, other.duplicate as int),
            duplicate_bytes: latency::capped(
                self.duplicate_bytes as int,
                other.duplicate_bytes as int,
            ),
            heard_to_held: self.heard_to_held.merged(other.heard_to_held),
        }
    }
}

impl Default for PeerRelay {
    fn default() -> (record: Self)
        ensures
            record@ == Scorecard::blank(),
    {
        PeerRelay {
            first: 0,
            late: 0,
            lag: Latencies::default(),
            delivered: 0,
            duplicate: 0,
            duplicate_bytes: 0,
            heard_to_held: Latencies::default(),
        }
    }
}

impl PeerRelay {
    /// Share of this peer's announcements that beat everyone else.
    pub fn win_ratio(&self) -> (ratio: Option<Ratio>)
        ensures
            ratio == (if self.first == 0 && self.late == 0 {
                None
            } else {
                Some(
                    Ratio {
                        part: self.first,
                        whole: latency::capped(self.first as int, self.late as int),
                    },
                )
            }),
    {
        let total: u64 = self.first.saturating_add(self.late);
        if total > 0 {
            Some(Ratio { part: self.first, whole: total })
        } else {
            None
        }
    }

    pub fn is_empty(&self) -> (empty: bool)
        ensures
            empty == self@.is_blank(),
    {
        self.first == 0 && self.late == 0 && self.delivered == 0
    }

    fn merge(&mut self, other: &PeerRelay)
        ensures
            final(self)@ == old(self)@.merged(other@),
    {
        self.first = self.first.saturating_add(other.first);
        self.late = self.late.saturating_add(other.late);
        self.lag.merge(&other.lag);
        self.delivered = self.delivered.saturating_add(other.delivered);
        self.duplicate = self.duplicate.saturating_add(other.duplicate);
        self.duplicate_bytes = self.duplicate_bytes.saturating_add(other.duplicate_bytes);
        self.heard_to_held.merge(&other.heard_to_held);
    }
}

/// Transaction relay across the whole archive.
#[verifier::ext_equal]
pub struct Race {
    /// What is known of each item, by the front of its hash.
    pub items: Map<u64, Item64>,
    /// When the first event that mattered here came.
    pub origin: Option<u64>,
    /// The peers that relayed, in the order they first did, and their records.
    pub peers: Seq<(u64, Scorecard)>,
    pub announcements: u64,
    pub deliveries: u64,
    pub duplicate_deliveries: u64,
    pub duplicate_bytes: u64,
    pub late_announcements: u64,
    pub untracked: u64,
    pub lag: Distribution,
    pub heard_to_held: Distribution,
}

/// Whether a peer's record stands at `at`.
pub open spec fn recorded_at(peers: Seq<(u64, Scorecard)>, id: u64, at: int) -> bool {
    0 <= at < peers.len() && peers[at].0 == id
}

/// Where a peer's record stands, if it has one.
pub open spec fn record_place(peers: Seq<(u64, Scorecard)>, id: u64) -> Option<int> {
    if exists|at: int| recorded_at(peers, id, at) {
        Some(choose|at: int| recorded_at(peers, id, at))
    } else {
        None
    }
}

/// A peer's record, blank if it has none.
pub open spec fn record_of(peers: Seq<(u64, Scorecard)>, id: u64) -> Scorecard {
    match record_place(peers, id) {
        Some(at) => peers[at].1,
        None => Scorecard::blank(),
    }
}

/// The records with one peer's replaced, or added at the end.
pub open spec fn peers_with(
    peers: Seq<(u64, Scorecard)>,
    id: u64,
    record: Scorecard,
) -> Seq<(u64, Scorecard)> {
    match record_place(peers, id) {
        Some(at) => peers.update(at, (id, record)),
        None => peers.push((id, record)),
    }
}

/// The 64-bit key for a hash: its first eight bytes, least significant first.
/// `None` if there is no hash.
pub open spec fn prefix_of(hash: Seq<u8>) -> Option<u64> {
    if hash.len() < 8 {
        None
    } else {
        Some(
            (hash[0] + 0x100 * hash[1] + 0x1_0000 * hash[2] + 0x100_0000 * hash[3] + 0x1_0000_0000
                * hash[4] + 0x100_0000_0000 * hash[5] + 0x1_0000_0000_0000 * hash[6]
                + 0x100_0000_0000_0000 * hash[7]) as u64,
        )
    }
}

/// The hash in an inventory item, if the item refers to a transaction.
///
/// Blocks and compact blocks are announced through the same message but are a
/// different question -- there are a few hundred a day, not a few hundred a
/// second -- so they are left out rather than diluting the transaction figures.
pub open spec fn transaction_key(item: InventoryItem) -> Option<u64> {
    match item.item {
        Some(Item::Transaction(hash)) => prefix_of(hash@),
        Some(Item::Wtx(hash)) => prefix_of(hash@),
        Some(Item::WitnessTransaction(hash)) => prefix_of(hash@),
        _ => None,
    }
}

/// `now - then` where both are offsets, or nothing if it is not past it.
pub open spec fn past(now: u32, then: u32) -> u64 {
    if now >= then {
        (now - then) as u64
    } else {
        0
    }
}

impl Race {
    pub open spec fn empty() -> Race {
        Race {
            items: Map::empty(),
            origin: None,
            peers: Seq::empty(),
            announcements: 0,
            deliveries: 0,
            duplicate_deliveries: 0,
            duplicate_bytes: 0,
            late_announcements: 0,
            untracked: 0,
            lag: Distribution::empty(),
            heard_to_held: Distribution::empty(),
        }
    }

    /// The race with its clock started, if it was not.
    pub open spec fn started(self, timestamp: u64) -> Race {
        Race {
            origin: match self.origin {
                Some(origin) => Some(origin),
                None => Some(timestamp),
            },
            ..self
        }
    }

    /// Milliseconds since the clock started, held at the ~49 days a `u32` holds.
    pub open spec fn offset(self, timestamp: u64) -> u32 {
        match self.origin {
            Some(origin) => if timestamp < origin {
                0
            } else if timestamp - origin > u32::MAX {
                u32::MAX
            } else {
                (timestamp - origin) as u32
            },
            None => 0,
        }
    }

    /// The race with one peer's record replaced.
    pub open spec fn with_record(self, id: u64, record: Scorecard) -> Race {
        Race { peers: peers_with(self.peers, id, record), ..self }
    }

    /// Whether someone has announced the item with this key. One that was only ever
    /// delivered has not been announced.
    pub open spec fn heard_of(self, key: u64) -> bool {
        self.items.dom().contains(key) && self.items[key].announcements > 0
    }

    /// The race once a peer has announced the item with this key.
    pub open spec fn announced(self, now: u32, id: u64, key: u64) -> Race {
        let counted = Race { announcements: latency::capped(self.announcements as int, 1), ..self };
        let record = record_of(self.peers, id);
        if self.heard_of(key) {
            let entry = self.items[key];
            let lag = past(now, entry.first_ms);
            Race {
                items: self.items.insert(
                    key,
                    Item64 { announcements: one_more(entry.announcements), ..entry },
                ),
                late_announcements: latency::capped(self.late_announcements as int, 1),
                lag: self.lag.with(lag),
                ..counted.with_record(id, record.lost(lag))
            }
        } else if !self.items.dom().contains(key) && self.items.dom().len() >= MAX_ITEMS {
            Race { untracked: latency::capped(self.untracked as int, 1), ..counted }
        } else {
            Race {
                items: self.items.insert(
                    key,
                    Item64 {
                        first_ms: now,
                        announcements: 1,
                        deliveries: if self.items.dom().contains(key) {
                            self.items[key].deliveries
                        } else {
                            0
                        },
                    },
                ),
                ..counted.with_record(id, record.won())
            }
        }
    }

    /// The race once a peer has announced the first `upto` of some items.
    pub open spec fn announced_all(
        self,
        now: u32,
        id: u64,
        items: Seq<InventoryItem>,
        upto: int,
    ) -> Race
        decreases upto,
    {
        if upto <= 0 {
            self
        } else {
            let before = self.announced_all(now, id, items, upto - 1);
            match transaction_key(items[upto - 1]) {
                Some(key) => before.announced(now, id, key),
                None => before,
            }
        }
    }

    /// The key a delivery goes by: the announcement may have come under either
    /// hash, depending on whether that peer negotiated BIP339.
    pub open spec fn delivery_key(self, by_txid: u64, by_wtxid: Option<u64>) -> u64 {
        if self.items.dom().contains(by_txid) {
            by_txid
        } else {
            match by_wtxid {
                Some(key) if self.items.dom().contains(key) => key,
                _ => by_txid,
            }
        }
    }

    /// The race once a peer has delivered a transaction. An archive written with
    /// `--low-data` has no hashes to work with.
    pub open spec fn delivered(
        self,
        timestamp: u64,
        id: u64,
        txid: Seq<u8>,
        wtxid: Seq<u8>,
        size: u64,
    ) -> Race {
        match prefix_of(txid) {
            None => self,
            Some(by_txid) => {
                let key = self.delivery_key(by_txid, prefix_of(wtxid));
                let counted = Race {
                    deliveries: latency::capped(self.deliveries as int, 1),
                    ..self
                }.started(timestamp);
                let now = counted.offset(timestamp);
                let record = record_of(self.peers, id).has_delivered();
                if self.items.dom().contains(key) {
                    let entry = self.items[key];
                    let waited = past(now, entry.first_ms);
                    let known = Race {
                        items: self.items.insert(
                            key,
                            Item64 { deliveries: one_more(entry.deliveries), ..entry },
                        ),
                        ..counted
                    };
                    if entry.deliveries > 0 {
                        Race {
                            duplicate_deliveries: latency::capped(
                                self.duplicate_deliveries as int,
                                1,
                            ),
                            duplicate_bytes: latency::capped(
                                self.duplicate_bytes as int,
                                size as int,
                            ),
                            ..known.with_record(id, record.wasted(size))
                        }
                    } else if entry.announcements > 0 {
                        // Only the first delivery measures the wait; a duplicate
                        // arriving later says nothing about how long the node
                        // went without it.
                        Race {
                            heard_to_held: self.heard_to_held.with(waited),
                            ..known.with_record(id, record.waited(waited))
                        }
                    } else {
                        known.with_record(id, record)
                    }
                } else if self.items.dom().len() >= MAX_ITEMS {
                    Race { untracked: latency::capped(self.untracked as int, 1), ..counted }
                } else {
                    Race {
                        items: self.items.insert(
                            key,
                            Item64 { first_ms: now, announcements: 0, deliveries: 1 },
                        ),
                        ..counted.with_record(id, record)
                    }
                }
            },
        }
    }

    /// The race once a P2P message has been recorded. Only inbound messages say
    /// anything about relay: outbound ones are this node announcing, not a peer
    /// racing.
    pub open spec fn with_message(self, timestamp: u64, event: MessageEvent) -> Race {
        if !event.meta.inbound {
            self
        } else {
            match event.msg {
                Some(Msg::Inv(inv)) => {
                    let started = self.started(timestamp);
                    started.announced_all(
                        started.offset(timestamp),
                        event.meta.peer_id,
                        inv.items@,
                        inv.items@.len() as int,
                    )
                },
                Some(Msg::Tx(tx)) => self.delivered(
                    timestamp,
                    event.meta.peer_id,
                    tx.tx.txid@,
                    tx.tx.wtxid@,
                    event.meta.size,
                ),
                _ => self,
            }
        }
    }

    /// The first `upto` peers' records, folded into one.
    pub open spec fn total_of(self, upto: int) -> Scorecard
        decreases upto,
    {
        if upto <= 0 {
            Scorecard::blank()
        } else {
            self.total_of(upto - 1).merged(self.peers[upto - 1].1)
        }
    }

    /// What recording messages can build: the item table stays under its cap, and
    /// no peer has two records.
    pub open spec fn valid(self) -> bool {
        &&& self.items.dom().finite()
        &&& self.items.dom().len() <= MAX_ITEMS
        &&& forall|i: int, j: int|
            #![trigger self.peers[i], self.peers[j]]
            0 <= i < j < self.peers.len() ==> self.peers[i].0 != self.peers[j].0
    }

    /// Whether no counter for the whole archive is full.
    pub open spec fn counted(self) -> bool {
        &&& self.announcements < u64::MAX
        &&& self.deliveries < u64::MAX
        &&& self.duplicate_bytes < u64::MAX
        &&& self.untracked < u64::MAX
    }

    /// Whether the peers' records add up to the figures for the whole archive, unless
    /// one of those is full.
    pub open spec fn reckoned(self) -> bool {
        self.counted() ==> balanced(self)
    }
}

proof fn lemma_record_place(race: Race, id: u64, at: int)
    requires
        race.valid(),
        recorded_at(race.peers, id, at),
    ensures
        record_place(race.peers, id) == Some(at),
{
    let found = choose|found: int| recorded_at(race.peers, id, found);
    assert(recorded_at(race.peers, id, found));
}

/// What the relay of a whole archive comes to.
#[derive(Clone, Copy)]
pub struct Figures {
    pub announcements: u64,
    pub deliveries: u64,
    pub duplicate_deliveries: u64,
    pub duplicate_bytes: u64,
    pub late_announcements: u64,
    /// Announcements and deliveries of items there was no room for.
    pub untracked: u64,
    pub lag: Latencies,
    pub heard_to_held: Latencies,
}

/// Transaction relay across the whole archive.
pub struct Relay {
    items: HashMap<u64, Item64>,
    /// Anchor for the millisecond offsets stored per item.
    origin_ms: Option<u64>,
    peers: Vec<(u64, PeerRelay)>,
    /// Peer id -> where its record stands.
    places: HashMap<u64, usize>,
    pub announcements: u64,
    pub deliveries: u64,
    pub duplicate_deliveries: u64,
    pub duplicate_bytes: u64,
    /// Announcements of an item someone had already announced.
    pub late_announcements: u64,
    /// Hashes not tracked because [`MAX_ITEMS`] was reached.
    pub untracked: u64,
    /// Every peer's lag, in one distribution.
    pub lag: Latencies,
    /// Every peer's hearing-to-holding time, in one distribution.
    pub heard_to_held: Latencies,
}

impl View for Relay {
    type V = Race;

    closed spec fn view(&self) -> Race {
        Race {
            items: self.items@,
            origin: self.origin_ms,
            peers: Seq::new(self.peers@.len(), |i: int| (self.peers@[i].0, self.peers@[i].1@)),
            announcements: self.announcements,
            deliveries: self.deliveries,
            duplicate_deliveries: self.duplicate_deliveries,
            duplicate_bytes: self.duplicate_bytes,
            late_announcements: self.late_announcements,
            untracked: self.untracked,
            lag: self.lag@,
            heard_to_held: self.heard_to_held@,
        }
    }
}

impl Relay {
    pub closed spec fn wf(&self) -> bool {
        &&& self.indexed()
        &&& self@.reckoned()
    }

    /// The race is a valid one, and the index finds every record and nothing else.
    closed spec fn indexed(&self) -> bool {
        &&& self@.valid()
        &&& forall|id: u64| #[trigger]
            self.places@.dom().contains(id) ==> recorded_at(
                self@.peers,
                id,
                self.places@[id] as int,
            )
        &&& forall|i: int|
            0 <= i < self.peers@.len() ==> self.places@.dom().contains((#[trigger] self.peers@[i]).0)
    }

    pub fn new() -> (relay: Self)
        ensures
            relay.wf(),
            relay@ == Race::empty(),
    {
        let relay = Relay {
            items: HashMap::new(),
            origin_ms: None,
            peers: Vec::new(),
            places: HashMap::new(),
            announcements: 0,
            deliveries: 0,
            duplicate_deliveries: 0,
            duplicate_bytes: 0,
            late_announcements: 0,
            untracked: 0,
            lag: Latencies::default(),
            heard_to_held: Latencies::default(),
        };
        proof {
            assert(relay@ =~= Race::empty());
            lemma_empty_balanced();
        }
        relay
    }

    /// The figures for the whole archive.
    pub fn figures(&self) -> (figures: Figures)
        ensures
            figures.announcements == self@.announcements,
            figures.deliveries == self@.deliveries,
            figures.duplicate_deliveries == self@.duplicate_deliveries,
            figures.duplicate_bytes == self@.duplicate_bytes,
            figures.late_announcements == self@.late_announcements,
            figures.untracked == self@.untracked,
            figures.lag@ == self@.lag,
            figures.heard_to_held@ == self@.heard_to_held,
    {
        Figures {
            announcements: self.announcements,
            deliveries: self.deliveries,
            duplicate_deliveries: self.duplicate_deliveries,
            duplicate_bytes: self.duplicate_bytes,
            late_announcements: self.late_announcements,
            untracked: self.untracked,
            lag: self.lag,
            heard_to_held: self.heard_to_held,
        }
    }

    /// Distinct inventory hashes seen.
    pub fn items(&self) -> (items: usize)
        ensures
            items == self@.items.dom().len(),
    {
        self.items.len()
    }

    /// Whether tracking stopped short of the whole archive.
    pub fn capped(&self) -> (capped: bool)
        ensures
            capped == (self@.untracked > 0),
    {
        self.untracked > 0
    }

    /// Where a peer's record stands.
    fn position(&self, peer_id: u64) -> (at: Option<usize>)
        requires
            self.indexed(),
        ensures
            match at {
                Some(at) => record_place(self@.peers, peer_id) == Some(at as int) && recorded_at(
                    self@.peers,
                    peer_id,
                    at as int,
                ),
                None => record_place(self@.peers, peer_id) is None,
            },
    {
        match self.places.get(&peer_id) {
            Some(at) => {
                proof {
                    lemma_record_place(self@, peer_id, *at as int);
                }
                Some(*at)
            },
            None => {
                assert forall|at: int| !recorded_at(self@.peers, peer_id, at) by {
                    if recorded_at(self@.peers, peer_id, at) {
                        assert(self.peers@[at].0 == peer_id);
                    }
                }
                None
            },
        }
    }

    pub fn peer(&self, peer_id: u64) -> (record: Option<&PeerRelay>)
        requires
            self.wf(),
        ensures
            match record {
                Some(record) => record_place(self@.peers, peer_id) matches Some(at) && record@
                    == self@.peers[at].1,
                None => record_place(self@.peers, peer_id) is None,
            },
    {
        match self.position(peer_id) {
            Some(at) => Some(&self.peers[at].1),
            None => None,
        }
    }

    /// Every peer's record, in the order they first relayed something.
    pub fn peers(&self) -> (peers: &Vec<(u64, PeerRelay)>)
        ensures
            peers@.len() == self@.peers.len(),
            forall|i: int|
                0 <= i < peers@.len() ==> ((#[trigger] peers@[i]).0, peers@[i].1@)
                    == self@.peers[i],
    {
        &self.peers
    }

    /// Every peer's record folded into one. It agrees with the figures for the whole
    /// archive.
    pub fn totals(&self) -> (total: PeerRelay)
        requires
            self.wf(),
        ensures
            total@ == self@.total_of(self@.peers.len() as int),
            self@.counted() ==> tallies(self@, total@),
    {
        proof {
            if self@.counted() {
                law_the_folded_record_agrees_with_the_archive(self@);
            }
        }
        let mut total = PeerRelay::default();
        let mut i: usize = 0;
        while i < self.peers.len()
            invariant
                i <= self.peers@.len(),
                self@.peers.len() == self.peers@.len(),
                total@ == self@.total_of(i as int),
            decreases self.peers@.len() - i,
        {
            assert(self@.peers[i as int].1 == self.peers@[i as int].1@);
            total.merge(&self.peers[i].1);
            i = i + 1;
        }
        total
    }

    /// How many times a transaction was received for each time it was needed.
    ///
    /// One means every delivery was useful; two means half the transaction
    /// bytes coming in were bytes already held.
    pub fn duplicate_factor(&self) -> (factor: Option<Ratio>)
        ensures
            factor == (if self@.deliveries > self@.duplicate_deliveries {
                Some(
                    Ratio {
                        part: self@.deliveries,
                        whole: (self@.deliveries - self@.duplicate_deliveries) as u64,
                    },
                )
            } else {
                None
            }),
    {
        if self.deliveries > self.duplicate_deliveries {
            Some(Ratio { part: self.deliveries, whole: self.deliveries - self.duplicate_deliveries })
        } else {
            None
        }
    }

    /// Record one P2P message. Only inbound messages say anything about relay:
    /// outbound ones are this node announcing, not a peer racing.
    pub fn record(&mut self, timestamp: u64, event: &MessageEvent)
        requires
            old(self).wf(),
        ensures
            final(self).wf(),
            final(self)@ == old(self)@.with_message(timestamp, *event),
    {
        proof {
            law_records_stay_reckoned(self@, timestamp, *event);
        }
        if !event.meta.inbound {
            return ;
        }
        match &event.msg {
            Some(Msg::Inv(inv)) => self.announce(timestamp, event.meta.peer_id, &inv.items),
            Some(Msg::Tx(tx)) => self.deliver(
                timestamp,
                event.meta.peer_id,
                tx.tx.txid.as_slice(),
                tx.tx.wtxid.as_slice(),
                event.meta.size,
            ),
            _ => {},
        }
    }

    /// Milliseconds since the archive's first event, saturating at the ~49 days
    /// a `u32` holds. An archive longer than that keeps working; items past the
    /// edge simply all look equally old.
    fn offset(&mut self, timestamp: u64) -> (offset: u32)
        requires
            old(self).indexed(),
        ensures
            final(self).indexed(),
            final(self)@ == old(self)@.started(timestamp),
            offset == final(self)@.offset(timestamp),
    {
        let origin: u64 = match self.origin_ms {
            Some(origin) => origin,
            None => timestamp,
        };
        self.origin_ms = Some(origin);
        assert(self@ =~= old(self)@.started(timestamp));
        let elapsed: u64 = timestamp.saturating_sub(origin);
        if elapsed > u32::MAX as u64 {
            u32::MAX
        } else {
            elapsed as u32
        }
    }

    /// Put a peer's record in its place.
    fn set_record(&mut self, peer_id: u64, record: PeerRelay)
        requires
            old(self).indexed(),
        ensures
            final(self).indexed(),
            final(self)@ == old(self)@.with_record(peer_id, record@),
    {
        let ghost was = *self;
        match self.position(peer_id) {
            Some(at) => {
                self.peers[at] = (peer_id, record);
                proof {
                    assert(self@.peers =~= was@.peers.update(at as int, (peer_id, record@)));
                    assert(self@ =~= was@.with_record(peer_id, record@));
                    assert forall|id: u64| #[trigger] self.places@.dom().contains(
                        id,
                    ) implies recorded_at(self@.peers, id, self.places@[id] as int) by {
                        assert(recorded_at(was@.peers, id, was.places@[id] as int));
                    }
                    assert forall|i: int| 0 <= i < self.peers@.len() implies self.places@.dom().contains(
                        (#[trigger] self.peers@[i]).0) by {
                        assert(was.places@.dom().contains(was.peers@[i].0));
                    }
                    assert forall|i: int, j: int|
                        #![trigger self@.peers[i], self@.peers[j]]
                        0 <= i < j < self@.peers.len() implies self@.peers[i].0
                        != self@.peers[j].0 by {
                        assert(was@.peers[i].0 != was@.peers[j].0);
                    }
                }
            },
            None => {
                let at: usize = self.peers.len();
                self.peers.push((peer_id, record));
                self.places.insert(peer_id, at);
                proof {
                    assert(self@.peers =~= was@.peers.push((peer_id, record@)));
                    assert(self@ =~= was@.with_record(peer_id, record@));
                    assert forall|i: int| 0 <= i < at implies was@.peers[i].0 != peer_id by {
                        assert(!recorded_at(was@.peers, peer_id, i));
                    }
                    assert forall|id: u64| #[trigger] self.places@.dom().contains(
                        id,
                    ) implies recorded_at(self@.peers, id, self.places@[id] as int) by {
                        if id != peer_id {
                            assert(recorded_at(was@.peers, id, was.places@[id] as int));
                        }
                    }
                    assert forall|i: int| 0 <= i < self.peers@.len() implies self.places@.dom().contains(
                        (#[trigger] self.peers@[i]).0) by {
                        if i < at {
                            assert(was.places@.dom().contains(was.peers@[i].0));
                        }
                    }
                }
            },
        }
    }

    /// A peer's record, blank if it has none.
    fn record_for(&self, peer_id: u64) -> (record: PeerRelay)
        requires
            self.indexed(),
        ensures
            record@ == record_of(self@.peers, peer_id),
    {
        match self.position(peer_id) {
            Some(at) => self.peers[at].1,
            None => PeerRelay::default(),
        }
    }

    /// Put what is known of an item in its place.
    fn set_item(&mut self, key: u64, item: Item64)
        requires
            old(self).indexed(),
            old(self)@.items.dom().contains(key) || old(self)@.items.dom().len() < MAX_ITEMS,
        ensures
            final(self).indexed(),
            final(self)@ == (Race { items: old(self)@.items.insert(key, item), ..old(self)@ }),
    {
        self.items.insert(key, item);
        assert(self@ =~= (Race { items: old(self)@.items.insert(key, item), ..old(self)@ }));
    }

    fn announce(&mut self, timestamp: u64, peer_id: u64, items: &Vec<InventoryItem>)
        requires
            old(self).indexed(),
        ensures
            final(self).indexed(),
            final(self)@ == ({
                let started = old(self)@.started(timestamp);
                started.announced_all(
                    started.offset(timestamp),
                    peer_id,
                    items@,
                    items@.len() as int,
                )
            }),
    {
        let now: u32 = self.offset(timestamp);
        let ghost started = self@;
        let mut i: usize = 0;
        while i < items.len()
            invariant
                i <= items@.len(),
                self.indexed(),
                self@ == started.announced_all(now, peer_id, items@, i as int),
            decreases items@.len() - i,
        {
            if let Some(key) = transaction_hash(&items[i]) {
                self.announce_one(now, peer_id, key);
            }
            i = i + 1;
        }
    }

    fn announce_one(&mut self, now: u32, peer_id: u64, key: u64)
        requires
            old(self).indexed(),
        ensures
            final(self).indexed(),
            final(self)@ == old(self)@.announced(now, peer_id, key),
    {
        let ghost was = self@;
        let mut record = self.record_for(peer_id);
        let known: Option<Item64> = match self.items.get(&key) {
            Some(entry) => Some(*entry),
            None => None,
        };
        self.announcements = self.announcements.saturating_add(1);
        match known {
            Some(entry) if entry.announcements > 0 => {
                let lag: u64 = now.saturating_sub(entry.first_ms) as u64;
                record.late = record.late.saturating_add(1);
                record.lag.add(lag);
                self.set_item(
                    key,
                    Item64 { announcements: entry.announcements.saturating_add(1), ..entry },
                );
                self.set_record(peer_id, record);
                self.late_announcements = self.late_announcements.saturating_add(1);
                self.lag.add(lag);
            },
            Some(entry) => {
                record.first = record.first.saturating_add(1);
                self.set_item(
                    key,
                    Item64 { first_ms: now, announcements: 1, deliveries: entry.deliveries },
                );
                self.set_record(peer_id, record);
            },
            None => {
                if self.items.len() >= MAX_ITEMS {
                    self.untracked = self.untracked.saturating_add(1);
                } else {
                    record.first = record.first.saturating_add(1);
                    self.set_item(key, Item64 { first_ms: now, announcements: 1, deliveries: 0 });
                    self.set_record(peer_id, record);
                }
            },
        }
        assert(self@ =~= was.announced(now, peer_id, key));
    }

    fn deliver(&mut self, timestamp: u64, peer_id: u64, txid: &[u8], wtxid: &[u8], size: u64)
        requires
            old(self).indexed(),
        ensures
            final(self).indexed(),
            final(self)@ == old(self)@.delivered(timestamp, peer_id, txid@, wtxid@, size),
    {
        let ghost was = self@;
        let by_txid: u64 = match prefix(txid) {
            Some(key) => key,
            None => {
                return ;
            },
        };
        let key: u64 = if self.items.contains_key(&by_txid) {
            by_txid
        } else {
            match prefix(wtxid) {
                Some(key) => if self.items.contains_key(&key) {
                    key
                } else {
                    by_txid
                },
                None => by_txid,
            }
        };
        self.deliveries = self.deliveries.saturating_add(1);
        let now: u32 = self.offset(timestamp);
        let mut record = self.record_for(peer_id);
        record.delivered = record.delivered.saturating_add(1);
        let known: Option<Item64> = match self.items.get(&key) {
            Some(entry) => Some(*entry),
            None => None,
        };
        match known {
            Some(entry) => {
                let waited: u64 = now.saturating_sub(entry.first_ms) as u64;
                self.set_item(
                    key,
                    Item64 { deliveries: entry.deliveries.saturating_add(1), ..entry },
                );
                if entry.deliveries > 0 {
                    self.duplicate_deliveries = self.duplicate_deliveries.saturating_add(1);
                    self.duplicate_bytes = self.duplicate_bytes.saturating_add(size);
                    record.duplicate = record.duplicate.saturating_add(1);
                    record.duplicate_bytes = record.duplicate_bytes.saturating_add(size);
                } else if entry.announcements > 0 {
                    self.heard_to_held.add(waited);
                    record.heard_to_held.add(waited);
                }
                self.set_record(peer_id, record);
            },
            None => {
                if self.items.len() >= MAX_ITEMS {
                    self.untracked = self.untracked.saturating_add(1);
                } else {
                    self.set_item(key, Item64 { first_ms: now, announcements: 0, deliveries: 1 });
                    self.set_record(peer_id, record);
                }
            },
        }
        assert(self@ =~= was.delivered(timestamp, peer_id, txid@, wtxid@, size));
    }
}

/// The 64-bit key for a hash, or `None` if there is no hash.
fn prefix(hash: &[u8]) -> (key: Option<u64>)
    ensures
        key == prefix_of(hash@),
{
    if hash.len() < 8 {
        return None;
    }
    Some(
        hash[0] as u64 + 0x100 * hash[1] as u64 + 0x1_0000 * hash[2] as u64 + 0x100_0000
            * hash[3] as u64 + 0x1_0000_0000 * hash[4] as u64 + 0x100_0000_0000 * hash[5] as u64
            + 0x1_0000_0000_0000 * hash[6] as u64 + 0x100_0000_0000_0000 * hash[7] as u64,
    )
}

/// The key of an inventory item, if the item refers to a transaction.
fn transaction_hash(item: &InventoryItem) -> (key: Option<u64>)
    ensures
        key == transaction_key(*item),
{
    match &item.item {
        Some(Item::Transaction(hash)) => prefix(hash.as_slice()),
        Some(Item::Wtx(hash)) => prefix(hash.as_slice()),
        Some(Item::WitnessTransaction(hash)) => prefix(hash.as_slice()),
        _ => None,
    }
}

/// A relay table only ever holds a valid race: the items stay under their cap, no peer
/// has two records, and the records add up to the figures for the whole archive.
pub proof fn law_a_relay_table_is_valid(relay: Relay)
    requires
        relay.wf(),
    ensures
        relay@.valid(),
        relay@.reckoned(),
{
}

/// Outbound messages say nothing about who told us first.
pub proof fn law_outbound_messages_say_nothing(race: Race, timestamp: u64, event: MessageEvent)
    requires
        !event.meta.inbound,
    ensures
        race.with_message(timestamp, event) == race,
{
}

/// Something about each of the first `upto` records, added up.
pub open spec fn sum_of(
    peers: Seq<(u64, Scorecard)>,
    of: spec_fn(Scorecard) -> u64,
    upto: int,
) -> int
    decreases upto,
{
    if upto <= 0 {
        0
    } else {
        sum_of(peers, of, upto - 1) + of(peers[upto - 1].1)
    }
}

/// Something about every peer, added up.
pub open spec fn across(race: Race, of: spec_fn(Scorecard) -> u64) -> int {
    sum_of(race.peers, of, race.peers.len() as int)
}

/// A distribution out of each of the first `upto` records, folded into one.
pub open spec fn folded(
    peers: Seq<(u64, Scorecard)>,
    of: spec_fn(Scorecard) -> Distribution,
    upto: int,
) -> Distribution
    decreases upto,
{
    if upto <= 0 {
        Distribution::empty()
    } else {
        folded(peers, of, upto - 1).merged(of(peers[upto - 1].1))
    }
}

/// A distribution out of every peer's record, folded into one.
pub open spec fn gathered(race: Race, of: spec_fn(Scorecard) -> Distribution) -> Distribution {
    folded(race.peers, of, race.peers.len() as int)
}

/// Whether the distributions in the peers' records are ones that can be, and fold into
/// those for the whole archive.
pub open spec fn agreed(race: Race) -> bool {
    &&& forall|i: int|
        0 <= i < race.peers.len() ==> (#[trigger] race.peers[i]).1.lag.valid()
            && race.peers[i].1.heard_to_held.valid()
    &&& gathered(race, |s: Scorecard| s.lag) == race.lag
    &&& gathered(race, |s: Scorecard| s.heard_to_held) == race.heard_to_held
}

/// Whether the peers' records add up to the figures for the whole archive.
pub open spec fn balanced(race: Race) -> bool {
    &&& agreed(race)
    &&& race.untracked == 0 ==> {
        &&& across(race, |s: Scorecard| s.first) + across(race, |s: Scorecard| s.late)
            == race.announcements
        &&& across(race, |s: Scorecard| s.delivered) == race.deliveries
    }
    &&& across(race, |s: Scorecard| s.late) == race.late_announcements
    &&& across(race, |s: Scorecard| s.lag.count) == race.late_announcements
    &&& race.lag.count == race.late_announcements
    &&& across(race, |s: Scorecard| s.duplicate) == race.duplicate_deliveries
    &&& across(race, |s: Scorecard| s.duplicate_bytes) == race.duplicate_bytes
    &&& across(race, |s: Scorecard| s.heard_to_held.count) == race.heard_to_held.count
    &&& race.announcements + race.deliveries == across(race, |s: Scorecard| s.first) + across(
        race,
        |s: Scorecard| s.late,
    ) + across(race, |s: Scorecard| s.delivered) + race.untracked
    &&& across(race, |s: Scorecard| s.first) + across(race, |s: Scorecard| s.late)
        <= race.announcements
    &&& across(race, |s: Scorecard| s.delivered) <= race.deliveries
    &&& race.duplicate_deliveries <= race.deliveries
    &&& race.heard_to_held.count <= race.deliveries
}

proof fn lemma_sum_bounds(
    peers: Seq<(u64, Scorecard)>,
    of: spec_fn(Scorecard) -> u64,
    upto: int,
    at: int,
)
    requires
        upto <= peers.len(),
    ensures
        sum_of(peers, of, upto) >= 0,
        0 <= at < upto ==> of(peers[at].1) <= sum_of(peers, of, upto),
    decreases upto,
{
    if upto > 0 {
        lemma_sum_bounds(peers, of, upto - 1, at);
    }
}

proof fn lemma_sum_same(
    a: Seq<(u64, Scorecard)>,
    b: Seq<(u64, Scorecard)>,
    of: spec_fn(Scorecard) -> u64,
    upto: int,
)
    requires
        upto <= a.len(),
        upto <= b.len(),
        forall|i: int| 0 <= i < upto ==> #[trigger] a[i] == b[i],
    ensures
        sum_of(a, of, upto) == sum_of(b, of, upto),
    decreases upto,
{
    if upto > 0 {
        lemma_sum_same(a, b, of, upto - 1);
    }
}

proof fn lemma_sum_update(
    peers: Seq<(u64, Scorecard)>,
    of: spec_fn(Scorecard) -> u64,
    at: int,
    changed: (u64, Scorecard),
    upto: int,
)
    requires
        0 <= at < upto <= peers.len(),
    ensures
        sum_of(peers.update(at, changed), of, upto) == sum_of(peers, of, upto) - of(peers[at].1)
            + of(changed.1),
    decreases upto,
{
    if upto - 1 == at {
        lemma_sum_same(peers, peers.update(at, changed), of, upto - 1);
    } else {
        lemma_sum_update(peers, of, at, changed, upto - 1);
    }
}

/// Replacing one record changes a sum by the difference.
proof fn lemma_across(race: Race, id: u64, record: Scorecard, of: spec_fn(Scorecard) -> u64)
    requires
        race.valid(),
        of(Scorecard::blank()) == 0,
    ensures
        across(race.with_record(id, record), of) == across(race, of) - of(
            record_of(race.peers, id),
        ) + of(record),
        of(record_of(race.peers, id)) <= across(race, of),
        0 <= across(race, of),
{
    match record_place(race.peers, id) {
        Some(at) => {
            assert(recorded_at(race.peers, id, at));
            lemma_sum_bounds(race.peers, of, race.peers.len() as int, at);
            lemma_sum_update(race.peers, of, at, (id, record), race.peers.len() as int);
        },
        None => {
            lemma_sum_bounds(race.peers, of, race.peers.len() as int, -1);
            lemma_sum_same(
                race.peers,
                race.peers.push((id, record)),
                of,
                race.peers.len() as int,
            );
        },
    }
}

/// Replacing one record changes every sum by the difference.
proof fn lemma_books(race: Race, id: u64, record: Scorecard)
    requires
        race.valid(),
    ensures
        ({
            let after = race.with_record(id, record);
            let old_record = record_of(race.peers, id);
            let first = |s: Scorecard| s.first;
            let late = |s: Scorecard| s.late;
            let lag = |s: Scorecard| s.lag.count;
            let delivered = |s: Scorecard| s.delivered;
            let duplicate = |s: Scorecard| s.duplicate;
            let bytes = |s: Scorecard| s.duplicate_bytes;
            let held = |s: Scorecard| s.heard_to_held.count;
            &&& across(after, first) == across(race, first) - old_record.first + record.first
            &&& across(after, late) == across(race, late) - old_record.late + record.late
            &&& across(after, lag) == across(race, lag) - old_record.lag.count + record.lag.count
            &&& across(after, delivered) == across(race, delivered) - old_record.delivered
                + record.delivered
            &&& across(after, duplicate) == across(race, duplicate) - old_record.duplicate
                + record.duplicate
            &&& across(after, bytes) == across(race, bytes) - old_record.duplicate_bytes
                + record.duplicate_bytes
            &&& across(after, held) == across(race, held) - old_record.heard_to_held.count
                + record.heard_to_held.count
            &&& old_record.first <= across(race, first)
            &&& old_record.late <= across(race, late)
            &&& old_record.lag.count <= across(race, lag)
            &&& old_record.delivered <= across(race, delivered)
            &&& old_record.duplicate <= across(race, duplicate)
            &&& old_record.duplicate_bytes <= across(race, bytes)
            &&& old_record.heard_to_held.count <= across(race, held)
        }),
{
    lemma_across(race, id, record, |s: Scorecard| s.first);
    lemma_across(race, id, record, |s: Scorecard| s.late);
    lemma_across(race, id, record, |s: Scorecard| s.lag.count);
    lemma_across(race, id, record, |s: Scorecard| s.delivered);
    lemma_across(race, id, record, |s: Scorecard| s.duplicate);
    lemma_across(race, id, record, |s: Scorecard| s.duplicate_bytes);
    lemma_across(race, id, record, |s: Scorecard| s.heard_to_held.count);
}

proof fn lemma_folded_valid(
    peers: Seq<(u64, Scorecard)>,
    of: spec_fn(Scorecard) -> Distribution,
    counts: spec_fn(Scorecard) -> u64,
    upto: int,
)
    requires
        0 <= upto <= peers.len(),
        forall|i: int| 0 <= i < upto ==> of((#[trigger] peers[i]).1).valid(),
        forall|s: Scorecard| #[trigger] counts(s) == of(s).count,
    ensures
        folded(peers, of, upto).valid(),
        folded(peers, of, upto).count == latency::capped(sum_of(peers, counts, upto), 0),
        0 <= sum_of(peers, counts, upto),
    decreases upto,
{
    if upto > 0 {
        lemma_folded_valid(peers, of, counts, upto - 1);
        latency::law_distributions_stay_valid(
            folded(peers, of, upto - 1),
            of(peers[upto - 1].1),
            0,
        );
        assert(counts(peers[upto - 1].1) == of(peers[upto - 1].1).count);
    } else {
        latency::law_distributions_stay_valid(Distribution::empty(), Distribution::empty(), 0);
    }
}

proof fn lemma_folded_same(
    a: Seq<(u64, Scorecard)>,
    b: Seq<(u64, Scorecard)>,
    of: spec_fn(Scorecard) -> Distribution,
    upto: int,
)
    requires
        upto <= a.len(),
        upto <= b.len(),
        forall|i: int| 0 <= i < upto ==> of((#[trigger] a[i]).1) == of(b[i].1),
    ensures
        folded(a, of, upto) == folded(b, of, upto),
    decreases upto,
{
    if upto > 0 {
        lemma_folded_same(a, b, of, upto - 1);
        assert(of(a[upto - 1].1) == of(b[upto - 1].1));
    }
}

/// A sample in one record is a sample in what the records fold into.
proof fn lemma_folded_update(
    peers: Seq<(u64, Scorecard)>,
    of: spec_fn(Scorecard) -> Distribution,
    counts: spec_fn(Scorecard) -> u64,
    at: int,
    changed: (u64, Scorecard),
    ms: u64,
    upto: int,
)
    requires
        0 <= at < upto <= peers.len(),
        forall|i: int| 0 <= i < upto ==> of((#[trigger] peers[i]).1).valid(),
        forall|s: Scorecard| #[trigger] counts(s) == of(s).count,
        of(changed.1) == of(peers[at].1).with(ms),
        sum_of(peers, counts, upto) < u64::MAX,
    ensures
        folded(peers.update(at, changed), of, upto) == folded(peers, of, upto).with(ms),
    decreases upto,
{
    let front = folded(peers, of, upto - 1);
    let last = of(peers[upto - 1].1);
    lemma_folded_valid(peers, of, counts, upto - 1);
    assert(counts(peers[upto - 1].1) == last.count);
    if upto - 1 == at {
        lemma_folded_same(peers, peers.update(at, changed), of, upto - 1);
        latency::law_recording_commutes_with_merging(front, last, ms);
    } else {
        lemma_folded_update(peers, of, counts, at, changed, ms, upto - 1);
        latency::law_distributions_stay_valid(front, last, ms);
        latency::law_merging_preserves_the_totals(front.with(ms), last);
        latency::law_merging_preserves_the_totals(front, last);
        latency::law_recording_commutes_with_merging(last, front, ms);
    }
}

/// What the records fold into once one of them has a sample more, or none.
proof fn lemma_gathered(
    race: Race,
    id: u64,
    record: Scorecard,
    of: spec_fn(Scorecard) -> Distribution,
    counts: spec_fn(Scorecard) -> u64,
    sample: Option<u64>,
)
    requires
        race.valid(),
        of(Scorecard::blank()) == Distribution::empty(),
        forall|i: int| 0 <= i < race.peers.len() ==> of((#[trigger] race.peers[i]).1).valid(),
        forall|s: Scorecard| #[trigger] counts(s) == of(s).count,
        across(race, counts) < u64::MAX,
        of(record) == (match sample {
            Some(ms) => of(record_of(race.peers, id)).with(ms),
            None => of(record_of(race.peers, id)),
        }),
    ensures
        of(record).valid(),
        gathered(race.with_record(id, record), of) == (match sample {
            Some(ms) => gathered(race, of).with(ms),
            None => gathered(race, of),
        }),
{
    let n = race.peers.len() as int;
    let whole = gathered(race, of);
    let held = of(record_of(race.peers, id));
    lemma_folded_valid(race.peers, of, counts, n);
    latency::law_distributions_stay_valid(Distribution::empty(), Distribution::empty(), 0);
    match record_place(race.peers, id) {
        Some(at) => {
            assert(recorded_at(race.peers, id, at));
            assert(of(race.peers[at].1).valid());
            match sample {
                Some(ms) => {
                    latency::law_distributions_stay_valid(held, held, ms);
                    lemma_folded_update(race.peers, of, counts, at, (id, record), ms, n);
                },
                None => {
                    let after = race.peers.update(at, (id, record));
                    assert forall|i: int| 0 <= i < n implies of((#[trigger] race.peers[i]).1)
                        == of(after[i].1) by {}
                    lemma_folded_same(race.peers, after, of, n);
                },
            }
        },
        None => {
            let after = race.peers.push((id, record));
            assert forall|i: int| 0 <= i < n implies of((#[trigger] race.peers[i]).1) == of(
                after[i].1,
            ) by {}
            lemma_folded_same(race.peers, after, of, n);
            latency::law_merging_with_empty(whole);
            if let Some(ms) = sample {
                latency::law_distributions_stay_valid(held, held, ms);
                latency::law_recording_commutes_with_merging(whole, held, ms);
            }
        },
    }
}

/// Replacing one record by one with a sample more in its distributions, or none, keeps
/// them in agreement with those for the whole archive, if they change alike.
proof fn lemma_agreed(
    race: Race,
    after: Race,
    id: u64,
    record: Scorecard,
    lag: Option<u64>,
    waited: Option<u64>,
)
    requires
        race.valid(),
        agreed(race),
        across(race, |s: Scorecard| s.lag.count) < u64::MAX,
        across(race, |s: Scorecard| s.heard_to_held.count) < u64::MAX,
        record.lag == (match lag {
            Some(ms) => record_of(race.peers, id).lag.with(ms),
            None => record_of(race.peers, id).lag,
        }),
        record.heard_to_held == (match waited {
            Some(ms) => record_of(race.peers, id).heard_to_held.with(ms),
            None => record_of(race.peers, id).heard_to_held,
        }),
        after.peers == race.with_record(id, record).peers,
        after.lag == (match lag {
            Some(ms) => race.lag.with(ms),
            None => race.lag,
        }),
        after.heard_to_held == (match waited {
            Some(ms) => race.heard_to_held.with(ms),
            None => race.heard_to_held,
        }),
    ensures
        agreed(after),
{
    let (lags, lag_counts) = (|s: Scorecard| s.lag, |s: Scorecard| s.lag.count);
    let (waits, wait_counts) = (
        |s: Scorecard| s.heard_to_held,
        |s: Scorecard| s.heard_to_held.count,
    );
    assert forall|i: int| 0 <= i < race.peers.len() implies lags((#[trigger] race.peers[i]).1).valid()
        && waits(race.peers[i].1).valid() by {}
    lemma_gathered(race, id, record, lags, lag_counts, lag);
    lemma_gathered(race, id, record, waits, wait_counts, waited);
    let changed = race.with_record(id, record);
    assert(gathered(after, lags) == gathered(changed, lags));
    assert(gathered(after, waits) == gathered(changed, waits));
    assert forall|i: int| 0 <= i < after.peers.len() implies (#[trigger] after.peers[i]).1.lag.valid()
        && after.peers[i].1.heard_to_held.valid() by {
        match record_place(race.peers, id) {
            Some(at) => {
                assert(recorded_at(race.peers, id, at));
                if i != at {
                    assert(after.peers[i] == race.peers[i]);
                }
            },
            None => {
                if i < race.peers.len() {
                    assert(after.peers[i] == race.peers[i]);
                }
            },
        }
    }
}

proof fn lemma_valid_with_record(race: Race, id: u64, record: Scorecard)
    requires
        race.valid(),
    ensures
        race.with_record(id, record).valid(),
{
    let after = race.with_record(id, record);
    assert forall|i: int, j: int|
        #![trigger after.peers[i], after.peers[j]]
        0 <= i < j < after.peers.len() implies after.peers[i].0 != after.peers[j].0 by {
        match record_place(race.peers, id) {
            Some(at) => {
                assert(recorded_at(race.peers, id, at));
                assert(race.peers[i].0 != race.peers[j].0);
            },
            None => {
                assert(!recorded_at(race.peers, id, i));
                if j < race.peers.len() {
                    assert(race.peers[i].0 != race.peers[j].0);
                }
            },
        }
    }
}

proof fn lemma_announced(race: Race, now: u32, id: u64, key: u64)
    requires
        race.valid(),
        race.reckoned(),
    ensures
        race.announced(now, id, key).valid(),
        race.announced(now, id, key).reckoned(),
{
    let after = race.announced(now, id, key);
    let record = record_of(race.peers, id);
    let lag = past(now, race.items[key].first_ms);
    let changed = if race.heard_of(key) {
        record.lost(lag)
    } else {
        record.won()
    };
    lemma_books(race, id, changed);
    lemma_valid_with_record(race, id, changed);
    if race.items.dom().contains(key) || race.items.dom().len() < MAX_ITEMS {
        assert(after.peers == race.with_record(id, changed).peers);
        let sample = if race.heard_of(key) {
            Some(lag)
        } else {
            None
        };
        if after.counted() {
            lemma_agreed(race, after, id, changed, sample, None);
        }
    } else {
        assert(after.peers == race.peers);
        assert(after.counted() ==> agreed(after));
    }
    if race.items.dom().contains(key) {
        assert(race.items.dom().insert(key) =~= race.items.dom());
    }
}

proof fn lemma_announced_all(
    race: Race,
    now: u32,
    id: u64,
    items: Seq<InventoryItem>,
    upto: int,
)
    requires
        race.valid(),
        race.reckoned(),
        0 <= upto <= items.len(),
    ensures
        race.announced_all(now, id, items, upto).valid(),
        race.announced_all(now, id, items, upto).reckoned(),
    decreases upto,
{
    if upto > 0 {
        lemma_announced_all(race, now, id, items, upto - 1);
        let before = race.announced_all(now, id, items, upto - 1);
        match transaction_key(items[upto - 1]) {
            Some(key) => lemma_announced(before, now, id, key),
            None => {},
        }
    }
}

/// As long as no counter is full, what the peers' records say adds up to what the
/// archive's own figures say: every late announcement, every duplicate and every
/// wasted byte belongs to exactly one peer, and each late one has a lag. If every item
/// was tracked, so does every announcement, the first one or a late one, and every
/// delivery. The lags of all peers are the lags of the archive, and so are the times
/// from hearing to holding. Recording a message keeps it so.
pub proof fn law_records_stay_reckoned(race: Race, timestamp: u64, event: MessageEvent)
    requires
        race.valid(),
        race.reckoned(),
    ensures
        race.with_message(timestamp, event).valid(),
        race.with_message(timestamp, event).reckoned(),
{
    if event.meta.inbound {
        match event.msg {
            Some(Msg::Inv(inv)) => {
                let started = race.started(timestamp);
                assert(started.reckoned()) by {
                    assert(started.peers == race.peers);
                    if race.counted() {
                        assert(agreed(started));
                        assert(balanced(started));
                    }
                }
                lemma_announced_all(
                    started,
                    started.offset(timestamp),
                    event.meta.peer_id,
                    inv.items@,
                    inv.items@.len() as int,
                );
            },
            Some(Msg::Tx(tx)) => {
                lemma_delivered(
                    race,
                    timestamp,
                    event.meta.peer_id,
                    tx.tx.txid@,
                    tx.tx.wtxid@,
                    event.meta.size,
                );
            },
            _ => {},
        }
    }
}

proof fn lemma_empty_balanced()
    ensures
        balanced(Race::empty()),
{
    assert(agreed(Race::empty()));
}

/// The race once all of these messages have been recorded, in order, each at its time.
pub open spec fn raced(run: Seq<(u64, MessageEvent)>) -> Race
    decreases run.len(),
{
    if run.len() == 0 {
        Race::empty()
    } else {
        raced(run.drop_last()).with_message(run.last().0, run.last().1)
    }
}

/// However many messages are recorded, every peer's record folded into one agrees with
/// the figures for the whole archive, as long as none of those is full.
pub proof fn law_totals_are_the_sum_of_every_peer(run: Seq<(u64, MessageEvent)>)
    ensures
        raced(run).valid(),
        raced(run).counted() ==> tallies(
            raced(run),
            raced(run).total_of(raced(run).peers.len() as int),
        ),
{
    lemma_raced(run);
    if raced(run).counted() {
        law_the_folded_record_agrees_with_the_archive(raced(run));
    }
}

proof fn lemma_raced(run: Seq<(u64, MessageEvent)>)
    ensures
        raced(run).valid(),
        raced(run).reckoned(),
    decreases run.len(),
{
    if run.len() == 0 {
        lemma_empty_balanced();
    } else {
        lemma_raced(run.drop_last());
        law_records_stay_reckoned(raced(run.drop_last()), run.last().0, run.last().1);
    }
}

proof fn lemma_delivered(
    race: Race,
    timestamp: u64,
    id: u64,
    txid: Seq<u8>,
    wtxid: Seq<u8>,
    size: u64,
)
    requires
        race.valid(),
        race.reckoned(),
    ensures
        race.delivered(timestamp, id, txid, wtxid, size).valid(),
        race.delivered(timestamp, id, txid, wtxid, size).reckoned(),
{
    if let Some(by_txid) = prefix_of(txid) {
        let after = race.delivered(timestamp, id, txid, wtxid, size);
        let key = race.delivery_key(by_txid, prefix_of(wtxid));
        let now = race.started(timestamp).offset(timestamp);
        let entry = race.items[key];
        let record = record_of(race.peers, id).has_delivered();
        let changed = if !race.items.dom().contains(key) {
            record
        } else if entry.deliveries > 0 {
            record.wasted(size)
        } else if entry.announcements > 0 {
            record.waited(past(now, entry.first_ms))
        } else {
            record
        };
        lemma_books(race, id, changed);
        lemma_valid_with_record(race, id, changed);
        if race.items.dom().contains(key) || race.items.dom().len() < MAX_ITEMS {
            assert(after.peers == race.with_record(id, changed).peers);
            let waited = if race.items.dom().contains(key) && entry.deliveries == 0
                && entry.announcements > 0 {
                Some(past(now, entry.first_ms))
            } else {
                None
            };
            if after.counted() {
                lemma_agreed(race, after, id, changed, None, waited);
            }
        } else {
            assert(after.peers == race.peers);
            assert(after.counted() ==> agreed(after));
        }
        if race.items.dom().contains(key) {
            assert(race.items.dom().insert(key) =~= race.items.dom());
        }
    }
}

/// A folded record holds the sums over the records folded into it, held at what a
/// counter can carry.
proof fn lemma_folded(race: Race, upto: int)
    requires
        0 <= upto <= race.peers.len(),
    ensures
        ({
            let total = race.total_of(upto);
            let sum = |of: spec_fn(Scorecard) -> u64| sum_of(race.peers, of, upto);
            &&& total.first == latency::capped(sum(|s: Scorecard| s.first), 0)
            &&& total.late == latency::capped(sum(|s: Scorecard| s.late), 0)
            &&& total.lag.count == latency::capped(sum(|s: Scorecard| s.lag.count), 0)
            &&& total.delivered == latency::capped(sum(|s: Scorecard| s.delivered), 0)
            &&& total.duplicate == latency::capped(sum(|s: Scorecard| s.duplicate), 0)
            &&& total.duplicate_bytes == latency::capped(sum(|s: Scorecard| s.duplicate_bytes), 0)
            &&& total.heard_to_held.count == latency::capped(
                sum(|s: Scorecard| s.heard_to_held.count),
                0,
            )
            &&& total.lag == folded(race.peers, |s: Scorecard| s.lag, upto)
            &&& total.heard_to_held == folded(race.peers, |s: Scorecard| s.heard_to_held, upto)
        }),
    decreases upto,
{
    if upto > 0 {
        lemma_folded(race, upto - 1);
        lemma_sum_bounds(race.peers, |s: Scorecard| s.first, upto - 1, 0);
        lemma_sum_bounds(race.peers, |s: Scorecard| s.late, upto - 1, 0);
        lemma_sum_bounds(race.peers, |s: Scorecard| s.lag.count, upto - 1, 0);
        lemma_sum_bounds(race.peers, |s: Scorecard| s.delivered, upto - 1, 0);
        lemma_sum_bounds(race.peers, |s: Scorecard| s.duplicate, upto - 1, 0);
        lemma_sum_bounds(race.peers, |s: Scorecard| s.duplicate_bytes, upto - 1, 0);
        lemma_sum_bounds(race.peers, |s: Scorecard| s.heard_to_held.count, upto - 1, 0);
    }
}

/// Whether a record agrees with the figures for the whole archive.
pub open spec fn tallies(race: Race, total: Scorecard) -> bool {
    &&& total.late == race.late_announcements
    &&& total.lag == race.lag
    &&& total.lag.count == total.late
    &&& total.duplicate == race.duplicate_deliveries
    &&& total.duplicate_bytes == race.duplicate_bytes
    &&& total.heard_to_held == race.heard_to_held
    &&& race.untracked == 0 ==> {
        &&& total.first + total.late == race.announcements
        &&& total.delivered == race.deliveries
    }
}

/// Every peer's record folded into one agrees with the figures for the whole
/// archive, wherever the records add up to those.
pub proof fn law_the_folded_record_agrees_with_the_archive(race: Race)
    requires
        balanced(race),
    ensures
        tallies(race, race.total_of(race.peers.len() as int)),
{
    lemma_folded(race, race.peers.len() as int);
    lemma_sum_bounds(race.peers, |s: Scorecard| s.first, race.peers.len() as int, 0);
    lemma_sum_bounds(race.peers, |s: Scorecard| s.late, race.peers.len() as int, 0);
}

} // verus!
