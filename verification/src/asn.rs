//! Grouping peers by autonomous system.
//!
//! A peer list is the wrong unit for spotting who is actually talking to your
//! node: one operator shows up as thousands of addresses. Bitcoin Core has the
//! same problem and solves it with asmap — an IP-to-ASN trie it uses to bucket
//! peers for eviction and address management. This applies the same mapping, so
//! the viewer groups peers the way Core reasons about them.
//!
//! The asmap file is supplied by the caller (the page fetches it) and is
//! optional: without it, peers are simply not grouped.

use crate::analysis::Analysis;
use crate::latency;
use crate::order;
use crate::peers;
use crate::peers::{LifecycleKind, Peer, PeerStats};
use crate::relay::Ratio;
use crate::text;
use asmap::Asmap;
use std::collections::HashMap;
use vstd::prelude::*;
use vstd::string::*;

verus! {

broadcast use vstd::std_specs::hash::group_hash_axioms;

/// A validated asmap. It holds the bytes it was read from.
#[verifier::external_type_specification]
#[verifier::external_body]
pub struct ExAsmap(Asmap);

/// The bytes an asmap was read from.
pub uninterp spec fn asmap_bytes(asmap: Asmap) -> Seq<u8>;

/// Whether some bytes are a valid asmap: they simulate, on every path, to a result.
pub uninterp spec fn asmap_valid(bytes: Seq<u8>) -> bool;

/// Whether some text is an IP address, of either version, and nothing else.
pub uninterp spec fn is_ip(text: Seq<char>) -> bool;

/// The autonomous system the bytes of an asmap map an IP address to, as text. 0 is
/// for an address they do not cover.
pub uninterp spec fn asn_of(bytes: Seq<u8>, text: Seq<char>) -> u32;

/// How many bytes are too many for an asmap: it counts bits in 32 of them.
pub const TOO_LONG: usize = 0x2000_0000;

/// `Asmap::from_bytes`: refuses what is not valid, in one sentence, and holds on to
/// the bytes of what is.
#[verifier::external_body]
fn asmap_from_bytes(bytes: Vec<u8>) -> (asmap: Result<Asmap, String>)
    requires
        bytes@.len() < TOO_LONG,
    ensures
        asmap is Ok <==> asmap_valid(bytes@),
        asmap matches Ok(asmap) ==> asmap_bytes(asmap) == bytes@,
        asmap matches Err(reason) ==> reason@ == "asmap data failed validation"@,
{
    Asmap::from_bytes(bytes).map_err(|error| error.to_string())
}

/// `str::parse`, into the addresses that `Asmap::lookup` takes: whether some text is one.
#[verifier::external_body]
fn parses(host: &str) -> (yes: bool)
    ensures
        yes == is_ip(host@),
{
    host.parse().map(|ip| move |asmap: &Asmap| asmap.lookup(ip)).is_ok()
}

/// `Asmap::lookup`, of the IP address that some text is. The address is read with
/// `str::parse`, which does not read all text.
#[verifier::external_body]
fn asmap_lookup(asmap: &Asmap, host: &str) -> (asn: u32)
    requires
        is_ip(host@),
    ensures
        asn == asn_of(asmap_bytes(*asmap), host@),
{
    asmap.lookup(host.parse().unwrap())
}

/// Read an asmap file, or say why it cannot be.
pub fn load_asmap(bytes: Vec<u8>) -> (asmap: Result<Asmap, String>)
    ensures
        asmap is Ok <==> bytes@.len() < TOO_LONG && asmap_valid(bytes@),
        asmap matches Ok(asmap) ==> asmap_bytes(asmap) == bytes@,
        asmap matches Err(reason) ==> reason@ == "not a valid asmap file: "@
            + "asmap data failed validation"@,
{
    let read = if bytes.len() < TOO_LONG {
        asmap_from_bytes(bytes)
    } else {
        Err("asmap data failed validation".to_owned())
    };
    match read {
        Ok(asmap) => Ok(asmap),
        Err(reason) => {
            let mut sentence: String = "not a valid asmap file: ".to_owned();
            sentence.append(reason.as_str());
            Err(sentence)
        },
    }
}

/// Which network a peer belongs to.
#[derive(Debug, Clone, Copy, PartialEq, Eq, Structural, Hash, PartialOrd, Ord)]
pub enum Network {
    /// Mapped to an autonomous system.
    Asn(u32),
    /// A routable IP address the asmap file does not cover.
    UnmappedIp,
    /// Not an IP address at all — Tor, I2P or CJDNS.
    Anonymising,
    /// The peer's address was never observed (only misbehaviour events).
    Unknown,
}

impl Network {
    pub open spec fn number(self) -> Option<u32> {
        match self {
            Network::Asn(asn) => Some(asn),
            _ => None,
        }
    }

    pub fn asn(self) -> (asn: Option<u32>)
        ensures
            asn == self.number(),
    {
        match self {
            Network::Asn(asn) => Some(asn),
            _ => None,
        }
    }

    pub open spec fn text(self) -> Seq<char> {
        match self {
            Network::Asn(_) => ""@,
            Network::UnmappedIp => "unmapped IP"@,
            Network::Anonymising => "Tor / I2P / CJDNS"@,
            Network::Unknown => "address not seen"@,
        }
    }

    /// Label for a network with no autonomous system.
    pub fn label(self) -> (label: &'static str)
        ensures
            label@ == self.text(),
    {
        match self {
            Network::Asn(_) => "",
            Network::UnmappedIp => "unmapped IP",
            Network::Anonymising => "Tor / I2P / CJDNS",
            Network::Unknown => "address not seen",
        }
    }

    /// Where a network stands among the others: the autonomous systems by number,
    /// then the rest.
    pub open spec fn rank(self) -> u64 {
        match self {
            Network::Asn(asn) => asn as u64,
            Network::UnmappedIp => 0x1_0000_0000,
            Network::Anonymising => 0x1_0000_0001,
            Network::Unknown => 0x1_0000_0002,
        }
    }

    fn place(self) -> (place: u64)
        ensures
            place == self.rank(),
    {
        match self {
            Network::Asn(asn) => asn as u64,
            Network::UnmappedIp => 0x1_0000_0000,
            Network::Anonymising => 0x1_0000_0001,
            Network::Unknown => 0x1_0000_0002,
        }
    }
}

/// Aggregated statistics for one network.
#[derive(Debug, Clone, Copy, PartialEq, Eq)]
pub struct NetworkStats {
    pub peers: u64,
    pub messages_in: u64,
    pub messages_out: u64,
    pub bytes_in: u64,
    pub bytes_out: u64,
    /// Exact counts per lifecycle kind, indexed by [`LifecycleKind::index`].
    pub lifecycle: [u64; 5],
    pub first_seen: u64,
    pub last_seen: u64,
}

/// What some peers come to together.
#[verifier::ext_equal]
pub struct Crowd {
    pub peers: u64,
    pub messages_in: u64,
    pub messages_out: u64,
    pub bytes_in: u64,
    pub bytes_out: u64,
    pub lifecycle: Seq<u64>,
    pub first_seen: u64,
    pub last_seen: u64,
}

impl View for NetworkStats {
    type V = Crowd;

    open spec fn view(&self) -> Crowd {
        Crowd {
            peers: self.peers,
            messages_in: self.messages_in,
            messages_out: self.messages_out,
            bytes_in: self.bytes_in,
            bytes_out: self.bytes_out,
            lifecycle: self.lifecycle@,
            first_seen: self.first_seen,
            last_seen: self.last_seen,
        }
    }
}

impl Crowd {
    /// Nobody.
    pub open spec fn nobody() -> Crowd {
        Crowd {
            peers: 0,
            messages_in: 0,
            messages_out: 0,
            bytes_in: 0,
            bytes_out: 0,
            lifecycle: Seq::new(5, |i: int| 0u64),
            first_seen: 0,
            last_seen: 0,
        }
    }

    /// One peer more.
    pub open spec fn joined(self, peer: Peer) -> Crowd {
        Crowd {
            peers: latency::capped(self.peers as int, 1),
            messages_in: latency::capped(self.messages_in as int, peer.messages_in as int),
            messages_out: latency::capped(self.messages_out as int, peer.messages_out as int),
            bytes_in: latency::capped(self.bytes_in as int, peer.bytes_in as int),
            bytes_out: latency::capped(self.bytes_out as int, peer.bytes_out as int),
            lifecycle: Seq::new(
                5,
                |i: int|
                    latency::capped(self.lifecycle[i] as int, peer.lifecycle_counts[i] as int),
            ),
            first_seen: if self.first_seen == 0 {
                peer.first_seen
            } else {
                latency::least(self.first_seen, peer.first_seen)
            },
            last_seen: latency::greatest(self.last_seen, peer.last_seen),
        }
    }

    /// Every event attributed to the peers, held at `u64::MAX`.
    pub open spec fn events(self) -> u64 {
        latency::capped(
            self.messages_in + self.messages_out + self.lifecycle[0] + self.lifecycle[1]
                + self.lifecycle[2] + self.lifecycle[3] + self.lifecycle[4],
            0,
        )
    }

    /// How many of the inbound connections were evicted.
    pub open spec fn evictions(self) -> Option<Ratio> {
        let inbound = self.lifecycle[LifecycleKind::Inbound.slot()];
        if inbound > 0 {
            Some(
                Ratio {
                    part: self.lifecycle[LifecycleKind::InboundEvicted.slot()],
                    whole: inbound,
                },
            )
        } else {
            None
        }
    }
}

impl Default for NetworkStats {
    fn default() -> (stats: Self)
        ensures
            stats@ == Crowd::nobody(),
    {
        let stats = NetworkStats {
            peers: 0,
            messages_in: 0,
            messages_out: 0,
            bytes_in: 0,
            bytes_out: 0,
            lifecycle: [0, 0, 0, 0, 0],
            first_seen: 0,
            last_seen: 0,
        };
        assert(stats@ =~= Crowd::nobody());
        stats
    }
}

impl NetworkStats {
    pub fn count(&self, kind: LifecycleKind) -> (count: u64)
        ensures
            count == self@.lifecycle[kind.slot()],
    {
        self.lifecycle[kind.index()]
    }

    /// Share of this network's inbound connections that Core chose to evict.
    ///
    /// A high ratio across many addresses in one AS is the signature of a
    /// connection flood: the connections are made and immediately thrown away.
    pub fn eviction_ratio(&self) -> (ratio: Option<Ratio>)
        ensures
            ratio == self@.evictions(),
    {
        let inbound: u64 = self.count(LifecycleKind::Inbound);
        if inbound > 0 {
            Some(Ratio { part: self.count(LifecycleKind::InboundEvicted), whole: inbound })
        } else {
            None
        }
    }

    fn absorb(&mut self, peer: &PeerStats)
        ensures
            final(self)@ == old(self)@.joined(peer@),
    {
        let counts = peer.lifecycle_counts;
        let held = self.lifecycle;
        let lifecycle: [u64; 5] = [
            held[0].saturating_add(counts[0] as u64),
            held[1].saturating_add(counts[1] as u64),
            held[2].saturating_add(counts[2] as u64),
            held[3].saturating_add(counts[3] as u64),
            held[4].saturating_add(counts[4] as u64),
        ];
        self.peers = self.peers.saturating_add(1);
        self.messages_in = self.messages_in.saturating_add(peer.messages_in);
        self.messages_out = self.messages_out.saturating_add(peer.messages_out);
        self.bytes_in = self.bytes_in.saturating_add(peer.bytes_in);
        self.bytes_out = self.bytes_out.saturating_add(peer.bytes_out);
        self.lifecycle = lifecycle;
        self.first_seen = if self.first_seen == 0 || peer.first_seen < self.first_seen {
            peer.first_seen
        } else {
            self.first_seen
        };
        self.last_seen = if peer.last_seen > self.last_seen {
            peer.last_seen
        } else {
            self.last_seen
        };
        assert(self@ =~= old(self)@.joined(peer@));
    }

    /// Every event attributed to peers in this network.
    pub fn events(&self) -> (events: u64)
        ensures
            events == self@.events(),
    {
        self.messages_in.saturating_add(self.messages_out).saturating_add(
            self.lifecycle[0],
        ).saturating_add(self.lifecycle[1]).saturating_add(self.lifecycle[2]).saturating_add(
            self.lifecycle[3],
        ).saturating_add(self.lifecycle[4])
    }
}

/// Where the first closing bracket from `from` on is, or the end of the text.
pub open spec fn closing(text: Seq<char>, from: int) -> int
    decreases text.len() - from,
{
    if from >= text.len() {
        text.len() as int
    } else if text[from] == ']' {
        from
    } else {
        closing(text, from + 1)
    }
}

/// Where the last colon before `upto` is.
pub open spec fn last_colon(text: Seq<char>, upto: int) -> Option<int>
    decreases upto,
{
    if upto <= 0 {
        None
    } else if text[upto - 1] == ':' {
        Some(upto - 1)
    } else {
        last_colon(text, upto - 1)
    }
}

/// Whether a character is an ASCII digit.
pub open spec fn is_digit(c: char) -> bool {
    '0' <= c && c <= '9'
}

/// Whether everything from `from` on is a digit.
pub open spec fn digits_from(text: Seq<char>, from: int) -> bool {
    forall|i: int| from <= i < text.len() ==> is_digit(#[trigger] text[i])
}

/// What could be the IP in a peer address, the likeliest first.
pub open spec fn ip_candidates(addr: Seq<char>) -> Seq<Seq<char>> {
    if addr.len() > 0 && addr[0] == '[' {
        // [v6]:port, or a bare bracketed address.
        seq![addr.subrange(1, closing(addr, 1))]
    } else {
        match last_colon(addr, addr.len() as int) {
            // Strip a trailing :port, but only when the remainder still looks like
            // IPv4; a bare unbracketed IPv6 address has colons of its own.
            Some(at) if digits_from(addr, at + 1) => seq![addr.take(at), addr],
            _ => seq![addr],
        }
    }
}

/// The first of some texts that is an IP address.
pub open spec fn first_ip(candidates: Seq<Seq<char>>) -> Option<Seq<char>>
    decreases candidates.len(),
{
    if candidates.len() == 0 {
        None
    } else if is_ip(candidates[0]) {
        Some(candidates[0])
    } else {
        first_ip(candidates.drop_first())
    }
}

proof fn lemma_closing(text: Seq<char>, from: int)
    requires
        0 <= from <= text.len(),
    ensures
        from <= closing(text, from) <= text.len(),
    decreases text.len() - from,
{
    if from < text.len() && text[from] != ']' {
        lemma_closing(text, from + 1);
    }
}

/// Where the first closing bracket is.
fn find_closing(text: &str, len: usize) -> (at: usize)
    requires
        1 <= len == text@.len(),
    ensures
        at == closing(text@, 1),
        1 <= at <= len,
{
    proof {
        lemma_closing(text@, 1);
    }
    let mut i: usize = 1;
    while i < len
        invariant
            1 <= i <= len == text@.len(),
            closing(text@, 1) == closing(text@, i as int),
        decreases len - i,
    {
        if text.get_char(i) == ']' {
            return i;
        }
        i = i + 1;
    }
    i
}

/// Where the last colon is.
fn find_last_colon(text: &str, len: usize) -> (at: Option<usize>)
    requires
        len == text@.len(),
    ensures
        match at {
            Some(at) => last_colon(text@, len as int) == Some(at as int) && at < len,
            None => last_colon(text@, len as int) is None,
        },
{
    let mut i: usize = len;
    while i > 0
        invariant
            i <= len == text@.len(),
            last_colon(text@, len as int) == last_colon(text@, i as int),
        decreases i,
    {
        if text.get_char(i - 1) == ':' {
            return Some(i - 1);
        }
        i = i - 1;
    }
    None
}

/// Whether everything from `from` on is a digit.
fn only_digits(text: &str, from: usize, len: usize) -> (yes: bool)
    requires
        from <= len == text@.len(),
    ensures
        yes == digits_from(text@, from as int),
{
    let mut i: usize = from;
    while i < len
        invariant
            from <= i <= len == text@.len(),
            forall|k: int| from <= k < i ==> is_digit(#[trigger] text@[k]),
        decreases len - i,
    {
        let c: char = text.get_char(i);
        if !('0' <= c && c <= '9') {
            assert(!is_digit(text@[i as int]));
            return false;
        }
        i = i + 1;
    }
    true
}

/// Extract the IP from a peer address, as the text it is written in there.
///
/// Addresses arrive as Bitcoin Core formats them: `1.2.3.4:8333` for IPv4 and
/// `[2001:db8::1]:8333` for IPv6. Onion and I2P addresses are not IPs and are
/// reported as such rather than being forced into a bucket.
pub fn peer_ip(addr: &str) -> (ip: Option<String>)
    ensures
        match ip {
            Some(ip) => first_ip(ip_candidates(addr@)) == Some(ip@) && is_ip(ip@),
            None => first_ip(ip_candidates(addr@)) is None,
        },
{
    let len: usize = addr.unicode_len();
    proof {
        reveal_with_fuel(first_ip, 3);
    }
    if len > 0 && addr.get_char(0) == '[' {
        let end: usize = find_closing(addr, len);
        let host = addr.substring_char(1, end);
        assert(ip_candidates(addr@)[0] == host@);
        assert(ip_candidates(addr@).drop_first() =~= Seq::empty());
        return only_ip(host);
    }
    if let Some(at) = find_last_colon(addr, len) {
        if only_digits(addr, at + 1, len) {
            let host = addr.substring_char(0, at);
            assert(host@ =~= addr@.take(at as int));
            let ghost rest = ip_candidates(addr@).drop_first();
            assert(rest[0] == addr@);
            assert(rest.drop_first() =~= Seq::empty());
            if parses(host) {
                return Some(host.to_owned());
            }
            return only_ip(addr);
        }
    }
    assert(ip_candidates(addr@)[0] == addr@);
    assert(ip_candidates(addr@).drop_first() =~= Seq::empty());
    only_ip(addr)
}

/// Some text, if it is an IP address.
fn only_ip(host: &str) -> (ip: Option<String>)
    ensures
        match ip {
            Some(ip) => is_ip(host@) && ip@ == host@,
            None => !is_ip(host@),
        },
{
    if parses(host) {
        Some(host.to_owned())
    } else {
        None
    }
}

/// The network of an address, given what the asmap has for it.
pub open spec fn network_for(asn: u32) -> Network {
    // asmap reports 0 for an address it does not cover.
    if asn == 0 {
        Network::UnmappedIp
    } else {
        Network::Asn(asn)
    }
}

/// The network of an address, given what the asmap has for it.
pub fn network_found(asn: u32) -> (network: Network)
    ensures
        network == network_for(asn),
{
    // asmap reports 0 for an address it does not cover.
    if asn == 0 {
        Network::UnmappedIp
    } else {
        Network::Asn(asn)
    }
}

/// Which network a peer belongs to.
pub open spec fn network_in(peer: Peer, bytes: Seq<u8>) -> Network {
    match peer.addr {
        None => Network::Unknown,
        Some(addr) => match first_ip(ip_candidates(addr)) {
            None => Network::Anonymising,
            Some(ip) => network_for(asn_of(bytes, ip)),
        },
    }
}

/// Which network a single peer belongs to.
pub fn network_of(peer: &PeerStats, asmap: &Asmap) -> (network: Network)
    ensures
        network == network_in(peer@, asmap_bytes(*asmap)),
{
    match &peer.addr {
        None => Network::Unknown,
        Some(addr) => match peer_ip(addr.as_str()) {
            None => Network::Anonymising,
            Some(ip) => network_found(asmap_lookup(asmap, ip.as_str())),
        },
    }
}

/// The networks of some peers.
pub open spec fn networks_in(peers: Seq<Peer>, bytes: Seq<u8>) -> Seq<Network> {
    Seq::new(peers.len(), |i: int| network_in(peers[i], bytes))
}

/// What the peers of a network come to, of the first `upto`.
pub open spec fn gathered(
    peers: Seq<Peer>,
    networks: Seq<Network>,
    network: Network,
    upto: int,
) -> Crowd
    decreases upto,
{
    if upto <= 0 {
        Crowd::nobody()
    } else if networks[upto - 1] == network {
        gathered(peers, networks, network, upto - 1).joined(peers[upto - 1])
    } else {
        gathered(peers, networks, network, upto - 1)
    }
}

/// Whether a network is that of one of the first `upto` peers.
pub open spec fn occurs(networks: Seq<Network>, network: Network, upto: int) -> bool {
    exists|i: int| 0 <= i < upto && #[trigger] networks[i] == network
}

/// Whether these are the networks of some peers, each once with all its peers,
/// busiest first.
pub open spec fn is_grouping(
    groups: Seq<(Network, Crowd)>,
    peers: Seq<Peer>,
    networks: Seq<Network>,
) -> bool {
    &&& forall|i: int|
        0 <= i < groups.len() ==> {
            &&& occurs(networks, (#[trigger] groups[i]).0, peers.len() as int)
            &&& groups[i].1 == gathered(peers, networks, groups[i].0, peers.len() as int)
        }
    &&& forall|network: Network| #[trigger]
        occurs(networks, network, peers.len() as int) ==> exists|i: int|
            0 <= i < groups.len() && (#[trigger] groups[i]).0 == network
    &&& forall|i: int, j: int|
        #![trigger groups[i], groups[j]]
        0 <= i < j < groups.len() ==> {
            ||| groups[i].1.peers > groups[j].1.peers
            ||| groups[i].1.peers == groups[j].1.peers && groups[i].0.rank() < groups[j].0.rank()
        }
}

/// Groups, with what their statistics stand for.
pub open spec fn crowds(groups: Seq<(Network, NetworkStats)>) -> Seq<(Network, Crowd)> {
    Seq::new(groups.len(), |i: int| (groups[i].0, groups[i].1@))
}

proof fn lemma_rank(a: Network, b: Network)
    ensures
        a.rank() == b.rank() <==> a == b,
{
}

/// Group peers by network, in the order in which the networks are met.
fn gather(analysis: &Analysis, asmap: &Asmap) -> (groups: Vec<(Network, NetworkStats)>)
    requires
        analysis.wf(),
    ensures
        ({
            let peers = analysis.peers@.peers;
            let networks = networks_in(peers, asmap_bytes(*asmap));
            &&& forall|i: int|
                0 <= i < groups@.len() ==> {
                    &&& occurs(networks, (#[trigger] groups@[i]).0, peers.len() as int)
                    &&& groups@[i].1@ == gathered(
                        peers,
                        networks,
                        groups@[i].0,
                        peers.len() as int,
                    )
                }
            &&& forall|network: Network| #[trigger]
                occurs(networks, network, peers.len() as int) ==> exists|i: int|
                    0 <= i < groups@.len() && (#[trigger] groups@[i]).0 == network
            &&& forall|i: int, j: int|
                #![trigger groups@[i], groups@[j]]
                0 <= i < j < groups@.len() ==> groups@[i].0 != groups@[j].0
        }),
{
    let list = analysis.peers.iter();
    let ghost peers = analysis.peers@.peers;
    let ghost networks = networks_in(peers, asmap_bytes(*asmap));
    let mut groups: Vec<(Network, NetworkStats)> = Vec::new();
    let mut places: HashMap<u64, usize> = HashMap::new();
    let mut i: usize = 0;
    while i < list.len()
        invariant
            i <= list@.len(),
            list@.len() == peers.len(),
            forall|k: int| 0 <= k < list@.len() ==> (#[trigger] list@[k])@ == peers[k],
            networks == networks_in(peers, asmap_bytes(*asmap)),
            forall|k: int|
                0 <= k < groups@.len() ==> {
                    &&& occurs(networks, (#[trigger] groups@[k]).0, i as int)
                    &&& groups@[k].1@ == gathered(peers, networks, groups@[k].0, i as int)
                },
            forall|k: int|
                0 <= k < groups@.len() ==> places@.dom().contains(
                    (#[trigger] groups@[k]).0.rank(),
                ) && places@[groups@[k].0.rank()] == k,
            forall|rank: u64| #[trigger]
                places@.dom().contains(rank) ==> places@[rank] < groups@.len()
                    && groups@[places@[rank] as int].0.rank() == rank,
            forall|k: int|
                0 <= k < i ==> places@.dom().contains((#[trigger] networks[k]).rank()),
        decreases list@.len() - i,
    {
        let peer = &list[i];
        assert(peer@ == peers[i as int]);
        let network = network_of(peer, asmap);
        assert(network == networks[i as int]);
        let rank: u64 = network.place();
        let ghost was = groups@;
        let found: Option<usize> = match places.get(&rank) {
            Some(at) => Some(*at),
            None => None,
        };
        let at: usize = match found {
            Some(at) => at,
            None => {
                let at: usize = groups.len();
                groups.push((network, NetworkStats::default()));
                places.insert(rank, at);
                at
            },
        };
        proof {
            if found is None {
                assert forall|k: int| 0 <= k < was.len() implies (#[trigger] was[k]).0 != network by {
                    lemma_rank(was[k].0, network);
                }
                assert(!occurs(networks, network, i as int)) by {
                    if occurs(networks, network, i as int) {
                        let k = choose|k: int| 0 <= k < i && #[trigger] networks[k] == network;
                        assert(places@.dom().contains(networks[k].rank()));
                    }
                }
                lemma_nobody(peers, networks, network, i as int);
            } else {
                lemma_rank(was[at as int].0, network);
            }
            assert(groups@[at as int].0 == network);
            assert(groups@[at as int].1@ == gathered(peers, networks, network, i as int));
        }
        let ghost mid = groups@;
        let mut stats: NetworkStats = groups[at].1;
        stats.absorb(peer);
        groups[at] = (network, stats);
        proof {
            assert forall|k: int| 0 <= k < groups@.len() implies {
                &&& occurs(networks, (#[trigger] groups@[k]).0, i + 1)
                &&& groups@[k].1@ == gathered(peers, networks, groups@[k].0, i + 1)
            } by {
                if k == at {
                    assert(networks[i as int] == network);
                } else {
                    assert(groups@[k] == mid[k]);
                    assert(mid[k] == was[k]);
                    lemma_rank(mid[k].0, network);
                    assert(mid[k].0 != network);
                    let p = choose|p: int| 0 <= p < i && #[trigger] networks[p] == mid[k].0;
                    assert(networks[p] == groups@[k].0);
                }
            }
        }
        i = i + 1;
    }
    proof {
        assert forall|network: Network| #[trigger]
            occurs(networks, network, peers.len() as int) implies exists|k: int|
            0 <= k < groups@.len() && (#[trigger] groups@[k]).0 == network by {
            let p = choose|p: int| 0 <= p < peers.len() && #[trigger] networks[p] == network;
            let k = places@[networks[p].rank()] as int;
            lemma_rank(groups@[k].0, network);
            assert(groups@[k].0 == network);
        }
        assert forall|a: int, b: int|
            #![trigger groups@[a], groups@[b]]
            0 <= a < b < groups@.len() implies groups@[a].0 != groups@[b].0 by {
            assert(places@[groups@[a].0.rank()] == a);
            assert(places@[groups@[b].0.rank()] == b);
        }
    }
    groups
}

proof fn lemma_nobody(
    peers: Seq<Peer>,
    networks: Seq<Network>,
    network: Network,
    upto: int,
)
    requires
        !occurs(networks, network, upto),
        upto <= networks.len(),
    ensures
        gathered(peers, networks, network, upto) == Crowd::nobody(),
    decreases upto,
{
    if upto > 0 {
        assert(networks[upto - 1] != network);
        assert(!occurs(networks, network, upto - 1)) by {
            if occurs(networks, network, upto - 1) {
                let k = choose|k: int| 0 <= k < upto - 1 && #[trigger] networks[k] == network;
                assert(networks[k] == network);
            }
        }
        lemma_nobody(peers, networks, network, upto - 1);
    }
}

/// Group every peer in the archive by network, busiest first.
pub fn group(analysis: &Analysis, asmap: &Asmap) -> (groups: Vec<(Network, NetworkStats)>)
    requires
        analysis.wf(),
    ensures
        is_grouping(
            crowds(groups@),
            analysis.peers@.peers,
            networks_in(analysis.peers@.peers, asmap_bytes(*asmap)),
        ),
{
    let gathered = gather(analysis, asmap);
    let ghost peers = analysis.peers@.peers;
    let ghost networks = networks_in(peers, asmap_bytes(*asmap));
    let mut keys: Vec<(u64, u64)> = Vec::new();
    let mut i: usize = 0;
    while i < gathered.len()
        invariant
            i <= gathered@.len(),
            keys@.len() == i,
            forall|k: int|
                0 <= k < i ==> #[trigger] keys@[k] == (
                    order::flipped(gathered@[k].1@.peers),
                    gathered@[k].0.rank(),
                ),
        decreases gathered@.len() - i,
    {
        keys.push((u64::MAX - gathered[i].1.peers, gathered[i].0.place()));
        i = i + 1;
    }
    let ghost ranks = keys@;
    let order = order::sort_by_numbers(keys);
    let mut groups: Vec<(Network, NetworkStats)> = Vec::new();
    let mut n: usize = 0;
    while n < order.len()
        invariant
            n <= order@.len(),
            groups@.len() == n,
            order@.len() == gathered@.len(),
            forall|k: int| 0 <= k < order@.len() ==> #[trigger] order@[k] < gathered@.len(),
            forall|k: int| 0 <= k < n ==> #[trigger] groups@[k] == gathered@[order@[k] as int],
        decreases order@.len() - n,
    {
        groups.push(gathered[order[n]]);
        n = n + 1;
    }
    proof {
        let listed = crowds(groups@);
        order::law_rows_can_be_ordered(ranks);
        assert forall|k: int| 0 <= k < listed.len() implies {
            &&& occurs(networks, (#[trigger] listed[k]).0, peers.len() as int)
            &&& listed[k].1 == self::gathered(peers, networks, listed[k].0, peers.len() as int)
        } by {
            assert(groups@[k] == gathered@[order@[k] as int]);
        }
        assert forall|network: Network| #[trigger]
            occurs(networks, network, peers.len() as int) implies exists|k: int|
            0 <= k < listed.len() && (#[trigger] listed[k]).0 == network by {
            let p = choose|p: int|
                0 <= p < gathered@.len() && (#[trigger] gathered@[p]).0 == network;
            assert(order@.contains(p as usize));
            let k = choose|k: int| 0 <= k < order@.len() && order@[k] == p as usize;
            assert(groups@[k] == gathered@[order@[k] as int]);
            assert(listed[k].0 == network);
        }
        assert forall|a: int, b: int|
            #![trigger listed[a], listed[b]]
            0 <= a < b < listed.len() implies {
            ||| listed[a].1.peers > listed[b].1.peers
            ||| listed[a].1.peers == listed[b].1.peers && listed[a].0.rank() < listed[b].0.rank()
        } by {
            let x = order@[a] as int;
            let y = order@[b] as int;
            assert(order::smaller(ranks, x, y));
            assert(groups@[a] == gathered@[x]);
            assert(groups@[b] == gathered@[y]);
            lemma_rank(gathered@[x].0, gathered@[y].0);
            assert(x != y);
            if x < y {
                assert(gathered@[x].0 != gathered@[y].0);
            } else {
                assert(gathered@[y].0 != gathered@[x].0);
            }
        }
    }
    groups
}

/// How many peers the first of some groups have.
pub open spec fn covered(groups: Seq<(Network, Crowd)>, upto: int) -> int
    decreases upto,
{
    if upto <= 0 {
        0
    } else {
        covered(groups, upto - 1) + groups[upto - 1].1.peers
    }
}

/// How many of the first `upto` peers are of a network.
spec fn members(networks: Seq<Network>, network: Network, upto: int) -> int
    decreases upto,
{
    if upto <= 0 {
        0
    } else {
        members(networks, network, upto - 1) + if networks[upto - 1] == network {
            1int
        } else {
            0int
        }
    }
}

proof fn lemma_members(
    peers: Seq<Peer>,
    networks: Seq<Network>,
    network: Network,
    upto: int,
)
    requires
        0 <= upto <= u64::MAX,
    ensures
        0 <= members(networks, network, upto) <= upto,
        gathered(peers, networks, network, upto).peers == members(networks, network, upto),
    decreases upto,
{
    if upto > 0 {
        lemma_members(peers, networks, network, upto - 1);
    }
}

/// How many of the first `upto` peers are of any of the first groups' networks.
spec fn housed(
    groups: Seq<(Network, Crowd)>,
    networks: Seq<Network>,
    listed: int,
    upto: int,
) -> int
    decreases listed,
{
    if listed <= 0 {
        0
    } else {
        housed(groups, networks, listed - 1, upto) + members(networks, groups[listed - 1].0, upto)
    }
}

/// One peer more is one more housed if its network is listed, at `home`.
proof fn lemma_housed_step(
    groups: Seq<(Network, Crowd)>,
    networks: Seq<Network>,
    listed: int,
    upto: int,
    home: int,
)
    requires
        0 <= listed <= groups.len(),
        0 <= upto,
        0 <= home < groups.len(),
        groups[home].0 == networks[upto],
        forall|i: int, j: int|
            #![trigger groups[i], groups[j]]
            0 <= i < j < groups.len() ==> groups[i].0 != groups[j].0,
    ensures
        housed(groups, networks, listed, upto + 1) == housed(groups, networks, listed, upto) + if home
            < listed {
            1int
        } else {
            0int
        },
    decreases listed,
{
    if listed > 0 {
        lemma_housed_step(groups, networks, listed - 1, upto, home);
        if home < listed - 1 {
            assert(groups[home].0 != groups[listed - 1].0);
        } else if home > listed - 1 {
            assert(groups[listed - 1].0 != groups[home].0);
        }
    }
}

/// Whether a network has a group.
spec fn listed_among(groups: Seq<(Network, Crowd)>, network: Network) -> bool {
    exists|i: int| 0 <= i < groups.len() && (#[trigger] groups[i]).0 == network
}

proof fn lemma_housed(
    groups: Seq<(Network, Crowd)>,
    networks: Seq<Network>,
    upto: int,
)
    requires
        0 <= upto <= networks.len(),
        forall|i: int, j: int|
            #![trigger groups[i], groups[j]]
            0 <= i < j < groups.len() ==> groups[i].0 != groups[j].0,
        forall|p: int| 0 <= p < networks.len() ==> listed_among(groups, #[trigger] networks[p]),
    ensures
        housed(groups, networks, groups.len() as int, upto) == upto,
    decreases upto,
{
    if upto == 0 {
        lemma_housed_none(groups, networks, groups.len() as int);
    } else {
        lemma_housed(groups, networks, upto - 1);
        let p = upto - 1;
        assert(listed_among(groups, networks[p]));
        let home = choose|i: int|
            0 <= i < groups.len() && (#[trigger] groups[i]).0 == networks[p];
        lemma_housed_step(groups, networks, groups.len() as int, upto - 1, home);
    }
}

proof fn lemma_housed_none(groups: Seq<(Network, Crowd)>, networks: Seq<Network>, listed: int)
    ensures
        housed(groups, networks, listed, 0) == 0,
    decreases listed,
{
    if listed > 0 {
        lemma_housed_none(groups, networks, listed - 1);
    }
}

proof fn lemma_covered(
    groups: Seq<(Network, Crowd)>,
    peers: Seq<Peer>,
    networks: Seq<Network>,
    listed: int,
)
    requires
        0 <= listed <= groups.len(),
        peers.len() <= u64::MAX,
        forall|i: int|
            0 <= i < groups.len() ==> (#[trigger] groups[i]).1 == gathered(
                peers,
                networks,
                groups[i].0,
                peers.len() as int,
            ),
    ensures
        covered(groups, listed) == housed(groups, networks, listed, peers.len() as int),
    decreases listed,
{
    if listed > 0 {
        lemma_covered(groups, peers, networks, listed - 1);
        assert(groups[listed - 1].1 == gathered(
            peers,
            networks,
            groups[listed - 1].0,
            peers.len() as int,
        ));
        lemma_members(peers, networks, groups[listed - 1].0, peers.len() as int);
    }
}

/// Every peer is in exactly one network: the groups' peers add up to all there are.
pub proof fn law_every_peer_is_in_exactly_one_network(
    groups: Seq<(Network, Crowd)>,
    peers: Seq<Peer>,
    networks: Seq<Network>,
)
    requires
        networks.len() == peers.len(),
        peers.len() <= u64::MAX,
        is_grouping(groups, peers, networks),
    ensures
        covered(groups, groups.len() as int) == peers.len(),
{
    lemma_covered(groups, peers, networks, groups.len() as int);
    assert forall|i: int, j: int|
        #![trigger groups[i], groups[j]]
        0 <= i < j < groups.len() implies groups[i].0 != groups[j].0 by {
    }
    assert forall|p: int| 0 <= p < networks.len() implies listed_among(
        groups,
        #[trigger] networks[p],
    ) by {
        assert(occurs(networks, networks[p], peers.len() as int));
    }
    lemma_housed(groups, networks, peers.len() as int);
}

/// What some peers come to together, one after the other.
pub open spec fn crowd_of(peers: Seq<Peer>) -> Crowd
    decreases peers.len(),
{
    if peers.len() == 0 {
        Crowd::nobody()
    } else {
        crowd_of(peers.drop_last()).joined(peers.last())
    }
}

/// The events of some peers, added up.
pub open spec fn events_of(peers: Seq<Peer>) -> int
    decreases peers.len(),
{
    if peers.len() == 0 {
        0
    } else {
        events_of(peers.drop_last()) + peers.last().events()
    }
}

/// A network's events are those of its peers, added up, and it has as many peers as
/// joined it, whichever peers of a table those are and however many; both are held at what
/// a counter can carry. That is unless a peer had more events of one kind than it can
/// count.
pub proof fn law_a_networks_events_are_its_peers_events(peers: Seq<Peer>)
    requires
        forall|i: int|
            0 <= i < peers.len() ==> (#[trigger] peers[i]).tidy() && peers[i].kinds_counted(),
    ensures
        crowd_of(peers).events() == latency::capped(events_of(peers), 0),
        crowd_of(peers).peers == latency::capped(peers.len() as int, 0),
{
    lemma_crowd(peers);
    lemma_events(peers);
}

/// The peers of a network, of the first `upto`.
pub open spec fn peers_in(
    peers: Seq<Peer>,
    networks: Seq<Network>,
    network: Network,
    upto: int,
) -> Seq<Peer>
    decreases upto,
{
    if upto <= 0 {
        Seq::empty()
    } else if networks[upto - 1] == network {
        peers_in(peers, networks, network, upto - 1).push(peers[upto - 1])
    } else {
        peers_in(peers, networks, network, upto - 1)
    }
}

/// What a network comes to is what its peers come to, and nothing else.
pub proof fn law_a_network_is_the_crowd_of_its_members(
    peers: Seq<Peer>,
    networks: Seq<Network>,
    network: Network,
    upto: int,
)
    ensures
        gathered(peers, networks, network, upto) == crowd_of(
            peers_in(peers, networks, network, upto),
        ),
    decreases upto,
{
    if upto > 0 {
        law_a_network_is_the_crowd_of_its_members(peers, networks, network, upto - 1);
        if networks[upto - 1] == network {
            assert(peers_in(peers, networks, network, upto).drop_last() =~= peers_in(
                peers,
                networks,
                network,
                upto - 1,
            ));
        }
    }
}

/// One of the things a peer counts: its connections' events of a kind, or its messages one
/// way or the other.
spec fn figure(peer: Peer, of: int) -> int {
    if of == 5 {
        peer.messages_in as int
    } else if of == 6 {
        peer.messages_out as int
    } else {
        peer.lifecycle_counts[of] as int
    }
}

/// One of the things peers count, added up.
spec fn figures(peers: Seq<Peer>, of: int) -> int
    decreases peers.len(),
{
    if peers.len() == 0 {
        0
    } else {
        figures(peers.drop_last(), of) + figure(peers.last(), of)
    }
}

/// What a crowd counts is what its peers count, each thing held at what a counter can
/// carry.
proof fn lemma_crowd(peers: Seq<Peer>)
    ensures
        ({
            let crowd = crowd_of(peers);
            &&& crowd.peers == latency::capped(peers.len() as int, 0)
            &&& crowd.messages_in == latency::capped(figures(peers, 5), 0)
            &&& crowd.messages_out == latency::capped(figures(peers, 6), 0)
            &&& forall|i: int|
                0 <= i < 5 ==> #[trigger] crowd.lifecycle[i] == latency::capped(
                    figures(peers, i),
                    0,
                )
        }),
        forall|of: int| 0 <= #[trigger] figures(peers, of),
    decreases peers.len(),
{
    if peers.len() > 0 {
        let front = peers.drop_last();
        lemma_crowd(front);
        assert forall|of: int| 0 <= #[trigger] figures(peers, of) by {
            assert(0 <= figures(front, of));
        }
        assert forall|i: int| 0 <= i < 5 implies #[trigger] crowd_of(peers).lifecycle[i]
            == latency::capped(figures(peers, i), 0) by {
            assert(crowd_of(front).lifecycle[i] == latency::capped(figures(front, i), 0));
            assert(0 <= figures(front, i));
        }
        assert(0 <= figures(front, 5) && 0 <= figures(front, 6));
    }
}

/// What peers count comes to their events.
proof fn lemma_events(peers: Seq<Peer>)
    requires
        forall|i: int|
            0 <= i < peers.len() ==> (#[trigger] peers[i]).tidy() && peers[i].kinds_counted(),
    ensures
        ({
            let all = figures(peers, 0) + figures(peers, 1) + figures(peers, 2) + figures(peers, 3)
                + figures(peers, 4) + figures(peers, 5) + figures(peers, 6);
            &&& 0 <= events_of(peers) <= all
            &&& latency::capped(all, 0) == latency::capped(events_of(peers), 0)
        }),
    decreases peers.len(),
{
    if peers.len() > 0 {
        let front = peers.drop_last();
        assert forall|i: int| 0 <= i < front.len() implies (#[trigger] front[i]).tidy()
            && front[i].kinds_counted() by {
            assert(front[i] == peers[i]);
        }
        lemma_events(front);
        let last = peers.last();
        assert(last == peers[peers.len() - 1]);
        assert(peers::sum_of_five(last.lifecycle_counts) == last.lifecycle_total);
    }
}

/// The last colon is the one nothing but other text follows.
proof fn lemma_last_colon(text: Seq<char>, at: int, upto: int)
    requires
        0 <= at < upto <= text.len(),
        text[at] == ':',
        forall|i: int| at < i < upto ==> #[trigger] text[i] != ':',
    ensures
        last_colon(text, upto) == Some(at),
    decreases upto,
{
    if at < upto - 1 {
        assert(text[upto - 1] != ':');
        lemma_last_colon(text, at, upto - 1);
    }
}

proof fn lemma_no_colon(text: Seq<char>, upto: int)
    requires
        upto <= text.len(),
        forall|i: int| 0 <= i < upto ==> #[trigger] text[i] != ':',
    ensures
        last_colon(text, upto) is None,
    decreases upto,
{
    if upto > 0 {
        lemma_no_colon(text, upto - 1);
    }
}

/// The first closing bracket is the one no other stands before.
proof fn lemma_first_closing(text: Seq<char>, from: int, at: int)
    requires
        0 <= from <= at < text.len(),
        text[at] == ']',
        forall|i: int| from <= i < at ==> #[trigger] text[i] != ']',
    ensures
        closing(text, from) == at,
    decreases at - from,
{
    if from < at {
        lemma_first_closing(text, from + 1, at);
    }
}

/// The IP in an address is what it is written with: before a port, inside brackets whatever
/// follows them, or all there is. An IP of which the autonomous system is known is of that
/// one, another of none; an address with no IP in it is of an anonymising network, and a
/// peer nobody has an address of is of none that is known.
pub proof fn law_a_peer_is_of_the_network_of_its_ip(
    host: Seq<char>,
    port: Seq<char>,
    rest: Seq<char>,
    peer: Peer,
    bytes: Seq<u8>,
)
    requires
        forall|i: int| 0 <= i < port.len() ==> '0' <= #[trigger] port[i] && port[i] <= '9',
        peer.addr matches Some(addr) ==> {
            ||| addr == host + seq![':'] + port && (host.len() == 0 || host[0] != '[')
            ||| addr == seq!['['] + host + seq![']'] + rest && !host.contains(']')
            ||| addr == host && !host.contains(':') && (host.len() == 0 || host[0] != '[')
        },
    ensures
        peer.addr is None ==> network_in(peer, bytes) == Network::Unknown,
        peer.addr is Some && is_ip(host) ==> {
            &&& first_ip(ip_candidates(peer.addr->0)) == Some(host)
            &&& asn_of(bytes, host) == 0 ==> network_in(peer, bytes) == Network::UnmappedIp
            &&& asn_of(bytes, host) > 0 ==> network_in(peer, bytes) == Network::Asn(
                asn_of(bytes, host),
            )
        },
{
    if let Some(addr) = peer.addr {
        if addr == seq!['['] + host + seq![']'] + rest && !host.contains(']') {
            let at = host.len() as int + 1;
            assert(addr[0] == '[');
            assert(addr[at] == ']');
            assert forall|i: int| 1 <= i < at implies #[trigger] addr[i] != ']' by {
                assert(addr[i] == host[i - 1]);
            }
            lemma_first_closing(addr, 1, at);
            assert(addr.subrange(1, at) =~= host);
            assert(ip_candidates(addr)[0] == host);
        } else if addr == host + seq![':'] + port && (host.len() == 0 || host[0] != '[') {
            let at = host.len() as int;
            assert(addr[at] == ':');
            assert forall|i: int| at < i < addr.len() implies #[trigger] addr[i] != ':' by {
                assert(addr[i] == port[i - at - 1]);
            }
            lemma_last_colon(addr, at, addr.len() as int);
            assert(digits_from(addr, at + 1)) by {
                assert forall|i: int| at + 1 <= i < addr.len() implies is_digit(
                    #[trigger] addr[i],
                ) by {
                    assert(addr[i] == port[i - at - 1]);
                }
            }
            if host.len() > 0 {
                assert(addr[0] == host[0]);
            }
            assert(addr.take(at) =~= host);
            assert(ip_candidates(addr)[0] == host);
        } else {
            assert forall|i: int| 0 <= i < addr.len() implies #[trigger] addr[i] != ':' by {
                assert(host.contains(addr[i]));
            }
            lemma_no_colon(addr, addr.len() as int);
            assert(ip_candidates(addr)[0] == host);
        }
    }
}

/// An address is of an anonymising network if and only if it has no IP in it: neither what
/// stands in its brackets, nor what stands before its port, nor the whole of it is one.
pub proof fn law_what_has_no_ip_is_anonymising(peer: Peer, bytes: Seq<u8>)
    requires
        peer.addr is Some,
    ensures
        network_in(peer, bytes) == Network::Anonymising <==> forall|i: int|
            0 <= i < ip_candidates(peer.addr->0).len() ==> !is_ip(
                #[trigger] ip_candidates(peer.addr->0)[i],
            ),
        network_in(peer, bytes) != Network::Unknown,
{
    let candidates = ip_candidates(peer.addr->0);
    lemma_first_ip(candidates);
}

proof fn lemma_first_ip(candidates: Seq<Seq<char>>)
    ensures
        first_ip(candidates) is None <==> forall|i: int|
            0 <= i < candidates.len() ==> !is_ip(#[trigger] candidates[i]),
    decreases candidates.len(),
{
    if candidates.len() > 0 {
        let rest = candidates.drop_first();
        lemma_first_ip(rest);
        assert forall|i: int| 0 <= i < rest.len() implies #[trigger] rest[i] == candidates[i
            + 1] by {}
        if first_ip(candidates) is None {
            assert forall|i: int| 0 <= i < candidates.len() implies !is_ip(
                #[trigger] candidates[i],
            ) by {
                if i > 0 {
                    assert(rest[i - 1] == candidates[i]);
                }
            }
        } else if forall|i: int| 0 <= i < candidates.len() ==> !is_ip(#[trigger] candidates[i]) {
            assert(!is_ip(candidates[0]));
            assert forall|i: int| 0 <= i < rest.len() implies !is_ip(#[trigger] rest[i]) by {
                assert(!is_ip(candidates[i + 1]));
            }
        }
    }
}

/// One more peer adds what it counts: one peer, its messages and bytes either way and the
/// events of its connections by their kind, as far as counters go. The network was seen
/// from the earliest of its peers to the latest.
pub proof fn law_a_peer_adds_what_it_counts(peers: Seq<Peer>, peer: Peer, kind: int)
    requires
        0 <= kind < 5,
    ensures
        ({
            let before = crowd_of(peers);
            let after = crowd_of(peers.push(peer));
            &&& before.peers < u64::MAX ==> after.peers == before.peers + 1
            &&& before.messages_in + peer.messages_in <= u64::MAX ==> after.messages_in
                == before.messages_in + peer.messages_in
            &&& before.messages_out + peer.messages_out <= u64::MAX ==> after.messages_out
                == before.messages_out + peer.messages_out
            &&& before.bytes_in + peer.bytes_in <= u64::MAX ==> after.bytes_in == before.bytes_in
                + peer.bytes_in
            &&& before.bytes_out + peer.bytes_out <= u64::MAX ==> after.bytes_out
                == before.bytes_out + peer.bytes_out
            &&& before.lifecycle[kind] + peer.lifecycle_counts[kind] <= u64::MAX
                ==> after.lifecycle[kind] == before.lifecycle[kind] + peer.lifecycle_counts[kind]
            &&& after.last_seen >= before.last_seen && after.last_seen >= peer.last_seen
            &&& after.last_seen == before.last_seen || after.last_seen == peer.last_seen
            &&& before.first_seen > 0 ==> after.first_seen <= before.first_seen
                && after.first_seen <= peer.first_seen && (after.first_seen == before.first_seen
                || after.first_seen == peer.first_seen)
            &&& peers.len() == 0 ==> after.first_seen == peer.first_seen && after.last_seen
                == peer.last_seen
        }),
{
    assert(peers.push(peer).drop_last() =~= peers);
}

/// What share of the inbound connections of a crowd were evicted: its events of the one
/// kind over those of the other. There is none where nobody connected. The five kinds have
/// one number each.
pub proof fn law_evictions_are_out_of_inbound_connections(crowd: Crowd)
    ensures
        crowd.evictions() is Some <==> crowd.lifecycle[LifecycleKind::Inbound.slot()] > 0,
        crowd.evictions() matches Some(ratio) ==> ratio.whole
            == crowd.lifecycle[LifecycleKind::Inbound.slot()] && ratio.part
            == crowd.lifecycle[LifecycleKind::InboundEvicted.slot()],
        LifecycleKind::Inbound.slot() == 0,
        LifecycleKind::Outbound.slot() == 1,
        LifecycleKind::Closed.slot() == 2,
        LifecycleKind::InboundEvicted.slot() == 3,
        LifecycleKind::Misbehaving.slot() == 4,
{
}

/// Networks that are level come in one order: the autonomous systems by their number, then
/// IPs of none, then what is no IP, then what has no address.
pub proof fn law_level_networks_have_one_order(a: u32, b: u32)
    ensures
        a < b <==> Network::Asn(a).rank() < Network::Asn(b).rank(),
        Network::Asn(a).rank() < Network::UnmappedIp.rank(),
        Network::UnmappedIp.rank() < Network::Anonymising.rank(),
        Network::Anonymising.rank() < Network::Unknown.rank(),
{
}

} // verus!
