//! What several views share: a peer's line, and names for what is carried as a
//! number.

use crate::peers::{Peer, PeerStats};
use vstd::prelude::*;

verus! {

/// The name of a connection type.
pub open spec fn conn_type_text(value: i32) -> Seq<char> {
    if value == 1 {
        "inbound"@
    } else if value == 2 {
        "outbound-full-relay"@
    } else if value == 3 {
        "block-relay-only"@
    } else if value == 4 {
        "feeler"@
    } else {
        "unknown"@
    }
}

/// The name of a connection type. A number no connection type has is as good as
/// unknown.
pub fn conn_type_name(value: i32) -> (name: &'static str)
    ensures
        name@ == conn_type_text(value),
{
    if value == 1 {
        "inbound"
    } else if value == 2 {
        "outbound-full-relay"
    } else if value == 3 {
        "block-relay-only"
    } else if value == 4 {
        "feeler"
    } else {
        "unknown"
    }
}

/// The name of a network.
pub open spec fn network_text(value: u32) -> Seq<char> {
    if value == 0 {
        "unroutable"@
    } else if value == 1 {
        "ipv4"@
    } else if value == 2 {
        "ipv6"@
    } else if value == 3 {
        "onion"@
    } else if value == 4 {
        "i2p"@
    } else if value == 5 {
        "cjdns"@
    } else if value == 6 {
        "internal"@
    } else {
        "unknown"@
    }
}

/// Bitcoin Core's `Network` enum, as carried by `Connection.network`.
pub fn network_name(value: u32) -> (name: &'static str)
    ensures
        name@ == network_text(value),
{
    match value {
        0 => "unroutable",
        1 => "ipv4",
        2 => "ipv6",
        3 => "onion",
        4 => "i2p",
        5 => "cjdns",
        6 => "internal",
        _ => "unknown",
    }
}

/// The text behind an optional name.
pub open spec fn name_in(name: Option<&str>) -> Option<Seq<char>> {
    match name {
        Some(name) => Some(name@),
        None => None,
    }
}

/// One peer's line.
#[derive(Debug)]
pub struct PeerRow<'a> {
    pub peer: &'a PeerStats,
    pub conn_type: Option<&'static str>,
    pub network: Option<&'static str>,
    pub duration_ms: u64,
    pub events: u64,
}

/// Whether a line is this peer's.
pub open spec fn is_row_of(row: PeerRow<'_>, peer: Peer) -> bool {
    &&& row.peer@ == peer
    &&& name_in(row.conn_type) == conn_type_in(peer)
    &&& name_in(row.network) == network_in(peer)
    &&& row.duration_ms == peer.duration()
    &&& row.events == peer.events()
}

/// The name of a peer's connection type, if it is known.
pub open spec fn conn_type_in(peer: Peer) -> Option<Seq<char>> {
    match peer.conn_type {
        Some(value) => Some(conn_type_text(value)),
        None => None,
    }
}

/// The name of a peer's network, if it is known.
pub open spec fn network_in(peer: Peer) -> Option<Seq<char>> {
    match peer.network {
        Some(value) => Some(network_text(value)),
        None => None,
    }
}

/// The name of a peer's connection type, if it is known.
pub fn conn_type_of(peer: &PeerStats) -> (name: Option<&'static str>)
    ensures
        name_in(name) == conn_type_in(peer@),
{
    match peer.conn_type {
        Some(value) => Some(conn_type_name(value)),
        None => None,
    }
}

/// One peer's line.
pub fn peer_row(peer: &PeerStats) -> (row: PeerRow<'_>)
    ensures
        is_row_of(row, peer@),
{
    PeerRow {
        peer,
        conn_type: conn_type_of(peer),
        network: match peer.network {
            Some(value) => Some(network_name(value)),
            None => None,
        },
        duration_ms: peer.duration_ms(),
        events: peer.events(),
    }
}

/// Numbers have one name each: four types of connection and seven networks have their own,
/// and every other number is as good as unknown.
pub proof fn law_numbers_have_their_names(conn_type: i32, network: u32)
    ensures
        conn_type_text(conn_type) == "inbound"@ <==> conn_type == 1,
        conn_type_text(conn_type) == "outbound-full-relay"@ <==> conn_type == 2,
        conn_type_text(conn_type) == "block-relay-only"@ <==> conn_type == 3,
        conn_type_text(conn_type) == "feeler"@ <==> conn_type == 4,
        conn_type_text(conn_type) == "unknown"@ <==> conn_type < 1 || conn_type > 4,
        network_text(network) == "unroutable"@ <==> network == 0,
        network_text(network) == "ipv4"@ <==> network == 1,
        network_text(network) == "ipv6"@ <==> network == 2,
        network_text(network) == "onion"@ <==> network == 3,
        network_text(network) == "i2p"@ <==> network == 4,
        network_text(network) == "cjdns"@ <==> network == 5,
        network_text(network) == "internal"@ <==> network == 6,
        network_text(network) == "unknown"@ <==> network > 6,
{
    reveal_strlit("inbound");
    reveal_strlit("outbound-full-relay");
    reveal_strlit("block-relay-only");
    reveal_strlit("feeler");
    reveal_strlit("unknown");
    reveal_strlit("unroutable");
    reveal_strlit("ipv4");
    reveal_strlit("ipv6");
    reveal_strlit("onion");
    reveal_strlit("i2p");
    reveal_strlit("cjdns");
    reveal_strlit("internal");
    assert("inbound"@.len() == 7 && "unknown"@.len() == 7 && "feeler"@.len() == 6);
    assert("inbound"@[0] == 'i' && "unknown"@[0] == 'u');
    assert("outbound-full-relay"@.len() == 19 && "block-relay-only"@.len() == 16);
    assert("ipv4"@.len() == 4 && "ipv6"@.len() == 4 && "ipv4"@[3] == '4' && "ipv6"@[3] == '6');
    assert("onion"@.len() == 5 && "cjdns"@.len() == 5 && "onion"@[0] == 'o' && "cjdns"@[0] == 'c');
    assert("i2p"@.len() == 3 && "internal"@.len() == 8 && "unroutable"@.len() == 10);
}

} // verus!
