use archive_viewer::peers::{LifecycleKind, PeerTable, UserAgentSource, LIFECYCLE_CAP};
use archive_viewer::proto::{
    ClosedConnection, ConnEvent, ConnType, Connection, ConnectionEvent, InboundConnection,
    MessageEvent, Metadata, MisbehavingConnection, Msg, Ping,
};

fn message(peer_id: u64, command: &str, inbound: bool, size: u64) -> MessageEvent {
    MessageEvent {
        meta: Metadata {
            peer_id,
            addr: "10.0.0.1:8333".to_string(),
            conn_type: ConnType::Inbound as i32,
            command: command.to_string(),
            inbound,
            size,
        },
        msg: Some(Msg::Ping(Ping { value: 1 })),
    }
}

#[test]
fn splits_messages_by_direction() {
    let mut peers = PeerTable::new();
    const INV: u16 = 0;
    const TX: u16 = 1;
    peers.record_message(100, &message(1, "inv", true, 40), INV);
    peers.record_message(200, &message(1, "inv", true, 60), INV);
    peers.record_message(300, &message(1, "tx", false, 250), TX);

    let peer = peers.get(1).expect("peer recorded");
    assert_eq!((peer.messages_in, peer.bytes_in), (2, 100));
    assert_eq!((peer.messages_out, peer.bytes_out), (1, 250));
    let counts = |id: u16| peer.commands.iter().find(|(k, _)| *k == id).unwrap().1;
    assert_eq!(counts(INV).inbound, 2);
    assert_eq!(counts(INV).inbound_bytes, 100);
    assert_eq!(counts(TX).outbound, 1);
    assert_eq!((peer.first_seen, peer.last_seen), (100, 300));
    assert_eq!(peer.duration_ms(), 200);
}

/// A misbehaving event carries no address, so it must not erase the address
/// learned from the peer's other events.
#[test]
fn misbehaving_does_not_clobber_a_known_address() {
    let mut peers = PeerTable::new();
    peers.record_message(100, &message(7, "version", true, 100), 0);
    assert_eq!(peers.get(7).unwrap().addr.as_deref(), Some("10.0.0.1:8333"));

    peers.record_connection(
        200,
        &ConnectionEvent {
            event: Some(ConnEvent::Misbehaving(MisbehavingConnection {
                id: 7,
                message: "invalid header".to_string(),
            })),
        },
    );

    let peer = peers.get(7).unwrap();
    assert_eq!(
        peer.addr.as_deref(),
        Some("10.0.0.1:8333"),
        "address survives"
    );
    assert_eq!(peer.lifecycle.len(), 1);
    assert_eq!(peer.lifecycle[0].kind, LifecycleKind::Misbehaving);
    assert_eq!(peer.lifecycle[0].message.as_deref(), Some("invalid header"));
}

/// A peer only ever seen misbehaving has no address at all, and that has to
/// be representable rather than faked as an empty string.
#[test]
fn a_peer_known_only_from_misbehaving_has_no_address() {
    let mut peers = PeerTable::new();
    peers.record_connection(
        10,
        &ConnectionEvent {
            event: Some(ConnEvent::Misbehaving(MisbehavingConnection {
                id: 3,
                message: "bad".to_string(),
            })),
        },
    );

    let peer = peers.get(3).expect("peer recorded");
    assert_eq!(peer.addr, None);
    assert_eq!(peer.conn_type, None);
}

/// The peer table sits outside the event store's retention budget, so an
/// archive of a churny node must not be able to grow it without limit.
#[test]
fn the_lifecycle_list_is_capped_but_the_total_is_exact() {
    let mut peers = PeerTable::new();
    let events = LIFECYCLE_CAP as u64 * 10;
    for i in 0..events {
        peers.record_connection(
            i,
            &ConnectionEvent {
                event: Some(ConnEvent::Misbehaving(MisbehavingConnection {
                    id: 1,
                    message: format!("strike {i}"),
                })),
            },
        );
    }

    let peer = peers.get(1).expect("peer recorded");
    assert_eq!(peer.lifecycle.len(), LIFECYCLE_CAP, "list is capped");
    assert_eq!(peer.lifecycle_total, events, "the count stays exact");
    assert_eq!(peer.events(), events, "totals use the real count");
    // The most recent events are the ones kept.
    assert_eq!(peer.lifecycle.last().unwrap().timestamp, events - 1);
    assert_eq!(peer.lifecycle[0].timestamp, events - LIFECYCLE_CAP as u64);
}

#[test]
fn records_the_connection_lifecycle() {
    let connection = || Connection {
        peer_id: 5,
        addr: "192.0.2.1:8333".to_string(),
        conn_type: ConnType::Inbound as i32,
        network: 1,
    };
    let mut peers = PeerTable::new();
    peers.record_connection(
        10,
        &ConnectionEvent {
            event: Some(ConnEvent::Inbound(InboundConnection {
                conn: connection(),
                existing_connections: 12,
            })),
        },
    );
    peers.record_connection(
        90,
        &ConnectionEvent {
            event: Some(ConnEvent::Closed(ClosedConnection {
                conn: connection(),
                time_established: 80,
            })),
        },
    );

    let peer = peers.get(5).unwrap();
    assert_eq!(peer.network, Some(1));
    assert_eq!(peer.lifecycle.len(), 2);
    assert_eq!(peer.lifecycle[0].existing_connections, Some(12));
    assert_eq!(peer.lifecycle[1].time_established, Some(80));
    assert_eq!(peer.events(), 2);
}

/// A name is kept once, however many peers go by it.
#[test]
fn user_agents_are_interned() {
    let mut peers = PeerTable::new();
    for id in 1..=3 {
        peers.record_message(100, &message(id, "version", true, 100), 0);
        peers.record_user_agent(id, "/Satoshi:29.0.0/", UserAgentSource::PeerInfo);
        peers.record_user_agent(id, "/Satoshi:29.0.0/", UserAgentSource::Version);
    }
    peers.record_user_agent(9, "/Ghost:1.0/", UserAgentSource::PeerInfo);
    peers.record_user_agent(3, "", UserAgentSource::Version);
    assert_eq!(peers.user_agent_counts(), vec![("/Satoshi:29.0.0/", 3)]);
    let first = peers.get(1).unwrap();
    assert_eq!(first.user_agent_source, Some(UserAgentSource::Version));
    assert_eq!(
        peers.user_agent(first.user_agent.unwrap()),
        Some("/Satoshi:29.0.0/")
    );
    assert_eq!(peers.user_agent(1), None);
    assert_eq!(peers.len(), 3);
    assert_eq!(peers.peer_id_at(2), Some(3));
    assert_eq!(peers.peer_id_at(3), None);
}

fn ended(peer_id: u64, conn_type: i32, time_established: u64) -> ClosedConnection {
    ClosedConnection {
        conn: Connection {
            peer_id,
            addr: "10.0.0.1:8333".to_string(),
            conn_type,
            network: 1,
        },
        time_established,
    }
}

fn record(peers: &mut PeerTable, timestamp: u64, event: ConnEvent) {
    peers.record_connection(timestamp, &ConnectionEvent { event: Some(event) });
}

/// A peer that comes back again and again, its lifecycle past what is listed.
#[test]
fn a_peer_is_what_its_events_make_it() {
    let mut peers = PeerTable::new();
    peers.record_message(9_000, &message(4, "inv", true, 30), 0);
    peers.record_message(9_500, &message(4, "tx", false, 70), 1);
    peers.record_message(9_600, &message(6, "inv", true, 10), 0);
    for i in 0..10u64 {
        record(&mut peers, 8_000 + 1_000 * i, ConnEvent::Closed(ended(4, 1, 1)));
    }
    record(&mut peers, 20_000, ConnEvent::InboundEvicted(ended(4, 1, 1)));

    let peer = peers.get(4).expect("recorded");
    assert_eq!(peer.events(), 13);
    assert_eq!(peer.lifecycle_total, 11);
    assert_eq!(peer.lifecycle.len(), LIFECYCLE_CAP);
    assert_eq!(peer.lifecycle_counts.iter().sum::<u32>(), 11);
    assert_eq!(peer.lifecycle_counts[LifecycleKind::Closed.index()], 10);
    assert_eq!((peer.first_seen, peer.last_seen), (8_000, 20_000));
    assert_eq!(peer.duration_ms(), 12_000);

    let sum = |of: fn(&archive_viewer::peers::CommandCounts) -> u64| {
        peer.commands.iter().map(|(_, counts)| of(counts)).sum::<u64>()
    };
    assert_eq!(sum(|c| c.inbound), peer.messages_in);
    assert_eq!(sum(|c| c.outbound), peer.messages_out);
    assert_eq!(sum(|c| c.inbound_bytes), peer.bytes_in);
    assert_eq!(sum(|c| c.outbound_bytes), peer.bytes_out);
    assert_eq!((peer.bytes_in, peer.bytes_out), (30, 70));
}

#[test]
fn every_ended_connection_has_a_lifetime() {
    let mut peers = PeerTable::new();
    for i in 0..12u64 {
        let conn_type = i as i32 - 2;
        record(&mut peers, 50_000, ConnEvent::Closed(ended(4, conn_type, 1 + i)));
    }
    record(&mut peers, 50_000, ConnEvent::InboundEvicted(ended(4, 1, 40)));
    record(&mut peers, 50_000, ConnEvent::InboundEvicted(ended(9, 2, 90)));

    let durations = peers.durations();
    let closed: u64 = (0..5).map(|t| durations.closed(t).count()).sum();
    let evicted: u64 = (0..5).map(|t| durations.evicted(t).count()).sum();
    assert_eq!((closed, evicted), (12, 2));
    assert_eq!(durations.closed(0).count(), 3, "numbers below the first");
    assert_eq!(durations.closed(4).count(), 6, "and past the last");
    assert_eq!(durations.evicted(1).total_ms(), 10_000);
    assert_eq!(durations.evicted(2).total_ms(), 0, "clocks that disagree");
}

#[test]
fn a_peer_keeps_its_index() {
    let mut peers = PeerTable::new();
    let order = [40u64, 7, 12, 9];
    for (i, id) in order.iter().enumerate() {
        peers.record_message(1_000 - i as u64, &message(*id, "inv", true, 1), 0);
        peers.record_user_agent(*id, "/A/", UserAgentSource::PeerInfo);
        record(&mut peers, 2_000, ConnEvent::Closed(ended(order[0], 1, 1)));
        for (at, known) in order[..=i].iter().enumerate() {
            assert_eq!(peers.get(*known).unwrap().index, at as u32);
            assert_eq!(peers.peer_id_at(at as u32), Some(*known));
        }
        assert_eq!(peers.peer_id_at(i as u32 + 1), None);
        assert_eq!(peers.len(), i + 1);
    }
}

#[test]
fn user_agents_are_counted_by_name() {
    let mut peers = PeerTable::new();
    let agents = ["/B/", "/A/", "/C/", "/B/", "/A/", "/D/", "/B/"];
    for (i, agent) in agents.iter().enumerate() {
        let id = i as u64;
        peers.record_message(100, &message(id, "inv", true, 1), 0);
        peers.record_user_agent(id, agent, UserAgentSource::PeerInfo);
    }
    peers.record_message(100, &message(99, "inv", true, 1), 0);
    // The only one that went by it goes by another name now.
    peers.record_user_agent(5, "/A/", UserAgentSource::Version);
    let counts = peers.user_agent_counts();
    assert_eq!(counts, vec![("/A/", 3), ("/B/", 3), ("/C/", 1)]);
    assert_eq!(counts.iter().map(|(_, n)| n).sum::<u64>(), 7);
}

#[test]
fn durations_are_empty_until_a_connection_ends() {
    let mut peers = PeerTable::new();
    peers.record_message(100, &message(1, "inv", true, 1), 0);
    let inbound = InboundConnection {
        conn: ended(1, 1, 1).conn,
        existing_connections: 2,
    };
    record(&mut peers, 200, ConnEvent::Inbound(inbound));
    assert!(peers.durations().is_empty());
    record(&mut peers, 300, ConnEvent::InboundEvicted(ended(1, 1, 900)));
    assert!(!peers.durations().is_empty());
    assert_eq!(peers.durations().all(1).count(), 1);
}

/// Names that others go by already are won and lost like new ones.
#[test]
fn a_version_message_wins_with_names_that_are_known() {
    let mut peers = PeerTable::new();
    for id in 0..4 {
        peers.record_message(100, &message(id, "inv", true, 1), 0);
    }
    peers.record_user_agent(0, "/wire/", UserAgentSource::PeerInfo);
    peers.record_user_agent(1, "/polled/", UserAgentSource::PeerInfo);
    peers.record_user_agent(2, "/polled/", UserAgentSource::PeerInfo);
    peers.record_user_agent(2, "/wire/", UserAgentSource::Version);
    peers.record_user_agent(3, "/wire/", UserAgentSource::Version);
    peers.record_user_agent(3, "/polled/", UserAgentSource::PeerInfo);
    for id in [2, 3] {
        let peer = peers.get(id).unwrap();
        assert_eq!(peers.user_agent(peer.user_agent.unwrap()), Some("/wire/"));
        assert_eq!(peer.user_agent_source, Some(UserAgentSource::Version));
    }
    assert_eq!(peers.user_agent_counts(), vec![("/wire/", 3), ("/polled/", 1)]);
}
