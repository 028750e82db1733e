use archive_viewer::analysis::Analysis;
use archive_viewer::decode::frame_record;
use archive_viewer::exchange::Tie;
use archive_viewer::peers::LifecycleKind;
use archive_viewer::messages::Decoded;
use archive_viewer::proto::{
    ArchiveHeader, ClosedConnection, ConnEvent, ConnType, Connection, ConnectionEvent, Ebpf,
    EbpfEvent, Event, InboundConnection, Inv, InventoryItem, Item, MessageEvent, Metadata, Msg,
    PeerInfo, PeerInfos, PeerObserverEvent, Ping, Rpc, RpcEvent, Transaction, Tx, Version,
};
use archive_viewer::relay::Ratio;
use archive_viewer::view::{
    connection_durations, exchanges, groups_present, peer_activity, peer_detail, peer_raster,
    peers, progress, query, relay, sequence, summary, timeline, timeline_group, user_agents,
    Filter, QueryCache,
};
use std::collections::VecDeque;

const BUDGET: u64 = 64 * 1024 * 1024;

/// A record's bytes. The same event always has the same ones.
fn encode(event: &Event) -> Vec<u8> {
    let Some(message) = message_in(event) else {
        return format!("{event:?}").into_bytes();
    };
    let meta = &message.meta;
    let mut out = format!(
        "{}|{}|{}|{}|{}|{}|{}|",
        event.timestamp,
        meta.peer_id,
        meta.addr,
        meta.conn_type,
        meta.command,
        meta.inbound,
        meta.size
    )
    .into_bytes();
    match &message.msg {
        Some(Msg::Ping(ping)) => out.extend_from_slice(&ping.value.to_le_bytes()),
        Some(Msg::Unknown(unknown)) => out.extend_from_slice(&unknown.payload),
        Some(Msg::Tx(tx)) => {
            out.extend_from_slice(&tx.tx.txid);
            out.extend_from_slice(&tx.tx.wtxid);
            out.extend_from_slice(tx.tx.raw.as_deref().unwrap_or(&[]));
        }
        other => out.extend_from_slice(format!("{other:?}").as_bytes()),
    }
    out
}

fn message_in(event: &Event) -> Option<&MessageEvent> {
    let Some(PeerObserverEvent::EbpfExtractor(ebpf)) = &event.peer_observer_event else {
        return None;
    };
    match &ebpf.ebpf_event {
        Some(EbpfEvent::Message(message)) => Some(message),
        _ => None,
    }
}

fn encode_header(header: &ArchiveHeader) -> Vec<u8> {
    format!("{header:?}").into_bytes()
}

fn framed(record: &[u8]) -> Vec<u8> {
    let mut out = Vec::new();
    frame_record(record, &mut out);
    out
}

fn header(created: u64, low_data: Option<bool>) -> ArchiveHeader {
    ArchiveHeader { created, low_data }
}

/// The uncompressed record stream: one header followed by the events.
fn record_stream(header: &ArchiveHeader, events: &[Event]) -> Vec<u8> {
    let mut out = framed(&encode_header(header));
    for event in events {
        out.extend_from_slice(&framed(&encode(event)));
    }
    out
}

fn ebpf(ts: u64, event: EbpfEvent) -> Event {
    Event {
        timestamp: ts,
        peer_observer_event: Some(PeerObserverEvent::EbpfExtractor(Ebpf {
            ebpf_event: Some(event),
        })),
    }
}

/// A message event, the most common kind by far.
fn message_event(ts: u64, peer_id: u64, command: &str, inbound: bool, size: u64) -> Event {
    with_msg(
        ts,
        peer_id,
        command,
        inbound,
        size,
        Msg::Ping(Ping { value: ts }),
    )
}

fn with_msg(
    ts: u64,
    peer_id: u64,
    command: &str,
    inbound: bool,
    size: u64,
    msg: Msg,
) -> Event {
    ebpf(
        ts,
        EbpfEvent::Message(MessageEvent {
            meta: Metadata {
                peer_id,
                addr: format!("10.0.0.{}:8333", peer_id % 251),
                conn_type: ConnType::Inbound as i32,
                command: command.to_string(),
                inbound,
                size,
            },
            msg: Some(msg),
        }),
    )
}

/// An inbound-connection event.
fn connection_event(ts: u64, peer_id: u64) -> Event {
    ebpf(
        ts,
        EbpfEvent::Connection(ConnectionEvent {
            event: Some(ConnEvent::Inbound(InboundConnection {
                conn: Connection {
                    peer_id,
                    addr: format!("10.0.0.{}:8333", peer_id % 251),
                    conn_type: ConnType::Inbound as i32,
                    network: 1,
                },
                existing_connections: peer_id,
            })),
        }),
    )
}

/// Read the records that are due, given the events they encode, in order. A record
/// that does not encode the next of them is one that does not decode.
fn drain(analysis: &mut Analysis, opening: &ArchiveHeader, events: Vec<Event>) {
    let mut expected: VecDeque<Event> = events.into();
    while let Some(record) = analysis.next_record() {
        let decoded = if record.is_header() {
            if record.bytes == encode_header(opening) {
                Decoded::Header(*opening)
            } else {
                Decoded::Nothing
            }
        } else {
            match expected.pop_front() {
                Some(event) if encode(&event) == record.bytes => {
                    assert!(analysis.accepts(&event));
                    Decoded::Event(event)
                }
                Some(event) => {
                    expected.push_front(event);
                    Decoded::Nothing
                }
                None => Decoded::Nothing,
            }
        };
        if let Some(left) = analysis.record(&record, decoded) {
            analysis.retain(&left.columns, &encode(&left.event));
        }
    }
}

/// Read one uncompressed file of these events.
fn add_file(analysis: &mut Analysis, name: &str, opening: ArchiveHeader, events: Vec<Event>) {
    let stream = record_stream(&opening, &events);
    analysis.open_file(name.to_string(), stream.len() as u64);
    analysis.feed(&stream).expect("push");
    analysis.close_file();
    drain(analysis, &opening, events);
}

fn analysed(name: &str, opening: ArchiveHeader, events: Vec<Event>) -> Analysis {
    let mut analysis = Analysis::new(BUDGET);
    add_file(&mut analysis, name, opening, events);
    analysis
}

/// An inbound `inv` announcing transactions, by wtxid.
fn inv_event(ts: u64, peer_id: u64, hashes: &[u8]) -> Event {
    with_msg(
        ts,
        peer_id,
        "inv",
        true,
        37 * hashes.len() as u64,
        Msg::Inv(Inv {
            items: hashes
                .iter()
                .map(|seed| InventoryItem {
                    item: Some(Item::Wtx(vec![*seed; 32])),
                })
                .collect(),
        }),
    )
}

/// An inbound `tx` delivering one transaction.
fn tx_event(ts: u64, peer_id: u64, seed: u8, size: u64) -> Event {
    with_msg(
        ts,
        peer_id,
        "tx",
        true,
        size,
        Msg::Tx(Tx {
            tx: Transaction {
                txid: vec![seed; 32],
                wtxid: vec![seed; 32],
                raw: None,
            },
        }),
    )
}

/// The end of a connection, by being evicted or by being closed.
fn connection_end(
    ts: u64,
    peer_id: u64,
    conn_type: ConnType,
    established: u64,
    evicted: bool,
) -> Event {
    let ended = ClosedConnection {
        conn: Connection {
            peer_id,
            addr: format!("10.0.0.{}:8333", peer_id % 251),
            conn_type: conn_type as i32,
            network: 1,
        },
        time_established: established,
    };
    ebpf(
        ts,
        EbpfEvent::Connection(ConnectionEvent {
            event: Some(if evicted {
                ConnEvent::InboundEvicted(ended)
            } else {
                ConnEvent::Closed(ended)
            }),
        }),
    )
}

fn version_event(ts: u64, peer_id: u64, user_agent: &str, inbound: bool) -> Event {
    with_msg(
        ts,
        peer_id,
        "version",
        inbound,
        102,
        Msg::Version(Version {
            user_agent: user_agent.to_string(),
        }),
    )
}

fn peer_infos_event(ts: u64, infos: &[(u32, &str)]) -> Event {
    Event {
        timestamp: ts,
        peer_observer_event: Some(PeerObserverEvent::RpcExtractor(Rpc {
            rpc_event: Some(RpcEvent::PeerInfos(PeerInfos {
                infos: infos
                    .iter()
                    .map(|(id, subversion)| PeerInfo {
                        id: *id,
                        subversion: subversion.to_string(),
                    })
                    .collect(),
            })),
        })),
    }
}

fn loaded() -> Analysis {
    let mut events = Vec::new();
    for i in 0..100u64 {
        events.push(message_event(1_000 + i * 10, i % 5, "inv", i % 2 == 0, 40));
    }
    for i in 0..10u64 {
        events.push(connection_event(1_000 + i * 100, i % 5));
    }
    analysed("test.bin", header(1_700_000_000, Some(false)), events)
}

fn quotient(ratio: Ratio) -> f64 {
    ratio.part as f64 / ratio.whole as f64
}

fn groups(names: &[&str]) -> Filter {
    Filter {
        groups: names.iter().map(|name| name.to_string()).collect(),
        ..Default::default()
    }
}

#[test]
fn summary_reports_totals_and_a_sorted_breakdown() {
    let analysis = loaded();
    let summary = summary(&analysis);

    assert_eq!(summary.totals.events, 110);
    assert_eq!(summary.totals.peers, 5);
    assert_eq!(summary.files[0].low_data, Some(false));
    assert_eq!(summary.files[0].compression, Some("none"));

    let breakdown = &summary.breakdown;
    assert_eq!(breakdown[0].info.name, "inv", "sorted by count, descending");
    assert_eq!(breakdown[0].count, 100);
    let total: u64 = breakdown.iter().map(|b| b.count).sum();
    assert_eq!(total, 110);

    let shares: f64 = breakdown.iter().map(|b| 100.0 * quotient(b.share)).sum();
    assert!(
        (shares - 100.0).abs() < 1e-6,
        "shares add up to 100%, got {shares}"
    );
    assert_eq!(
        breakdown[0].share,
        Ratio {
            part: 100,
            whole: 110
        }
    );
    assert_eq!(breakdown[1].label, "connection inbound");
    assert_eq!(summary.retention.retained, 110);
    assert!(!summary.retention.full);
    assert_eq!(summary.retention.stopped_because, None);
}

#[test]
fn progress_counts_what_was_read() {
    let analysis = loaded();
    let progress = progress(&analysis);
    assert_eq!(progress.events, 110);
    assert_eq!(progress.peers, 5);
    assert_eq!(progress.decode_errors, 0);
    assert_eq!(progress.compressed_bytes, progress.decompressed_bytes);
}

#[test]
fn timeline_downsamples_without_losing_events() {
    let analysis = loaded();
    let timeline = timeline(&analysis, 8);

    let count = timeline.count;
    assert!(
        count <= 8,
        "downsampled to at most the requested bins, got {count}"
    );

    let series = &timeline.series;
    assert_eq!(series.len(), 8, "one series per group");
    assert_eq!(timeline.names.len(), 8);
    let total: u64 = series.iter().flatten().sum();
    assert_eq!(total, 110, "downsampling preserves every event");
    assert!(timeline.bin_ms >= 1);
}

#[test]
fn timeline_of_an_empty_analysis_is_well_formed() {
    let analysis = Analysis::new(BUDGET);
    let timeline = timeline(&analysis, 100);

    assert_eq!(timeline.count, 0);
    assert_eq!(timeline.names.len(), 8);
}

#[test]
fn peers_sort_and_page() {
    let analysis = loaded();

    let page = peers(&analysis, "events", true, 0, 3);
    assert_eq!(page.total, 5);
    let rows = &page.rows;
    assert_eq!(rows.len(), 3);
    let counts: Vec<u64> = rows.iter().map(|r| r.events).collect();
    assert!(
        counts.windows(2).all(|w| w[0] >= w[1]),
        "descending: {counts:?}"
    );

    // Paging continues where the first page stopped.
    let second = peers(&analysis, "events", true, 3, 3);
    assert_eq!(second.rows.len(), 2);
    assert_eq!(second.offset, 3);
}

#[test]
fn peer_detail_lists_commands_and_lifecycle() {
    let analysis = loaded();
    let detail = peer_detail(&analysis, 0).expect("found");

    assert_eq!(detail.row.peer.peer_id, 0);
    assert_eq!(detail.row.conn_type, Some("inbound"));
    let commands = &detail.commands;
    assert_eq!(commands[0].command, "inv");
    assert!(commands[0].total > 0);
    assert_eq!(detail.lifecycle.len(), 2);

    assert!(peer_detail(&analysis, 9_999).is_none());
}

#[test]
fn an_unfiltered_query_pages_through_every_event() {
    let analysis = loaded();
    let mut cache = QueryCache::new();
    let filter = Filter::default();

    let first = query(&analysis, &mut cache, &filter, 0, 10);
    assert_eq!(first.total, 110);
    assert_eq!(first.rows.len(), 10);
    assert_eq!(first.rows[0].row.index, 0);

    let last = query(&analysis, &mut cache, &filter, 105, 10);
    assert_eq!(last.rows.len(), 5, "clamped at the end");
}

#[test]
fn filters_by_group_peer_time_and_text() {
    let analysis = loaded();
    let mut cache = QueryCache::new();

    let by_group = groups(&["connection"]);
    assert_eq!(query(&analysis, &mut cache, &by_group, 0, 5).total, 10);

    let by_peer = Filter {
        peer_ids: vec![0],
        ..Default::default()
    };
    let peer_result = query(&analysis, &mut cache, &by_peer, 0, 100);
    assert_eq!(
        peer_result.total, 22,
        "20 messages and 2 connection events"
    );
    for row in &peer_result.rows {
        assert_eq!(row.peer.expect("a peer").peer_id, 0);
    }

    let by_time = Filter {
        time_from: Some(1_000),
        time_to: Some(1_090),
        ..Default::default()
    };
    let timed = query(&analysis, &mut cache, &by_time, 0, 100);
    for row in &timed.rows {
        let ts = row.row.timestamp;
        assert!((1_000..=1_090).contains(&ts));
    }

    let by_text = Filter {
        text: "inv".into(),
        ..Default::default()
    };
    assert_eq!(query(&analysis, &mut cache, &by_text, 0, 5).total, 100);

    // Text also matches the peer address.
    let by_addr = Filter {
        text: "10.0.0.1:".into(),
        ..Default::default()
    };
    assert!(query(&analysis, &mut cache, &by_addr, 0, 5).total > 0);

    // A kind is asked for by its id.
    let by_kind = Filter {
        kinds: vec![1],
        ..Default::default()
    };
    assert_eq!(query(&analysis, &mut cache, &by_kind, 0, 5).total, 10);
}

/// Combining filters must narrow, not widen.
#[test]
fn filters_combine_conjunctively() {
    let analysis = loaded();
    let mut cache = QueryCache::new();
    let filter = Filter {
        groups: vec!["message".into()],
        peer_ids: vec![1],
        ..Default::default()
    };

    let result = query(&analysis, &mut cache, &filter, 0, 100);
    for row in &result.rows {
        assert_eq!(row.info.expect("a kind").group.as_str(), "message");
        assert_eq!(row.peer.expect("a peer").peer_id, 1);
    }
    assert_eq!(result.total, 20);
}

/// The cache must not serve stale results when the filter changes or more
/// events arrive.
#[test]
fn the_query_cache_invalidates_correctly() {
    let mut analysis = loaded();
    let mut cache = QueryCache::new();

    let connections = groups(&["connection"]);
    assert_eq!(query(&analysis, &mut cache, &connections, 0, 5).total, 10);

    let messages = groups(&["message"]);
    assert_eq!(query(&analysis, &mut cache, &messages, 0, 5).total, 100);

    // Same filter again, from cache.
    assert_eq!(query(&analysis, &mut cache, &messages, 0, 5).total, 100);

    // More events arrive: the cached total must be recomputed.
    add_file(
        &mut analysis,
        "second.bin",
        header(1, None),
        vec![message_event(9_000, 1, "inv", true, 40)],
    );
    assert_eq!(query(&analysis, &mut cache, &messages, 0, 5).total, 101);
}

#[test]
fn a_group_timeline_breaks_the_group_down_by_kind() {
    let analysis = loaded();
    let breakdown = timeline_group(&analysis, "connection", 8);

    let names = &breakdown.names;
    assert_eq!(names.len(), 1, "the fixture only has inbound connections");
    assert_eq!(names[0], "inbound");

    let plotted: u64 = breakdown.series.iter().flatten().sum();
    assert_eq!(plotted, 10, "every connection event is plotted");
}

/// A group with more kinds than the palette can carry folds the tail into one
/// bucket rather than dropping it.
#[test]
fn a_group_timeline_folds_excess_kinds_into_other() {
    let mut events = Vec::new();
    for i in 0..40u64 {
        // 20 distinct commands, with decreasing frequency.
        let command = format!("cmd{:02}", i % 20);
        for _ in 0..(20 - (i % 20)) {
            events.push(message_event(1_000 + i, 1, &command, true, 10));
        }
    }
    let count = events.len() as u64;
    let analysis = analysed("a.bin", header(1, None), events);

    let breakdown = timeline_group(&analysis, "message", 16);
    let names = &breakdown.names;

    assert_eq!(names.len(), 9, "eight kinds plus one 'other' bucket");
    assert!(
        names.last().unwrap().starts_with("other ("),
        "got {names:?}"
    );

    let plotted: u64 = breakdown.series.iter().flatten().sum();
    assert_eq!(plotted, count, "folding loses nothing");
}

#[test]
fn groups_present_lists_only_groups_with_events_busiest_first() {
    let analysis = loaded();
    assert_eq!(groups_present(&analysis), vec!["message", "connection"]);
    assert!(groups_present(&Analysis::new(BUDGET)).is_empty());
}

/// A bare kind name like `rejected` or `closed` is meaningless on its own, so
/// non-message kinds carry their group in the event table.
#[test]
fn event_labels_qualify_ambiguous_kinds() {
    let analysis = loaded();
    let mut cache = QueryCache::new();

    let messages = query(&analysis, &mut cache, &groups(&["message"]), 0, 1);
    assert_eq!(
        messages.rows[0].label.as_deref(),
        Some("inv"),
        "commands stand alone"
    );

    let connections = query(&analysis, &mut cache, &groups(&["connection"]), 0, 1);
    assert_eq!(
        connections.rows[0].label.as_deref(),
        Some("connection inbound")
    );
}

/// `time_established` is a UNIX epoch timestamp in seconds, not a duration.
/// Reporting it as one would show a connection as having lived for decades.
#[test]
fn lifecycle_events_report_a_real_connection_lifetime() {
    let established_secs = 1_700_000_000u64;
    let closed_ms = established_secs * 1000 + 4_500; // 4.5 s later
    let event = ebpf(
        closed_ms,
        EbpfEvent::Connection(ConnectionEvent {
            event: Some(ConnEvent::Closed(ClosedConnection {
                conn: Connection {
                    peer_id: 1,
                    addr: "10.0.0.1:8333".into(),
                    conn_type: ConnType::Inbound as i32,
                    network: 1,
                },
                time_established: established_secs,
            })),
        }),
    );
    let analysis = analysed("a.bin", header(1, None), vec![event]);

    let detail = peer_detail(&analysis, 1).expect("found");
    let entry = &detail.lifecycle[0];
    assert_eq!(entry.event.kind, LifecycleKind::Closed);
    assert_eq!(entry.event.kind.as_str(), "closed");
    assert_eq!(
        entry.lifetime_ms,
        Some(4_500),
        "lifetime, not the raw timestamp"
    );
    assert_eq!(entry.established_at, Some(established_secs * 1000));
}

#[test]
fn the_sequence_view_ties_requests_to_their_replies() {
    // One peer's transaction relay round trip, plus a ping that is answered
    // and a stray unsolicited addrv2 that is not.
    let events = vec![
        message_event(1_000, 3, "inv", true, 37),
        message_event(1_050, 3, "getdata", false, 37),
        message_event(1_200, 3, "tx", true, 250),
        message_event(1_260, 3, "tx", true, 190),
        message_event(1_300, 3, "addrv2", true, 60),
        message_event(1_400, 3, "ping", false, 32),
        message_event(1_512, 3, "pong", true, 32),
    ];
    let analysis = analysed("test.bin", header(1_700_000_000, Some(false)), events);

    let mut cache = QueryCache::new();
    let page = sequence(&analysis, &mut cache, &Filter::default(), 0, 100);

    // The rows are exactly what `query` returns.
    let rows = &page.rows;
    assert_eq!(rows.len(), 7);
    assert_eq!(rows[0].info.expect("a kind").name, "inv");

    let ties: Vec<(usize, usize, u64)> = page
        .ties
        .iter()
        .map(|t| (t.request, t.reply, t.elapsed_ms))
        .collect();
    assert_eq!(
        ties,
        vec![(0, 1, 50), (1, 2, 150), (1, 3, 210), (5, 6, 112)],
        "inv -> getdata -> two tx, and ping -> pong; the addrv2 is untied"
    );
}

#[test]
fn sequence_ties_are_positions_within_the_page() {
    let analysis = loaded();
    let mut cache = QueryCache::new();
    // `loaded()` alternates inbound and outbound `inv`, so an outbound inv is
    // never answered by a getdata -- what matters here is that a second page
    // numbers its ties from zero rather than from the offset.
    let page = sequence(&analysis, &mut cache, &Filter::default(), 50, 10);
    assert_eq!(page.offset, 50);
    assert_eq!(page.rows.len(), 10);
    for tie in &page.ties {
        assert!(tie.reply < 10);
        assert!(tie.request < tie.reply);
    }

    // The same conversation seen through a later window.
    let events = vec![
        message_event(1_000, 3, "inv", true, 37),
        message_event(1_400, 3, "ping", false, 32),
        message_event(1_512, 3, "pong", true, 32),
    ];
    let analysis = analysed("test.bin", header(1, None), events);
    let mut cache = QueryCache::new();
    let page = sequence(&analysis, &mut cache, &Filter::default(), 1, 10);
    assert_eq!(
        page.ties,
        vec![Tie {
            request: 0,
            reply: 1,
            elapsed_ms: 112
        }]
    );
}

/// A short transaction-relay conversation: two peers race to announce two
/// transactions, and both deliver one of them.
fn relay_archive() -> Analysis {
    let events = vec![
        // Peer 3 announces tx A first; peer 4 is 250 ms behind.
        inv_event(1_000, 3, &[0xA1]),
        inv_event(1_250, 4, &[0xA1]),
        // Peer 4 gets tx B in first.
        inv_event(1_400, 4, &[0xB2]),
        inv_event(1_900, 3, &[0xB2]),
        // We ask peer 3 for A and it delivers.
        message_event(2_000, 3, "getdata", false, 37),
        tx_event(2_100, 3, 0xA1, 400),
        // Peer 4 sends A too: bytes we already had.
        tx_event(2_500, 4, 0xA1, 400),
        // A ping that is answered, and one that never is.
        message_event(3_000, 3, "ping", false, 32),
        message_event(3_120, 3, "pong", true, 32),
        message_event(4_000, 4, "ping", false, 32),
        // The archive has to outlast the ping window, or that last ping is
        // still in flight when the stream ends rather than unanswered.
        message_event(4_000 + 21 * 60 * 1_000, 3, "feefilter", false, 32),
    ];
    analysed("relay.bin", header(1_700_000_000, Some(false)), events)
}

#[test]
fn relay_reports_the_announcement_race_and_what_duplicates_cost() {
    let analysis = relay_archive();
    let relay = relay(&analysis, "first", true, 10);

    assert_eq!(relay.items, 2, "two transactions");
    assert_eq!(relay.announcements, 4);
    assert_eq!(relay.late_announcements, 2);
    assert_eq!(relay.deliveries, 2);
    assert_eq!(relay.duplicate_deliveries, 1);
    assert_eq!(relay.duplicate_bytes, 400);
    assert_eq!(relay.duplicate_factor.map(quotient), Some(2.0));
    assert!(!relay.capped);

    // Each peer won one race, so both have a 50% win ratio.
    let rows = &relay.rows;
    assert_eq!(rows.len(), 2);
    for row in rows {
        assert_eq!(row.record.first, 1);
        assert_eq!(row.record.late, 1);
        assert_eq!(row.win_ratio.map(quotient), Some(0.5));
        assert!(
            row.peer.expect("a peer").addr.is_some(),
            "the scorecard names the peer"
        );
    }

    // Only peer 4 sent a transaction we already had.
    let by_id = |id: u64| rows.iter().find(|r| r.peer_id == id).unwrap();
    assert_eq!(by_id(3).record.duplicate_bytes, 0);
    assert_eq!(by_id(4).record.duplicate_bytes, 400);
    assert_eq!(by_id(4).record.duplicate, 1);
}

#[test]
fn the_relay_scorecard_sorts_by_the_column_asked_for() {
    let analysis = relay_archive();
    let by_duplicates = relay(&analysis, "duplicateBytes", true, 10);
    assert_eq!(by_duplicates.rows[0].peer_id, 4);

    let ascending = relay(&analysis, "duplicateBytes", false, 10);
    assert_eq!(ascending.rows[0].peer_id, 3);

    // A limit truncates the listing but not the totals.
    let one = relay(&analysis, "first", true, 1);
    assert_eq!(one.rows.len(), 1);
    assert_eq!(one.peers, 2);
}

#[test]
fn exchanges_report_what_each_request_kind_got_back() {
    let analysis = relay_archive();
    let page = exchanges(&analysis);
    let rows = &page.rows;
    let find = |name: &str| rows.iter().find(|r| r.request == name);

    let ping = find("ping").expect("pings were sent");
    assert_eq!(ping.stats.opened, 2);
    assert_eq!(ping.stats.answered, 1);
    assert_eq!(ping.unanswered, 1, "peer 4 never answered");
    assert_eq!(ping.undetermined, 0);
    assert!(!ping.optional);
    assert_eq!(ping.peer_latency.count, 1);
    assert_eq!(ping.peer_latency.max_ms, 120);

    // An announcement is never counted as a failure to answer.
    let inv = find("inv").expect("invs were sent");
    assert!(inv.optional);
    assert_eq!(inv.unanswered, 0);

    // Every reported exchange names the commands that answer it.
    for row in rows {
        assert!(!row.replies.is_empty());
        assert!(row.stats.opened > 0);
    }
}

#[test]
fn peer_detail_carries_the_relay_record() {
    let analysis = relay_archive();

    // Reply times and unanswered counts are archive-wide, not per peer: see
    // `exchanges_report_what_each_request_kind_got_back`. What is per peer is
    // the relay scorecard, because who announced first is a fact about a peer.
    let three = peer_detail(&analysis, 3).expect("found");
    let record = three.relay.expect("it relayed").record;
    assert_eq!(record.first, 1);
    assert_eq!(record.late, 1);

    // A peer that never relayed anything says so rather than inventing zeroes.
    let quiet = analysed(
        "q.bin",
        header(1, None),
        vec![message_event(1_000, 9, "addrv2", true, 60)],
    );
    assert!(peer_detail(&quiet, 9).expect("found").relay.is_none());
}

#[test]
fn silence_says_nothing_when_the_reply_was_never_captured() {
    // What an archive captured with a message filter looks like: `version` was
    // recorded, `verack` was not. Every handshake then appears unanswered, and
    // reporting that as peers failing to answer would be plainly wrong.
    let events = || {
        let mut events = Vec::new();
        for i in 0..20u64 {
            events.push(message_event(1_000 + i * 10, i, "version", false, 102));
        }
        // Long enough after for the handshake window to have passed.
        events.push(message_event(
            1_000 + 5 * 60 * 1_000,
            99,
            "addrv2",
            true,
            60,
        ));
        events
    };
    let analysis = analysed("filtered.bin", header(1, None), events());

    let page = exchanges(&analysis);
    let version = page
        .rows
        .iter()
        .find(|r| r.request == "version")
        .expect("versions were sent");
    assert_eq!(version.stats.opened, 20);
    assert!(version.unanswered > 0, "they do look unanswered");
    assert!(
        !version.replies_captured,
        "but no verack appears anywhere in the archive"
    );
    assert!(!page.unanswered_meaningful);

    // The same archive with veracks in it is trustworthy again.
    let mut with_verack = events();
    with_verack.insert(1, message_event(1_005, 0, "verack", true, 24));
    let answered = analysed("full.bin", header(1, None), with_verack);
    let page = exchanges(&answered);
    let version = page
        .rows
        .iter()
        .find(|r| r.request == "version")
        .unwrap();
    assert!(version.replies_captured);
    assert!(page.unanswered_meaningful);
}

#[test]
fn reply_times_are_reported_per_request_kind_across_every_peer() {
    let analysis = relay_archive();
    let page = exchanges(&analysis);
    let rows = &page.rows;
    let ping = rows.iter().find(|r| r.request == "ping").unwrap();

    // One distribution per request kind, not per peer: a single number per peer
    // would fold a ping round trip together with a `getaddr` that Core answers
    // on a thirty-second timer.
    assert_eq!(ping.peer_latency.count, 1);
    assert_eq!(ping.peer_latency.p50_ms, Some(120));
    assert_eq!(ping.our_latency.count, 0, "nobody pinged this node");

    // The bucket edges travel with the counts, so the page never has to know
    // how the histogram is laid out.
    let latency = &ping.peer_latency;
    let edges = &latency.edges;
    assert_eq!(edges.len(), latency.buckets.len());
    assert_eq!(edges[0].0, 0);
    assert!(
        edges.last().unwrap().1.is_none(),
        "the last bucket is open-ended"
    );

    // Both directions are measured: this node answered peer 3's getdata-driven
    // transaction requests, and its own getdata was answered by the peer.
    let getdata = rows.iter().find(|r| r.request == "getdata").unwrap();
    assert!(getdata.peer_latency.count > 0);
}

#[test]
fn unanswered_requests_say_which_side_stayed_silent() {
    // This node asks peer 3 and is ignored; peer 4 asks this node and is
    // ignored. Adding those together would hide both.
    let events = vec![
        message_event(1_000, 3, "getaddr", false, 24),
        message_event(1_100, 4, "getaddr", true, 24),
        message_event(1_000 + 10 * 60 * 1_000, 3, "feefilter", false, 32),
    ];
    let analysis = analysed("silent.bin", header(1, None), events);

    let page = exchanges(&analysis);
    let getaddr = page
        .rows
        .iter()
        .find(|r| r.request == "getaddr")
        .expect("getaddrs were sent");
    assert_eq!(getaddr.stats.opened, 2);
    assert_eq!(getaddr.unanswered, 2);
    assert_eq!(
        getaddr.stats.unanswered_by_peers, 1,
        "peer 3 ignored this node"
    );
    assert_eq!(
        getaddr.stats.unanswered_by_us, 1,
        "this node ignored peer 4"
    );
}

/// Two peers with overlapping but distinct activity, and a connection event.
fn activity_archive() -> Analysis {
    let mut events = vec![connection_event(1_000, 1)];
    // Peer 1 talks throughout; peer 2 only in the second half.
    for i in 0..40u64 {
        events.push(message_event(1_000 + i * 100, 1, "inv", i % 2 == 0, 100));
    }
    for i in 0..10u64 {
        events.push(message_event(3_000 + i * 100, 2, "tx", true, 250));
    }
    analysed("activity.bin", header(1, None), events)
}

fn sum(lane: &[(usize, u64)]) -> u64 {
    lane.iter().map(|(_, value)| *value).sum()
}

#[test]
fn peer_activity_rasters_each_peer_into_columns() {
    let analysis = activity_archive();
    let page = peer_activity(&analysis, &Filter::default(), 10, 50, 0, "first", "count");

    assert_eq!(page.frame.columns, 10);
    assert_eq!(page.rows.len(), 2);
    assert_eq!(page.peers, 2);
    assert!(!page.partial);

    let rows = &page.rows;
    // First-seen order: peer 1 connected first.
    assert_eq!(rows[0].peer.peer_id, 1);
    assert_eq!(rows[1].peer.peer_id, 2);

    // Every message lands in exactly one cell, and directions are separated.
    assert_eq!(sum(&rows[0].inbound), 20);
    assert_eq!(sum(&rows[0].outbound), 20);
    assert_eq!(sum(&rows[1].inbound), 10);
    assert_eq!(sum(&rows[1].outbound), 0, "peer 2 only ever received");

    // Columns are pairs of (column, value) and stay inside the grid.
    for row in rows {
        for lane in [&row.inbound, &row.outbound] {
            for (column, value) in lane {
                assert!(*column < 10);
                assert!(*value > 0, "empty cells are not sent");
            }
        }
    }

    // The connection event is a mark, not a dot.
    let marks = &rows[0].marks;
    assert_eq!(marks.len(), 1);
    assert_eq!(marks[0].kind.as_str(), "inbound");
    assert!(rows[0].marks_complete);
}

#[test]
fn peer_activity_weighs_by_bytes_when_asked() {
    let analysis = activity_archive();
    let by_bytes = peer_activity(&analysis, &Filter::default(), 10, 50, 0, "first", "bytes");
    assert!(by_bytes.scope.expect("drawn").by_bytes);

    // Peer 2 received ten 250-byte transactions.
    assert_eq!(sum(&by_bytes.rows[1].inbound), 2_500);
}

#[test]
fn peer_activity_filters_and_orders_its_rows() {
    let analysis = activity_archive();

    // Peer 2 was only seen for 900 ms, so a longer threshold drops it.
    let long = peer_activity(
        &analysis,
        &Filter::default(),
        10,
        50,
        2_000,
        "first",
        "count",
    );
    assert_eq!(long.rows.len(), 1);
    assert_eq!(long.rows[0].peer.peer_id, 1);
    assert_eq!(long.peers, 1, "the count reflects the threshold too");

    // Busiest first is a different order from first seen.
    let busiest = peer_activity(&analysis, &Filter::default(), 10, 50, 0, "events", "count");
    assert_eq!(busiest.rows[0].peer.peer_id, 1);

    // A row cap truncates but still reports how many there were.
    let capped = peer_activity(&analysis, &Filter::default(), 10, 1, 0, "first", "count");
    assert_eq!(capped.rows.len(), 1);
    assert_eq!(capped.peers, 2);

    // A brushed time range narrows the span rather than the peer list.
    let brushed = Filter {
        time_from: Some(3_000),
        time_to: Some(3_900),
        ..Default::default()
    };
    let window = peer_activity(&analysis, &brushed, 10, 50, 0, "first", "count");
    assert_eq!(window.frame.start, 3_000);
    assert_eq!(window.frame.end, 3_900);
    let peer2 = window
        .rows
        .iter()
        .find(|r| r.peer.peer_id == 2)
        .unwrap();
    assert_eq!(
        sum(&peer2.inbound),
        10,
        "every one of peer 2's messages is in the window"
    );
}

#[test]
fn peer_activity_of_an_empty_analysis_is_well_formed() {
    let analysis = Analysis::new(BUDGET);
    let page = peer_activity(&analysis, &Filter::default(), 100, 50, 0, "first", "count");
    assert_eq!(page.rows.len(), 0);
    assert_eq!(page.max, 0);
}

#[test]
fn a_peer_raster_gives_each_command_a_row_of_its_own() {
    // One peer, three commands, and a chart scoped to that peer's own lifetime
    // rather than the archive's.
    let mut events = vec![connection_event(1_000, 1)];
    for i in 0..20u64 {
        events.push(message_event(1_000 + i * 100, 1, "inv", true, 100));
    }
    for i in 0..10u64 {
        events.push(message_event(1_050 + i * 200, 1, "getdata", false, 60));
    }
    for i in 0..5u64 {
        events.push(message_event(1_500 + i * 300, 1, "tx", true, 250));
    }
    // Another peer's traffic, which must not appear on this one's chart.
    for i in 0..8u64 {
        events.push(message_event(3_000 + i * 100, 2, "ping", true, 32));
    }
    let analysis = analysed("raster.bin", header(1, None), events);

    let page = peer_raster(&analysis, 1, 40, 20).expect("found");
    assert_eq!(page.frame.start, 1_000);
    assert_eq!(
        page.frame.end, 2_900,
        "the peer's last message, not the archive's"
    );
    assert_eq!(page.frame.columns, 40);
    assert_eq!(page.commands, 3);

    // Busiest command first, and each direction on its own lane.
    let rows = &page.rows;
    assert_eq!(rows.len(), 3);
    for (row, kind, inbound, outbound) in [
        (&rows[0], "inv", 20, 0),
        (&rows[1], "getdata", 0, 10),
        (&rows[2], "tx", 5, 0),
    ] {
        assert_eq!(row.kind, kind);
        assert_eq!(row.total_in, inbound);
        assert_eq!(row.total_out, outbound);
        assert_eq!(sum(&row.inbound), inbound, "{kind} inbound cells");
        assert_eq!(sum(&row.outbound), outbound, "{kind} outbound cells");
    }

    // Every column referenced is on the chart, and the peak is a real cell.
    let mut peak = 0;
    for row in rows {
        for lane in [&row.inbound, &row.outbound] {
            for (column, value) in lane {
                assert!(*column < 40, "column on the chart");
                peak = peak.max(*value);
            }
        }
    }
    assert_eq!(page.max, peak);

    // The connection event is a mark, not traffic.
    let marks = &page.marks;
    assert_eq!(marks.len(), 1);
    assert_eq!(marks[0].kind.as_str(), "inbound");
    assert!(marks[0].column < 40);

    // Asking for fewer rows than there are commands drops the quietest, and
    // says how many there were.
    let capped = peer_raster(&analysis, 1, 40, 2).expect("found");
    assert_eq!(capped.rows.len(), 2);
    assert_eq!(capped.commands, 3, "the ones that did not fit are counted");
    assert_eq!(capped.rows[0].kind, "inv");
}

#[test]
fn a_peer_raster_survives_a_peer_seen_once() {
    // A peer with a single event has no duration to divide into columns.
    let events = vec![message_event(5_000, 42, "ping", true, 32)];
    let analysis = analysed("one.bin", header(1, None), events);

    let page = peer_raster(&analysis, 42, 100, 20).expect("found");
    assert_eq!(page.rows.len(), 1);
    assert_eq!(page.rows[0].kind, "ping");
    assert_eq!(page.rows[0].inbound, vec![(0, 1)]);

    // A peer that is not in the archive is reported as such, not as empty data.
    assert!(peer_raster(&analysis, 999, 100, 20).is_none());
}

#[test]
fn connection_durations_split_by_type_and_by_how_they_ended() {
    // Three inbound connections Core evicted after a second or so, one that
    // closed after an hour, and an outbound that lasted two hours.
    let base = 1_700_000_000u64;
    let ms = |s: u64| s * 1_000;
    let events = vec![
        connection_end(ms(base + 1), 1, ConnType::Inbound, base, true),
        connection_end(ms(base + 2), 2, ConnType::Inbound, base, true),
        connection_end(ms(base + 4), 3, ConnType::Inbound, base, true),
        connection_end(ms(base + 3_600), 4, ConnType::Inbound, base, false),
        connection_end(
            ms(base + 7_200),
            5,
            ConnType::OutboundFullRelay,
            base,
            false,
        ),
    ];
    let analysis = analysed("conn.bin", header(1, None), events);

    let all = connection_durations(&analysis, "all");
    assert_eq!(all.connections, 5);
    assert!(all.any);
    let rows = &all.rows;
    let by = |name: &str| rows.iter().find(|r| r.conn_type == name).unwrap();

    let inbound = by("inbound");
    assert_eq!(inbound.durations.count, 4);
    assert_eq!(inbound.evicted, 3);
    assert_eq!(inbound.closed, 1);
    assert_eq!(inbound.durations.min_ms, 1_000);
    assert_eq!(
        inbound.durations.max_ms, 3_600_000,
        "an hour, in the wide buckets"
    );

    let outbound = by("outbound-full-relay");
    assert_eq!(outbound.durations.count, 1);
    assert_eq!(outbound.durations.max_ms, 7_200_000);

    // Filtering by ending picks out one population.
    let evicted = connection_durations(&analysis, "evicted");
    let rows = &evicted.rows;
    assert_eq!(rows.len(), 1, "only inbound connections are evicted");
    assert_eq!(rows[0].durations.count, 3);
    assert_eq!(rows[0].durations.max_ms, 4_000);

    let closed = connection_durations(&analysis, "closed");
    assert_eq!(closed.connections, 2);

    // A type this node never had is left out rather than drawn empty.
    assert!(rows.iter().all(|r| r.conn_type != "feeler"));
}

#[test]
fn connection_durations_ignore_events_that_cannot_give_a_lifetime() {
    // An opening connection has no establishment time, and a close that claims
    // to have been established in the future must not become a huge duration.
    let base = 1_700_000_000u64;
    let events = vec![
        connection_event(base * 1_000, 1),
        connection_end(base * 1_000, 2, ConnType::Inbound, base + 10_000, false),
    ];
    let analysis = analysed("odd.bin", header(1, None), events);

    let page = connection_durations(&analysis, "all");
    assert_eq!(page.connections, 1, "only the close counts");
    assert_eq!(page.rows[0].durations.max_ms, 0, "clamped, not wrapped");

    // An archive with no connection events at all says so.
    let empty = Analysis::new(BUDGET);
    let none = connection_durations(&empty, "all");
    assert!(!none.any);
    assert_eq!(none.rows.len(), 0);
}

#[test]
fn a_peer_is_named_by_its_version_message() {
    let events = vec![
        version_event(1_000, 1, "/Satoshi:29.0.0/", true),
        version_event(1_100, 2, "/Satoshi:28.1.0/", true),
        version_event(1_200, 3, "/Satoshi:29.0.0/", true),
        // Outbound version carries this node's own agent, not the peer's.
        version_event(1_300, 4, "/ThisNode:1.0/", false),
    ];
    let analysis = analysed("ua.bin", header(1, None), events);

    let one = peer_detail(&analysis, 1).expect("found");
    assert_eq!(one.user_agent, Some("/Satoshi:29.0.0/"));
    assert_eq!(one.user_agent_from, Some("version"));
    assert!(
        peer_detail(&analysis, 4)
            .expect("found")
            .user_agent
            .is_none(),
        "an outbound version says nothing about the peer"
    );

    // Interned once, counted per peer, commonest first.
    let agents = user_agents(&analysis, 10);
    assert_eq!(agents.distinct, 2);
    assert_eq!(agents.named, 3);
    assert_eq!(agents.unknown, 1, "peer 4 never named itself");
    let rows = &agents.rows;
    assert_eq!(rows[0].0, "/Satoshi:29.0.0/");
    assert_eq!(rows[0].1, 2);
    assert_eq!(rows[1].1, 1);
}

#[test]
fn getpeerinfo_names_peers_the_version_messages_did_not() {
    // What an archive captured without the P2P message tracepoints looks like:
    // the peers are known from connection events, and only the RPC poll says
    // what they are.
    let events = vec![
        connection_event(1_000, 7),
        connection_event(1_010, 8),
        peer_infos_event(1_500, &[(7, "/Satoshi:27.0.0/"), (8, "/bcoin:2.2.0/")]),
        // A later poll repeating itself must not double-count or churn.
        peer_infos_event(2_500, &[(7, "/Satoshi:27.0.0/"), (8, "/bcoin:2.2.0/")]),
        // A peer this archive never otherwise saw is not invented from a poll.
        peer_infos_event(3_500, &[(99, "/Ghost:1.0/")]),
    ];
    let analysis = analysed("rpc.bin", header(1, None), events);

    let seven = peer_detail(&analysis, 7).expect("found");
    assert_eq!(seven.user_agent, Some("/Satoshi:27.0.0/"));
    assert_eq!(seven.user_agent_from, Some("getpeerinfo"));
    assert_eq!(
        peer_detail(&analysis, 8).expect("found").user_agent,
        Some("/bcoin:2.2.0/")
    );
    assert!(peer_detail(&analysis, 99).is_none());

    let agents = user_agents(&analysis, 10);
    assert_eq!(agents.distinct, 2, "the ghost peer interned nothing");
    assert_eq!(agents.named, 2);
    assert_eq!(agents.peers, 2);
}

#[test]
fn a_version_message_wins_over_the_rpc_snapshot() {
    // Both sources present. The version message is what the peer put on the
    // wire, so it is the one reported, whichever arrives first.
    for version_first in [true, false] {
        let mut events = vec![connection_event(1_000, 5)];
        let version = version_event(2_000, 5, "/FromTheWire:1/", true);
        let poll = peer_infos_event(3_000, &[(5, "/FromTheRpc:1/")]);
        if version_first {
            events.push(version);
            events.push(poll);
        } else {
            events.push(poll);
            events.push(version);
        }
        let analysis = analysed("both.bin", header(1, None), events);

        let detail = peer_detail(&analysis, 5).expect("found");
        assert_eq!(
            detail.user_agent,
            Some("/FromTheWire:1/"),
            "version_first={version_first}"
        );
        assert_eq!(detail.user_agent_from, Some("version"));
    }
}

/// A page of a table follows on from the one before it: together they are the table,
/// with no row twice and none left out.
#[test]
fn pages_join() {
    let analysis = loaded();
    let ids = |offset: usize, limit: usize| -> Vec<u64> {
        peers(&analysis, "messagesIn", false, offset, limit)
            .rows
            .iter()
            .map(|row| row.peer.peer_id)
            .collect()
    };
    let whole = ids(0, 100);
    let mut sorted = whole.clone();
    sorted.sort_unstable();
    assert_eq!(sorted, vec![0, 1, 2, 3, 4]);
    let mut joined = Vec::new();
    for offset in 0..7 {
        joined.extend(ids(offset, 1));
    }
    assert_eq!(joined, whole);
    assert!(ids(usize::MAX, usize::MAX).is_empty());

    let mut cache = QueryCache::new();
    let filter = groups(&["connection"]);
    let mut rows = Vec::new();
    for offset in [0, 4, 8, 12] {
        let page = query(&analysis, &mut cache, &filter, offset, 4);
        rows.extend(page.rows.iter().map(|line| line.row.index));
    }
    assert_eq!(rows, (100..110).collect::<Vec<u32>>());
}

/// A filter on an id no peer has finds nothing, not even the events that are about
/// no peer.
#[test]
fn an_unknown_peer_has_no_events() {
    let mut analysis = loaded();
    add_file(
        &mut analysis,
        "rpc.bin",
        header(1, None),
        vec![peer_infos_event(5_000, &[(1, "/Satoshi:27.0.0/")])],
    );
    let mut cache = QueryCache::new();
    let filter = Filter {
        peer_ids: vec![9_999],
        ..Default::default()
    };
    let page = query(&analysis, &mut cache, &filter, 0, 10);
    assert_eq!(page.total, 0);
    assert!(page.rows.is_empty());

    let everything = query(&analysis, &mut cache, &Filter::default(), 0, 1_000);
    let without_peer: Vec<_> = everything
        .rows
        .iter()
        .filter(|line| line.peer.is_none())
        .map(|line| line.label.as_deref())
        .collect();
    assert_eq!(without_peer, vec![Some("rpc peer_infos")]);
}

/// Text is matched whatever its case.
#[test]
fn text_filters_ignore_case() {
    let analysis = loaded();
    let mut cache = QueryCache::new();
    let filter = Filter {
        text: "InV".into(),
        ..Default::default()
    };
    assert_eq!(query(&analysis, &mut cache, &filter, 0, 5).total, 100);
}

/// Sorted the other way, a scorecard is the same one read from the bottom, and one
/// with fewer rows is the beginning of one with more.
#[test]
fn a_scorecard_can_be_turned_round() {
    let events = vec![
        inv_event(1_000, 3, &[0xA1, 0xA2]),
        inv_event(1_250, 4, &[0xA1]),
        inv_event(1_400, 5, &[0xB2]),
        inv_event(1_900, 6, &[0xA2]),
        tx_event(2_100, 3, 0xA1, 400),
        tx_event(2_500, 4, 0xA1, 400),
    ];
    let analysis = analysed("relay.bin", header(1_700_000_000, Some(false)), events);
    let ids = |column: &str, descending: bool, limit: usize| -> Vec<u64> {
        let rows = relay(&analysis, column, descending, limit).rows;
        rows.iter().map(|row| row.peer_id).collect()
    };
    for column in ["first", "late", "duplicateBytes", "peerId"] {
        let down = ids(column, true, 10);
        let mut up = ids(column, false, 10);
        assert_eq!(down.len(), 4);
        for limit in 0..4 {
            assert_eq!(ids(column, true, limit), down[..limit]);
            assert_eq!(ids(column, false, limit), up[..limit]);
        }
        up.reverse();
        assert_eq!(down, up, "by {column}");
    }
}

/// Whatever it is sorted by, a scorecard has every peer that relayed anything, once.
#[test]
fn a_scorecard_lists_every_peer_once() {
    let events = vec![
        inv_event(1_000, 3, &[0xA1]),
        inv_event(1_100, 9, &[0xA1]),
        tx_event(1_200, 7, 0xA1, 400),
        inv_event(1_300, 3, &[0xB2]),
        // Nothing that refers to a transaction.
        inv_event(1_400, 5, &[]),
        message_event(1_500, 6, "ping", true, 32),
    ];
    let analysis = analysed("relay.bin", header(1_700_000_000, Some(false)), events);
    for column in ["first", "late", "winRatio", "lag", "delivered", "duplicate", "nonsense"] {
        for descending in [true, false] {
            let view = relay(&analysis, column, descending, 10);
            let mut ids: Vec<u64> = view.rows.iter().map(|row| row.peer_id).collect();
            ids.sort();
            assert_eq!(ids, vec![3, 7, 9], "by {column}");
            assert_eq!(view.peers, 3);
        }
    }
}
