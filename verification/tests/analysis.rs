use archive_viewer::analysis::{Analysis, PendingRecord};
use archive_viewer::decode::{frame_record, DecodeError};
use archive_viewer::exchange::{is_optional, request_name, EXCHANGE_COUNT};
use archive_viewer::kind::{Category, Group, GROUPS, UNKNOWN};
use archive_viewer::messages::Decoded;
use archive_viewer::proto::{
    ArchiveHeader, ConnEvent, ConnType, Connection, ConnectionEvent, Ebpf, EbpfEvent, Event,
    InboundConnection, MessageEvent, Metadata, Msg, PeerObserverEvent, Ping, Transaction, Tx,
};
use archive_viewer::store::NO_PEER;
use std::collections::VecDeque;

const BIG_BUDGET: u64 = 64 * 1024 * 1024;

/// A record's bytes. The same event always has the same ones.
fn encode(event: &Event) -> Vec<u8> {
    let Some(message) = message_in(event) else {
        return format!("{event:?}").into_bytes();
    };
    let meta = &message.meta;
    let mut out = format!(
        "{}|{}|{}|{}|{}|{}|{}|",
        event.timestamp,
        meta.peer_id,
        meta.addr,
        meta.conn_type,
        meta.command,
        meta.inbound,
        meta.size
    )
    .into_bytes();
    match &message.msg {
        Some(Msg::Ping(ping)) => out.extend_from_slice(&ping.value.to_le_bytes()),
        Some(Msg::Unknown(unknown)) => out.extend_from_slice(&unknown.payload),
        Some(Msg::Tx(tx)) => {
            out.extend_from_slice(&tx.tx.txid);
            out.extend_from_slice(&tx.tx.wtxid);
            out.extend_from_slice(tx.tx.raw.as_deref().unwrap_or(&[]));
        }
        other => out.extend_from_slice(format!("{other:?}").as_bytes()),
    }
    out
}

fn message_in(event: &Event) -> Option<&MessageEvent> {
    let Some(PeerObserverEvent::EbpfExtractor(ebpf)) = &event.peer_observer_event else {
        return None;
    };
    match &ebpf.ebpf_event {
        Some(EbpfEvent::Message(message)) => Some(message),
        _ => None,
    }
}

fn encode_header(header: &ArchiveHeader) -> Vec<u8> {
    format!("{header:?}").into_bytes()
}

fn framed(record: &[u8]) -> Vec<u8> {
    let mut out = Vec::new();
    frame_record(record, &mut out);
    out
}

fn header(created: u64, low_data: Option<bool>) -> ArchiveHeader {
    ArchiveHeader { created, low_data }
}

/// The uncompressed record stream: one header followed by the events.
fn record_stream(header: &ArchiveHeader, events: &[Event]) -> Vec<u8> {
    let mut out = framed(&encode_header(header));
    for event in events {
        out.extend_from_slice(&framed(&encode(event)));
    }
    out
}

fn ebpf(ts: u64, event: EbpfEvent) -> Event {
    Event {
        timestamp: ts,
        peer_observer_event: Some(PeerObserverEvent::EbpfExtractor(Ebpf {
            ebpf_event: Some(event),
        })),
    }
}

/// A message event, the most common kind by far.
fn message_event(ts: u64, peer_id: u64, command: &str, inbound: bool, size: u64) -> Event {
    with_msg(
        ts,
        peer_id,
        command,
        inbound,
        size,
        Msg::Ping(Ping { value: ts }),
    )
}

fn with_msg(
    ts: u64,
    peer_id: u64,
    command: &str,
    inbound: bool,
    size: u64,
    msg: Msg,
) -> Event {
    ebpf(
        ts,
        EbpfEvent::Message(MessageEvent {
            meta: Metadata {
                peer_id,
                addr: format!("10.0.0.{}:8333", peer_id % 251),
                conn_type: ConnType::Inbound as i32,
                command: command.to_string(),
                inbound,
                size,
            },
            msg: Some(msg),
        }),
    )
}

/// An inbound-connection event.
fn connection_event(ts: u64, peer_id: u64) -> Event {
    ebpf(
        ts,
        EbpfEvent::Connection(ConnectionEvent {
            event: Some(ConnEvent::Inbound(InboundConnection {
                conn: Connection {
                    peer_id,
                    addr: format!("10.0.0.{}:8333", peer_id % 251),
                    conn_type: ConnType::Inbound as i32,
                    network: 1,
                },
                existing_connections: peer_id,
            })),
        }),
    )
}

/// A complete, properly terminated zstd archive.
fn compress(bytes: &[u8], level: i32) -> Vec<u8> {
    zstd::stream::encode_all(bytes, level).expect("zstd compress")
}

/// Read the records that are due, given the events they encode, in order. A record
/// that does not encode the next of them is one that does not decode.
fn drain(analysis: &mut Analysis, opening: &ArchiveHeader, events: Vec<Event>) {
    let mut expected: VecDeque<Event> = events.into();
    while let Some(record) = analysis.next_record() {
        let decoded = if record.is_header() {
            if record.bytes == encode_header(opening) {
                Decoded::Header(*opening)
            } else {
                Decoded::Nothing
            }
        } else {
            match expected.pop_front() {
                Some(event) if encode(&event) == record.bytes => {
                    assert!(analysis.accepts(&event));
                    Decoded::Event(event)
                }
                Some(event) => {
                    expected.push_front(event);
                    Decoded::Nothing
                }
                None => Decoded::Nothing,
            }
        };
        if let Some(left) = analysis.record(&record, decoded) {
            analysis.retain(&left.columns, &encode(&left.event));
        }
    }
}

/// An event with a timestamp but no arm set. It is valid, and must be classified,
/// not dropped.
fn event_without_an_arm(ts: u64) -> Event {
    Event {
        timestamp: ts,
        peer_observer_event: None,
    }
}

/// A `tx` message carrying `raw_len` bytes of raw transaction data: the shape
/// that dominates a full-data archive.
fn transaction_event(ts: u64, peer_id: u64, raw_len: usize) -> Event {
    let raw = if raw_len > 0 {
        Some(vec![0xAB; raw_len])
    } else {
        None
    };
    let mut event = with_msg(
        ts,
        peer_id,
        "tx",
        true,
        raw_len as u64,
        Msg::Tx(Tx {
            tx: Transaction {
                txid: vec![0x11; 32],
                wtxid: vec![0x22; 32],
                raw,
            },
        }),
    );
    event.timestamp = ts;
    event
}

fn feed(
    analysis: &mut Analysis,
    name: &str,
    bytes: &[u8],
    opening: &ArchiveHeader,
    events: Vec<Event>,
) {
    analysis.open_file(name.to_string(), bytes.len() as u64);
    for chunk in bytes.chunks(4096) {
        analysis.feed(chunk).expect("push");
    }
    analysis.close_file();
    drain(analysis, opening, events);
}

fn count_of(analysis: &Analysis, group: Group, name: &str) -> u64 {
    analysis
        .kinds
        .iter()
        .iter()
        .position(|info| info.group == group && info.name == name)
        .map(|id| analysis.counts[id])
        .unwrap_or(0)
}

#[test]
fn aggregates_a_whole_archive() {
    let header = header(1_700_000_000, Some(false));
    let mut events = Vec::new();
    for i in 0..300u64 {
        events.push(message_event(
            1_700_000_000_000 + i * 10,
            i % 20,
            "inv",
            i % 2 == 0,
            40,
        ));
    }
    for i in 0..15u64 {
        events.push(connection_event(1_700_000_000_000 + i * 100, i));
    }
    let count = events.len() as u64;
    let archive = compress(&record_stream(&header, &events), 3);

    let mut analysis = Analysis::new(BIG_BUDGET);
    feed(&mut analysis, "test.bin.zst", &archive, &header, events);

    assert_eq!(analysis.total_events, count);
    assert_eq!(analysis.decode_errors, 0);
    assert_eq!(count_of(&analysis, Group::EbpfMessage, "inv"), 300);
    assert_eq!(count_of(&analysis, Group::EbpfConnection, "inbound"), 15);

    // Every event is accounted for exactly once across all kinds.
    assert_eq!(analysis.counts.iter().sum::<u64>(), analysis.total_events);
    assert_eq!(analysis.histogram.total(), analysis.total_events);

    assert_eq!(analysis.first_timestamp, Some(1_700_000_000_000));
    assert_eq!(analysis.last_timestamp, Some(1_700_000_000_000 + 299 * 10));
    assert_eq!(analysis.duration_ms(), 2_990);

    // The header record is read but is not an event.
    let file = &analysis.files[0];
    assert_eq!(file.created, Some(1_700_000_000));
    assert_eq!(file.low_data, Some(false));
    assert_eq!(file.events, count);
    assert_eq!(file.compression, Some("zstd"));
    assert!(!file.truncated);
    assert!(file.error.is_none());
}

#[test]
fn attributes_events_to_peers() {
    let header = header(1, None);
    let events = vec![
        message_event(100, 1, "version", true, 100),
        message_event(200, 1, "verack", false, 24),
        message_event(300, 2, "inv", true, 61),
        connection_event(400, 1),
    ];
    let mut analysis = Analysis::new(BIG_BUDGET);
    feed(
        &mut analysis,
        "a.bin",
        &record_stream(&header, &events),
        &header,
        events,
    );

    assert_eq!(analysis.peers.len(), 2);
    let peer = analysis.peers.get(1).expect("peer 1");
    assert_eq!((peer.messages_in, peer.messages_out), (1, 1));
    assert_eq!((peer.bytes_in, peer.bytes_out), (100, 24));
    assert_eq!(peer.lifecycle.len(), 1);
    assert_eq!(analysis.peers.get(2).unwrap().messages_in, 1);

    // The store's dense peer index resolves back to the right peer id.
    let row = analysis.store.row(0).expect("first event retained");
    assert_ne!(row.peer, NO_PEER);
    assert_eq!(analysis.peers.peer_id_at(row.peer), Some(1));
    assert_eq!(row.inbound(), Some(true));
    assert_eq!(row.size, 100);

    // A connection event has a peer but no direction.
    let conn_row = analysis.store.row(3).unwrap();
    assert_eq!(analysis.peers.peer_id_at(conn_row.peer), Some(1));
    assert_eq!(conn_row.inbound(), None);
}

/// The central promise of the memory budget: aggregates still cover every
/// event, only retention stops.
#[test]
fn aggregation_continues_after_the_retention_budget_is_spent() {
    let header = header(1, None);
    let events: Vec<_> = (0..4_000u64)
        .map(|i| message_event(1_000 + i, i % 50, "inv", i % 2 == 0, 40))
        .collect();
    let count = events.len();
    let stream = record_stream(&header, &events);

    // Room for only a fraction of the events.
    let mut analysis = Analysis::new(16 * 1024);
    feed(&mut analysis, "a.bin", &stream, &header, events);

    assert!(analysis.store.is_full(), "budget must have been reached");
    assert!(
        analysis.store.len() < count,
        "retention must have stopped early"
    );
    assert!(
        !analysis.store.is_empty(),
        "some events must have been retained"
    );

    // ...but the aggregates are complete.
    assert_eq!(analysis.total_events, count as u64);
    assert_eq!(
        count_of(&analysis, Group::EbpfMessage, "inv"),
        count as u64
    );
    assert_eq!(analysis.histogram.total(), count as u64);
    assert_eq!(analysis.peers.len(), 50);
    let messages: u64 = analysis
        .peers
        .iter()
        .iter()
        .map(|p| p.messages_in + p.messages_out)
        .sum();
    assert_eq!(messages, count as u64);
}

/// Rotated files are dropped in together and must read as one archive.
#[test]
fn merges_several_rotated_files() {
    let first_header = header(100, Some(false));
    let first_events = vec![message_event(1_000, 1, "inv", true, 40)];
    let first = compress(&record_stream(&first_header, &first_events), 3);
    let second_header = header(200, Some(true));
    let second_events = vec![
        message_event(2_000, 2, "tx", false, 300),
        message_event(3_000, 1, "inv", true, 40),
    ];
    let second = compress(&record_stream(&second_header, &second_events), 3);

    let mut analysis = Analysis::new(BIG_BUDGET);
    feed(
        &mut analysis,
        "archive.1.bin.zst",
        &first,
        &first_header,
        first_events,
    );
    feed(
        &mut analysis,
        "archive.2.bin.zst",
        &second,
        &second_header,
        second_events,
    );

    assert_eq!(analysis.files.len(), 2);
    assert_eq!(analysis.files[0].events, 1);
    assert_eq!(analysis.files[1].events, 2);
    assert_eq!(analysis.files[0].low_data, Some(false));
    assert_eq!(analysis.files[1].low_data, Some(true));

    assert_eq!(analysis.total_events, 3);
    assert_eq!(count_of(&analysis, Group::EbpfMessage, "inv"), 2);
    assert_eq!(analysis.first_timestamp, Some(1_000));
    assert_eq!(analysis.last_timestamp, Some(3_000));
    // Peer 1 appears in both files and must be one peer, not two.
    assert_eq!(analysis.peers.len(), 2);
    assert_eq!(analysis.peers.get(1).unwrap().messages_in, 2);
}

/// One unreadable record must be counted and skipped, not abandon the archive.
#[test]
fn a_corrupt_record_does_not_abort_the_archive() {
    let header = header(1, None);
    let events = vec![
        message_event(100, 1, "inv", true, 40),
        message_event(200, 1, "tx", false, 300),
    ];
    let mut stream = framed(&encode_header(&header));
    stream.extend_from_slice(&framed(&encode(&events[0])));
    // A record whose framing is valid but whose contents are not an event.
    stream.push(0x01);
    stream.push(0x08);
    stream.extend_from_slice(&framed(&encode(&events[1])));

    let mut analysis = Analysis::new(BIG_BUDGET);
    feed(&mut analysis, "a.bin", &stream, &header, events);

    assert_eq!(analysis.decode_errors, 1);
    assert_eq!(analysis.files[0].decode_errors, 1);
    assert_eq!(
        analysis.total_events, 2,
        "the events on both sides are still read"
    );
    assert_eq!(count_of(&analysis, Group::EbpfMessage, "tx"), 1);
}

#[test]
fn reports_truncation_per_file() {
    let header = header(1_700_000_000, None);
    let events: Vec<_> = (0..8_000u64)
        .map(|i| message_event(1_700_000_000_000 + i, i % 64, "inv", true, 40))
        .collect();
    let count = events.len() as u64;
    let archive = compress(&record_stream(&header, &events), 3);

    let mut analysis = Analysis::new(BIG_BUDGET);
    feed(
        &mut analysis,
        "live.bin.zst",
        &archive[..archive.len() * 3 / 4],
        &header,
        events,
    );

    assert!(analysis.truncated());
    assert!(analysis.files[0].incomplete_frame);
    assert!(
        analysis.files[0].error.is_none(),
        "truncation is not an error"
    );
    assert!(analysis.total_events > 0);
    assert!(analysis.total_events < count);
}

/// Dropping something that is not an archive must fail cleanly, on that file only.
#[test]
fn a_file_that_is_not_an_archive_is_reported_as_an_error() {
    let mut analysis = Analysis::new(BIG_BUDGET);
    analysis.open_file("holiday.png".to_string(), 8);
    let _ = analysis.feed(&[0xFF; 64]);
    analysis.close_file();
    let header = header(1, None);
    drain(&mut analysis, &header, vec![]);

    assert!(analysis.files[0].error.is_some());
    assert_eq!(analysis.total_events, 0);

    // A good file afterwards still loads.
    let events = vec![message_event(1, 1, "inv", true, 40)];
    let good = compress(&record_stream(&header, &events), 3);
    feed(&mut analysis, "good.bin.zst", &good, &header, events);
    assert_eq!(analysis.total_events, 1);
    assert!(analysis.files[1].error.is_none());
}

#[test]
fn classifies_every_category() {
    let mut analysis = Analysis::new(BIG_BUDGET);
    let header = header(1, None);
    let events = vec![message_event(1, 1, "inv", true, 40), connection_event(2, 1)];
    feed(
        &mut analysis,
        "a.bin",
        &record_stream(&header, &events),
        &header,
        events,
    );

    let categories: Vec<Category> = analysis
        .kinds
        .iter()
        .iter()
        .map(|info| info.category())
        .collect();
    assert!(categories.iter().all(|c| *c == Category::Ebpf));
    // Group -> category mapping is total.
    for group in GROUPS {
        let _ = group.category();
    }
}

/// An event with no arm decodes cleanly. It has to be classified rather than
/// silently dropped, otherwise an archive from a newer peer-observer would
/// under-report.
#[test]
fn an_event_with_no_arm_is_counted_as_unknown() {
    let mut analysis = Analysis::new(BIG_BUDGET);
    let header = header(1, None);
    let events = vec![
        message_event(1, 1, "inv", true, 40),
        event_without_an_arm(2),
    ];
    feed(
        &mut analysis,
        "a.bin",
        &record_stream(&header, &events),
        &header,
        events,
    );

    assert_eq!(
        analysis.decode_errors, 0,
        "it decodes, it is just unrecognised"
    );
    assert_eq!(analysis.total_events, 2);
    assert_eq!(count_of(&analysis, Group::EbpfMessage, UNKNOWN), 1);
    assert_eq!(analysis.counts.iter().sum::<u64>(), analysis.total_events);
}

/// Stripping must not disturb events that carry no raw data.
#[test]
fn events_without_raw_data_are_retained_verbatim() {
    let header = header(1, None);
    let events = vec![message_event(100, 1, "inv", true, 40)];
    let stream = record_stream(&header, &events);
    let expected = framed(&encode(&events[0]));
    let mut analysis = Analysis::new(BIG_BUDGET);
    feed(&mut analysis, "a.bin", &stream, &header, events);

    assert_eq!(analysis.stripped_events, 0);
    assert_eq!(analysis.stripped_bytes, 0);
    // `framed` includes the length prefix; the store holds the message only.
    assert_eq!(analysis.store.bytes(0).unwrap().len(), expected.len() - 1);
    assert_eq!(analysis.store.bytes(0).unwrap(), &expected[1..]);
}

#[test]
fn a_header_that_does_not_decode_is_an_error_of_its_file() {
    let mut analysis = Analysis::new(BIG_BUDGET);
    let mut stream = framed(b"not a header");
    stream.extend_from_slice(&framed(&encode(&message_event(1, 1, "inv", true, 40))));
    feed(
        &mut analysis,
        "a.bin",
        &stream,
        &header(1, None),
        vec![message_event(1, 1, "inv", true, 40)],
    );
    assert_eq!(analysis.files[0].decode_errors, 1);
    assert_eq!(analysis.files[0].created, None);
    assert_eq!(analysis.total_events, 1);
}

#[test]
fn a_chunk_after_the_file_has_failed_is_ignored() {
    let mut analysis = Analysis::new(BIG_BUDGET);
    // Nothing is being read yet.
    assert_eq!(analysis.feed(&[0xFF; 64]), Ok(()));
    assert!(analysis.close_file().is_none());
    assert!(analysis.files.is_empty());

    analysis.open_file("bad.bin".to_string(), 64);
    assert_eq!(
        analysis.feed(&[0xFF; 64]),
        Err(DecodeError::MalformedVarint)
    );
    assert_eq!(analysis.feed(&framed(b"late")), Ok(()));
    assert!(analysis.next_record().is_none());
    assert_eq!(
        analysis.files[0].error.as_deref(),
        Some(DecodeError::MalformedVarint.message().as_str())
    );
}

/// What is taken in does not depend on what there is room for.
#[test]
fn aggregates_do_not_depend_on_the_budget() {
    let header = header(1, None);
    let events = || {
        (0..500u64)
            .map(|i| message_event(1_000 + i * 7, i % 9, "ping", i % 2 == 0, 40))
            .collect::<Vec<_>>()
    };
    let stream = record_stream(&header, &events());
    let mut roomy = Analysis::new(BIG_BUDGET);
    feed(&mut roomy, "a.bin", &stream, &header, events());
    let mut cramped = Analysis::new(0);
    feed(&mut cramped, "a.bin", &stream, &header, events());

    assert_eq!(roomy.store.len(), 500);
    assert_eq!(cramped.store.len(), 0);
    assert_eq!(roomy.total_events, cramped.total_events);
    assert_eq!(roomy.counts, cramped.counts);
    assert_eq!(roomy.files, cramped.files);
    assert_eq!(roomy.exchanges, cramped.exchanges);
    assert_eq!(roomy.peers.len(), cramped.peers.len());
    for kind in 0..roomy.kinds.len() as u16 {
        assert_eq!(roomy.histogram.series(kind), cramped.histogram.series(kind));
    }
}

/// Every request has one fate, and announcements never count as unanswered.
#[test]
fn requests_are_answered_unanswered_or_undetermined() {
    let header = header(1, None);
    let mut events = Vec::new();
    for i in 0..50u64 {
        events.push(message_event(1_000 + i * 400_000, i % 3, "ping", false, 8));
        if i % 3 == 0 {
            events.push(message_event(1_010 + i * 400_000, i % 3, "pong", true, 8));
        }
        events.push(message_event(1_020 + i * 400_000, i % 3, "inv", true, 37));
        events.push(message_event(1_030 + i * 400_000, i % 3, "getdata", false, 37));
    }
    let stream = record_stream(&header, &events);
    let mut analysis = Analysis::new(BIG_BUDGET);
    feed(&mut analysis, "a.bin", &stream, &header, events);

    for (index, stats) in analysis.exchanges.iter().enumerate() {
        assert_eq!(
            stats.answered + stats.unanswered() + stats.undetermined(),
            stats.opened
        );
        if is_optional(index) {
            assert_eq!(stats.unanswered(), 0);
        }
    }
    let ping = (0..EXCHANGE_COUNT)
        .find(|i| request_name(*i) == "ping")
        .unwrap();
    assert_eq!(analysis.exchanges[ping].opened, 50);
    assert_eq!(analysis.exchanges[ping].answered, 17);
}

/// Rotating the file changes nothing but the files.
#[test]
fn two_files_read_as_one() {
    let opening = header(1, None);
    let first = || vec![message_event(1_000, 1, "ping", false, 8)];
    let second = || vec![message_event(1_500, 1, "pong", true, 8)];
    let mut rotated = Analysis::new(BIG_BUDGET);
    feed(
        &mut rotated,
        "a.bin",
        &record_stream(&opening, &first()),
        &opening,
        first(),
    );
    feed(
        &mut rotated,
        "b.bin",
        &record_stream(&opening, &second()),
        &opening,
        second(),
    );
    let both = || first().into_iter().chain(second()).collect::<Vec<_>>();
    let mut whole = Analysis::new(BIG_BUDGET);
    feed(
        &mut whole,
        "c.bin",
        &record_stream(&opening, &both()),
        &opening,
        both(),
    );
    assert_eq!(rotated.exchanges, whole.exchanges);
    assert_eq!(rotated.reply_latency, whole.reply_latency);
    assert_eq!(rotated.counts, whole.counts);
    assert_eq!(rotated.store.timestamps(), whole.store.timestamps());
}

#[test]
fn a_record_out_of_place_is_not_decoded() {
    let mut analysis = Analysis::new(BIG_BUDGET);
    analysis.open_file("a.bin".to_string(), 0);
    let first = PendingRecord {
        file: 0,
        index: 0,
        bytes: vec![1],
    };
    let second = PendingRecord {
        file: 0,
        index: 1,
        bytes: vec![1],
    };
    let event = message_event(1, 1, "ping", true, 8);
    assert!(analysis.record(&first, Decoded::Event(event)).is_none());
    assert!(analysis
        .record(&second, Decoded::Header(header(1, None)))
        .is_none());
    assert!(analysis.record(&second, Decoded::Nothing).is_none());
    assert_eq!(analysis.decode_errors, 3);
    assert_eq!(analysis.files[0].decode_errors, 3);
    assert_eq!(analysis.total_events, 0);
}
