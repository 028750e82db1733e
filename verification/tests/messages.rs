use archive_viewer::analysis::{Analysis, Step};
use archive_viewer::decode::{frame_record, DecodeError};
use archive_viewer::encode::encode_stripped;
use archive_viewer::messages::{Decoded, Messages};
use archive_viewer::payload::message_detail;
use archive_viewer::proto::{
    ArchiveHeader, ConnEvent, EbpfEvent, Event, IpcEvent, Item, LogEvent, MempoolChange,
    MessageEvent, Msg, P2pEvent, PeerObserverEvent, RpcEvent, Validated,
};
use archive_viewer::strip::strip_raw_payloads;

// Field types, by their numbers in a descriptor.
const UINT64: u64 = 4;
const INT32: u64 = 5;
const BOOL: u64 = 8;
const STRING: u64 = 9;
const MESSAGE: u64 = 11;
const BYTES: u64 = 12;
const UINT32: u64 = 13;

fn number(tag: u64, value: u64) -> Vec<u8> {
    let mut out = Vec::new();
    prost::encoding::encode_varint(tag << 3, &mut out);
    prost::encoding::encode_varint(value, &mut out);
    out
}

fn bytes(tag: u64, bytes: &[u8]) -> Vec<u8> {
    let mut out = Vec::new();
    prost::encoding::encode_varint(tag << 3 | 2, &mut out);
    prost::encoding::encode_varint(bytes.len() as u64, &mut out);
    out.extend_from_slice(bytes);
    out
}

fn join(parts: &[Vec<u8>]) -> Vec<u8> {
    parts.concat()
}

/// A field: its name, type, message type, and whether it is repeated or the arm of a
/// oneof. Fields are numbered in order, from one.
struct Part(&'static str, u64, &'static str, bool, bool);

fn plain(name: &'static str, kind: u64) -> Part {
    Part(name, kind, "", false, false)
}

fn inner(name: &'static str, of: &'static str) -> Part {
    Part(name, MESSAGE, of, false, false)
}

fn many(name: &'static str, kind: u64, of: &'static str) -> Part {
    Part(name, kind, of, true, false)
}

fn arm(name: &'static str, kind: u64, of: &'static str) -> Part {
    Part(name, kind, of, false, true)
}

fn message(name: &str, oneof: &str, parts: &[Part]) -> Vec<u8> {
    let mut out = bytes(1, name.as_bytes());
    for (i, Part(name, kind, of, repeated, arm)) in parts.iter().enumerate() {
        let mut field = bytes(1, name.as_bytes());
        field.extend(number(3, i as u64 + 1));
        field.extend(number(4, if *repeated { 3 } else { 1 }));
        field.extend(number(5, *kind));
        if !of.is_empty() {
            field.extend(bytes(6, format!(".event.{of}").as_bytes()));
        }
        if *arm {
            field.extend(number(9, 0));
        }
        out.extend(bytes(2, &field));
    }
    if !oneof.is_empty() {
        out.extend(bytes(8, &bytes(1, oneof.as_bytes())));
    }
    out
}

fn file(name: &str, package: &str, messages: &[Vec<u8>]) -> Vec<u8> {
    let mut out = bytes(1, name.as_bytes());
    out.extend(bytes(2, package.as_bytes()));
    for message in messages {
        out.extend(bytes(4, message));
    }
    out.extend(bytes(12, b"proto2"));
    out
}

/// A schema with the archive's messages. Their fields are numbered from one.
fn descriptor_set() -> Vec<u8> {
    let nothing = |name: &str| message(name, "", &[]);
    let event = file(
        "event.proto",
        "event",
        &[
            message(
                "Event",
                "peer_observer_event",
                &[
                    plain("timestamp", UINT64),
                    arm("ebpf_extractor", MESSAGE, "Ebpf"),
                    arm("rpc_extractor", MESSAGE, "Rpc"),
                    arm("p2p_extractor", MESSAGE, "P2p"),
                    arm("log_extractor", MESSAGE, "Log"),
                    arm("ipc_extractor", MESSAGE, "Ipc"),
                    arm("new_extractor", MESSAGE, "Nothing"),
                ],
            ),
            message(
                "Ebpf",
                "ebpf_event",
                &[
                    arm("message", MESSAGE, "MessageEvent"),
                    arm("connection", MESSAGE, "ConnectionEvent"),
                    arm("mempool", MESSAGE, "MempoolEvent"),
                    arm("validation", MESSAGE, "ValidationEvent"),
                ],
            ),
            message(
                "MessageEvent",
                "msg",
                &[
                    inner("meta", "Metadata"),
                    arm("version", MESSAGE, "Version"),
                    arm("verack", BOOL, ""),
                    arm("ping", MESSAGE, "Ping"),
                    arm("inv", MESSAGE, "Items"),
                    arm("getdata", MESSAGE, "Items"),
                    arm("notfound", MESSAGE, "Items"),
                    arm("tx", MESSAGE, "Tx"),
                    arm("block", MESSAGE, "Block"),
                    arm("headers", MESSAGE, "Headers"),
                    arm("compactblock", MESSAGE, "CompactBlock"),
                    arm("getblocktxn", MESSAGE, "GetBlockTxn"),
                    arm("blocktxn", MESSAGE, "BlockTxn"),
                    arm("addr", MESSAGE, "Addr"),
                    arm("addrv2", MESSAGE, "Addr"),
                    arm("unknown", MESSAGE, "UnknownMessage"),
                    arm("pong", MESSAGE, "Ping"),
                ],
            ),
            message(
                "Metadata",
                "",
                &[
                    plain("peer_id", UINT64),
                    plain("addr", STRING),
                    plain("conn_type", INT32),
                    plain("command", STRING),
                    plain("inbound", BOOL),
                    plain("size", UINT64),
                ],
            ),
            message("Version", "", &[plain("user_agent", STRING)]),
            message("Ping", "", &[plain("value", UINT64)]),
            message("Items", "", &[many("items", MESSAGE, "Item")]),
            message(
                "Item",
                "item",
                &[
                    arm("transaction", BYTES, ""),
                    arm("block", BYTES, ""),
                    arm("wtx", BYTES, ""),
                    arm("witness_transaction", BYTES, ""),
                    arm("witness_block", BYTES, ""),
                    arm("compact_block", BYTES, ""),
                    arm("unknown", MESSAGE, "UnknownItem"),
                    arm("error", BOOL, ""),
                ],
            ),
            message(
                "UnknownItem",
                "",
                &[plain("inv_type", UINT32), plain("hash", BYTES)],
            ),
            message(
                "Transaction",
                "",
                &[
                    plain("txid", BYTES),
                    plain("wtxid", BYTES),
                    plain("raw", BYTES),
                ],
            ),
            message("Tx", "", &[inner("tx", "Transaction")]),
            message(
                "BlockHeader",
                "",
                &[
                    plain("version", INT32),
                    plain("prev_blockhash", BYTES),
                    plain("merkle_root", BYTES),
                    plain("time", UINT32),
                    plain("bits", UINT32),
                    plain("nonce", UINT32),
                    plain("hash", BYTES),
                ],
            ),
            message(
                "Block",
                "",
                &[
                    inner("header", "BlockHeader"),
                    many("transactions", MESSAGE, "Transaction"),
                ],
            ),
            message("Headers", "", &[many("headers", MESSAGE, "BlockHeader")]),
            message(
                "Prefilled",
                "",
                &[plain("diff_index", UINT32), inner("tx", "Transaction")],
            ),
            message(
                "CompactBlock",
                "",
                &[
                    inner("header", "BlockHeader"),
                    plain("nonce", UINT64),
                    many("short_ids", BYTES, ""),
                    many("transactions", MESSAGE, "Prefilled"),
                ],
            ),
            message(
                "GetBlockTxn",
                "",
                &[plain("block_hash", BYTES), many("tx_indexes", UINT32, "")],
            ),
            message(
                "BlockTxn",
                "",
                &[
                    plain("block_hash", BYTES),
                    many("transactions", MESSAGE, "Transaction"),
                ],
            ),
            message("Addr", "", &[many("addresses", MESSAGE, "Nothing")]),
            message(
                "UnknownMessage",
                "",
                &[plain("command", STRING), plain("payload", BYTES)],
            ),
            message(
                "ConnectionEvent",
                "event",
                &[
                    arm("closed", MESSAGE, "Ended"),
                    arm("inbound_evicted", MESSAGE, "Ended"),
                    arm("inbound", MESSAGE, "Opened"),
                    arm("outbound", MESSAGE, "Opened"),
                    arm("misbehaving", MESSAGE, "Misbehaving"),
                ],
            ),
            message(
                "Connection",
                "",
                &[
                    plain("peer_id", UINT64),
                    plain("addr", STRING),
                    plain("conn_type", INT32),
                    plain("network", UINT32),
                ],
            ),
            message(
                "Ended",
                "",
                &[
                    inner("conn", "Connection"),
                    plain("time_established", UINT64),
                ],
            ),
            message(
                "Opened",
                "",
                &[
                    inner("conn", "Connection"),
                    plain("existing_connections", UINT64),
                ],
            ),
            message(
                "Misbehaving",
                "",
                &[plain("id", UINT64), plain("message", STRING)],
            ),
            message(
                "MempoolEvent",
                "event",
                &[
                    arm("added", MESSAGE, "Nothing"),
                    arm("replaced", MESSAGE, "Nothing"),
                    arm("removed", MESSAGE, "Nothing"),
                    arm("rejected", MESSAGE, "Nothing"),
                ],
            ),
            message(
                "ValidationEvent",
                "event",
                &[arm("block_connected", MESSAGE, "Nothing")],
            ),
            message(
                "Rpc",
                "rpc_event",
                &[
                    arm("peer_infos", MESSAGE, "PeerInfos"),
                    arm("uptime", UINT64, ""),
                ],
            ),
            message("PeerInfos", "", &[many("infos", MESSAGE, "PeerInfo")]),
            message(
                "PeerInfo",
                "",
                &[plain("id", UINT32), plain("subversion", STRING)],
            ),
            message(
                "P2p",
                "p2p_event",
                &[arm("ping_duration", MESSAGE, "Nothing")],
            ),
            message(
                "Log",
                "log_event",
                &[arm("block_connected_log", MESSAGE, "Nothing")],
            ),
            message("Ipc", "ipc_event", &[arm("block_tip", MESSAGE, "Nothing")]),
            nothing("Nothing"),
        ],
    );
    let header = file(
        "header.proto",
        "header",
        &[message(
            "ArchiveHeader",
            "",
            &[plain("created", UINT64), plain("low_data", BOOL)],
        )],
    );
    join(&[bytes(1, &event), bytes(1, &header)])
}

fn messages() -> Messages {
    Messages::new(&descriptor_set()).expect("the messages are there")
}

fn decoded(record: &[u8]) -> Event {
    match messages().decode(1, record) {
        Decoded::Event(event) => event,
        other => panic!("not an event: {other:?}"),
    }
}

fn event(ts: u64, extractor: u64, held: &[u8]) -> Vec<u8> {
    join(&[number(1, ts), bytes(extractor, held)])
}

fn meta(peer_id: u64, command: &str, inbound: bool, size: u64) -> Vec<u8> {
    join(&[
        number(1, peer_id),
        bytes(2, b"10.0.0.1:8333"),
        number(3, 1),
        bytes(4, command.as_bytes()),
        number(5, inbound as u64),
        number(6, size),
    ])
}

/// A P2P message, whose arm has this number.
fn p2p(ts: u64, peer_id: u64, command: &str, inbound: bool, tag: u64, held: &[u8]) -> Vec<u8> {
    let message = join(&[
        bytes(1, &meta(peer_id, command, inbound, 99)),
        bytes(tag, held),
    ]);
    event(ts, 2, &bytes(1, &message))
}

fn message_in(event: &Event) -> &MessageEvent {
    let Some(PeerObserverEvent::EbpfExtractor(ebpf)) = &event.peer_observer_event else {
        panic!("wrong extractor")
    };
    let Some(EbpfEvent::Message(message)) = &ebpf.ebpf_event else {
        panic!("not a message")
    };
    message
}

fn transaction(raw: Option<&[u8]>) -> Vec<u8> {
    let mut out = join(&[bytes(1, &[1; 32]), bytes(2, &[2; 32])]);
    if let Some(raw) = raw {
        out.extend(bytes(3, raw));
    }
    out
}

fn block_header() -> Vec<u8> {
    join(&[
        number(1, 7),
        bytes(2, &[3; 32]),
        bytes(3, &[4; 32]),
        number(4, 5),
        number(5, 6),
        number(6, 8),
        bytes(7, &[9; 32]),
    ])
}

#[test]
fn the_first_record_is_a_header() {
    let messages = messages();
    let full = join(&[number(1, 1_700_000_000), number(2, 1)]);
    assert_eq!(
        messages.decode(0, &full),
        Decoded::Header(ArchiveHeader {
            created: 1_700_000_000,
            low_data: Some(true)
        })
    );
    assert_eq!(
        messages.decode(0, &[]),
        Decoded::Header(ArchiveHeader {
            created: 0,
            low_data: None
        })
    );
    assert_eq!(messages.decode(0, &[0x08]), Decoded::Nothing);
    assert_eq!(messages.decode(1, &[0x08]), Decoded::Nothing);
}

#[test]
fn a_message_keeps_its_metadata() {
    let event = decoded(&p2p(5, 42, "ping", true, 4, &number(1, 77)));
    assert_eq!(event.timestamp, 5);
    let message = message_in(&event);
    assert_eq!(message.meta.peer_id, 42);
    assert_eq!(message.meta.addr, "10.0.0.1:8333");
    assert_eq!(message.meta.conn_type, 1);
    assert_eq!(message.meta.command, "ping");
    assert!(message.meta.inbound);
    assert_eq!(message.meta.size, 99);
    let Some(Msg::Ping(ping)) = &message.msg else {
        panic!("not a ping")
    };
    assert_eq!(ping.value, 77);
}

fn msg(tag: u64, held: &[u8]) -> Option<Msg> {
    let event = decoded(&p2p(1, 1, "x", true, tag, held));
    let Some(PeerObserverEvent::EbpfExtractor(ebpf)) = event.peer_observer_event else {
        panic!("wrong extractor")
    };
    let Some(EbpfEvent::Message(message)) = ebpf.ebpf_event else {
        panic!("not a message")
    };
    message.msg
}

#[test]
fn every_arm_of_a_message_is_read() {
    let Some(Msg::Version(version)) = msg(2, &bytes(1, b"/Satoshi:29.0.0/")) else {
        panic!("not a version")
    };
    assert_eq!(version.user_agent, "/Satoshi:29.0.0/");

    let items = join(&[
        bytes(1, &bytes(1, &[1; 32])),
        bytes(1, &bytes(2, &[2; 32])),
        bytes(1, &bytes(3, &[3; 32])),
        bytes(1, &bytes(4, &[4; 32])),
        bytes(1, &bytes(5, &[5; 32])),
        bytes(1, &bytes(6, &[6; 32])),
        bytes(1, &bytes(7, &join(&[number(1, 99), bytes(2, &[7; 32])]))),
        bytes(1, &number(8, 1)),
        bytes(1, &[]),
    ]);
    let Some(Msg::Inv(inv)) = msg(5, &items) else {
        panic!("not an inv")
    };
    assert_eq!(inv.items.len(), 9);
    assert_eq!(inv.items[0].item, Some(Item::Transaction(vec![1; 32])));
    assert_eq!(inv.items[1].item, Some(Item::Block(vec![2; 32])));
    assert_eq!(inv.items[2].item, Some(Item::Wtx(vec![3; 32])));
    assert_eq!(
        inv.items[3].item,
        Some(Item::WitnessTransaction(vec![4; 32]))
    );
    assert_eq!(inv.items[4].item, Some(Item::WitnessBlock(vec![5; 32])));
    assert_eq!(inv.items[5].item, Some(Item::CompactBlock(vec![6; 32])));
    let Some(Item::Unknown(unknown)) = &inv.items[6].item else {
        panic!("not unknown")
    };
    assert_eq!((unknown.inv_type, unknown.hash.len()), (99, 32));
    assert_eq!(inv.items[7].item, Some(Item::Error(true)));
    assert_eq!(inv.items[8].item, None);
    assert!(matches!(msg(6, &items), Some(Msg::Getdata(m)) if m.items.len() == 9));
    assert!(matches!(msg(7, &items), Some(Msg::Notfound(m)) if m.items.len() == 9));

    let Some(Msg::Tx(tx)) = msg(8, &bytes(1, &transaction(Some(&[0xAB; 5])))) else {
        panic!("not a tx")
    };
    assert_eq!(tx.tx.txid, vec![1; 32]);
    assert_eq!(tx.tx.wtxid, vec![2; 32]);
    assert_eq!(tx.tx.raw, Some(vec![0xAB; 5]));

    let block = join(&[
        bytes(1, &block_header()),
        bytes(2, &transaction(None)),
        bytes(2, &transaction(Some(&[]))),
    ]);
    let Some(Msg::Block(block)) = msg(9, &block) else {
        panic!("not a block")
    };
    assert_eq!(block.header.version, 7);
    assert_eq!(block.header.time, 5);
    assert_eq!(block.header.bits, 6);
    assert_eq!(block.header.nonce, 8);
    assert_eq!(block.header.hash, vec![9; 32]);
    assert_eq!(block.header.prev_blockhash, vec![3; 32]);
    assert_eq!(block.header.merkle_root, vec![4; 32]);
    assert_eq!(block.transactions.len(), 2);
    assert_eq!(block.transactions[0].raw, None);
    assert_eq!(block.transactions[1].raw, Some(vec![]));

    let headers = join(&[bytes(1, &block_header()), bytes(1, &block_header())]);
    assert!(matches!(msg(10, &headers), Some(Msg::Headers(m)) if m.headers.len() == 2));

    let compact = join(&[
        bytes(1, &block_header()),
        number(2, 123),
        bytes(3, &[1; 6]),
        bytes(3, &[2; 6]),
        bytes(
            4,
            &join(&[number(1, 3), bytes(2, &transaction(Some(&[7; 4])))]),
        ),
    ]);
    let Some(Msg::Compactblock(compact)) = msg(11, &compact) else {
        panic!("not a compact block")
    };
    assert_eq!(compact.nonce, 123);
    assert_eq!(compact.short_ids, vec![vec![1; 6], vec![2; 6]]);
    assert_eq!(compact.transactions[0].diff_index, 3);
    assert_eq!(compact.transactions[0].tx.raw, Some(vec![7; 4]));

    let asked = join(&[bytes(1, &[5; 32]), number(2, 4), number(2, 9)]);
    let Some(Msg::Getblocktxn(asked)) = msg(12, &asked) else {
        panic!("not a request")
    };
    assert_eq!(asked.block_hash, vec![5; 32]);
    assert_eq!(asked.tx_indexes, vec![4, 9]);

    let given = join(&[bytes(1, &[5; 32]), bytes(2, &transaction(None))]);
    assert!(matches!(msg(13, &given), Some(Msg::Blocktxn(m)) if m.transactions.len() == 1));

    let addresses = join(&[bytes(1, &[]), bytes(1, &[]), bytes(1, &[])]);
    assert!(matches!(msg(14, &addresses), Some(Msg::Addr(m)) if m.addresses.len() == 3));
    assert!(matches!(msg(15, &addresses), Some(Msg::Addrv2(m)) if m.addresses.len() == 3));

    let unknown = join(&[bytes(1, b"weird"), bytes(2, &[0xCD; 9])]);
    let Some(Msg::Unknown(unknown)) = msg(16, &unknown) else {
        panic!("not unknown")
    };
    assert_eq!(unknown.command, "weird");
    assert_eq!(unknown.payload, vec![0xCD; 9]);

    // A message the schema names, and nothing here reads.
    assert_eq!(msg(17, &number(1, 1)), Some(Msg::Other));
    // One it does not name is no message at all.
    assert_eq!(msg(99, &[]), None);

    let verack = event(
        1,
        2,
        &bytes(
            1,
            &join(&[bytes(1, &meta(1, "verack", true, 0)), number(3, 1)]),
        ),
    );
    assert_eq!(message_in(&decoded(&verack)).msg, Some(Msg::Verack(true)));
}

fn ebpf_event(tag: u64, held: &[u8]) -> Option<EbpfEvent> {
    match decoded(&event(1, 2, &bytes(tag, held))).peer_observer_event {
        Some(PeerObserverEvent::EbpfExtractor(ebpf)) => ebpf.ebpf_event,
        other => panic!("wrong extractor: {other:?}"),
    }
}

#[test]
fn connection_events_are_read() {
    let conn = join(&[
        number(1, 5),
        bytes(2, b"192.0.2.1:8333"),
        number(3, 2),
        number(4, 1),
    ]);
    let held = join(&[bytes(1, &conn), number(2, 80)]);
    let of = |tag: u64, held: &[u8]| match ebpf_event(2, &bytes(tag, held)) {
        Some(EbpfEvent::Connection(connection)) => connection.event,
        other => panic!("not a connection: {other:?}"),
    };
    let Some(ConnEvent::Closed(closed)) = of(1, &held) else {
        panic!("not closed")
    };
    assert_eq!(closed.conn.peer_id, 5);
    assert_eq!(closed.conn.addr, "192.0.2.1:8333");
    assert_eq!(closed.conn.conn_type, 2);
    assert_eq!(closed.conn.network, 1);
    assert_eq!(closed.time_established, 80);
    assert!(matches!(of(2, &held), Some(ConnEvent::InboundEvicted(c)) if c == closed));
    assert!(
        matches!(of(3, &held), Some(ConnEvent::Inbound(c)) if c.existing_connections == 80)
    );
    assert!(
        matches!(of(4, &held), Some(ConnEvent::Outbound(c)) if c.existing_connections == 80)
    );
    let complaint = join(&[number(1, 7), bytes(2, b"invalid header")]);
    let Some(ConnEvent::Misbehaving(complaint)) = of(5, &complaint) else {
        panic!("not misbehaving")
    };
    assert_eq!(complaint.id, 7);
    assert_eq!(complaint.message, "invalid header");
    assert_eq!(of(99, &[]), None);
}

#[test]
fn the_other_extractors_are_read() {
    for (tag, change) in [
        (1, MempoolChange::Added),
        (2, MempoolChange::Replaced),
        (3, MempoolChange::Removed),
        (4, MempoolChange::Rejected),
    ] {
        assert!(matches!(
            ebpf_event(3, &bytes(tag, &[])),
            Some(EbpfEvent::Mempool(m)) if m.event == Some(change)
        ));
    }
    assert!(matches!(
        ebpf_event(4, &bytes(1, &[])),
        Some(EbpfEvent::Validation(v)) if v.event == Some(Validated::BlockConnected)
    ));

    let infos = join(&[
        bytes(1, &join(&[number(1, 7), bytes(2, b"/Satoshi:27.0.0/")])),
        bytes(1, &join(&[number(1, 8), bytes(2, b"/bcoin:2.2.0/")])),
    ]);
    let Some(PeerObserverEvent::RpcExtractor(rpc)) =
        decoded(&event(1, 3, &bytes(1, &infos))).peer_observer_event
    else {
        panic!("wrong extractor")
    };
    let Some(RpcEvent::PeerInfos(infos)) = rpc.rpc_event else {
        panic!("not a poll")
    };
    assert_eq!(infos.infos.len(), 2);
    assert_eq!(infos.infos[1].id, 8);
    assert_eq!(infos.infos[1].subversion, "/bcoin:2.2.0/");
    assert!(matches!(
        decoded(&event(1, 3, &number(2, 3_600))).peer_observer_event,
        Some(PeerObserverEvent::RpcExtractor(rpc)) if rpc.rpc_event == Some(RpcEvent::Uptime)
    ));
    assert!(matches!(
        decoded(&event(1, 4, &bytes(1, &[]))).peer_observer_event,
        Some(PeerObserverEvent::P2pExtractor(p2p)) if p2p.p2p_event == Some(P2pEvent::PingDuration)
    ));
    assert!(matches!(
        decoded(&event(1, 5, &bytes(1, &[]))).peer_observer_event,
        Some(PeerObserverEvent::LogExtractor(log))
            if log.log_event == Some(LogEvent::BlockConnectedLog)
    ));
    assert!(matches!(
        decoded(&event(1, 6, &bytes(1, &[]))).peer_observer_event,
        Some(PeerObserverEvent::IpcExtractor(ipc)) if ipc.ipc_event == Some(IpcEvent::BlockTip)
    ));

    // An extractor nothing here knows, and none at all.
    assert_eq!(decoded(&event(1, 7, &[])).peer_observer_event, None);
    assert_eq!(decoded(&number(1, 9)).peer_observer_event, None);
    assert_eq!(decoded(&number(1, 9)).timestamp, 9);
}

#[test]
fn a_descriptor_set_without_the_messages_is_refused() {
    assert_eq!(
        Messages::new(&[]).err().as_deref(),
        Some("event.Event is missing from the descriptor set")
    );
    let event = file("event.proto", "event", &[message("Event", "", &[])]);
    assert_eq!(
        Messages::new(&bytes(1, &event)).err().as_deref(),
        Some("header.ArchiveHeader is missing from the descriptor set")
    );
    let reason = Messages::new(&[0xFF]).err().expect("not a descriptor set");
    assert!(reason.starts_with("could not read the descriptor set: "));
}

/// An archive from its bytes to its figures.
#[test]
fn records_are_taken_in_as_they_come() {
    let mut stream = Vec::new();
    frame_record(&join(&[number(1, 1_700_000_000), number(2, 0)]), &mut stream);
    let ping = p2p(1_000, 3, "ping", false, 4, &number(1, 1));
    frame_record(&ping, &mut stream);
    frame_record(&[0x08], &mut stream);
    let tx = p2p(
        1_050,
        3,
        "tx",
        true,
        8,
        &bytes(1, &transaction(Some(&[0xAB; 300]))),
    );
    frame_record(&tx, &mut stream);
    frame_record(&p2p(1_120, 3, "pong", true, 17, &number(1, 1)), &mut stream);
    let archive = zstd::stream::encode_all(stream.as_slice(), 3).expect("zstd compress");

    let mut analysis = Analysis::new(1 << 20);
    let messages = messages();
    analysis.open_file("a.bin.zst".to_string(), archive.len() as u64);
    for chunk in archive.chunks(7) {
        analysis.feed(chunk).expect("push");
    }
    let completion = analysis.close_file().expect("a file was open");
    assert!(!completion.truncated);

    assert_eq!(analysis.take_in(&messages), Step::Done);
    assert_eq!(analysis.files[0].created, Some(1_700_000_000));
    assert_eq!(analysis.files[0].low_data, Some(false));
    assert_eq!(analysis.take_in(&messages), Step::Done);
    assert_eq!(analysis.total_events, 1);
    assert_eq!(analysis.store.bytes(0), Some(ping.as_slice()));
    assert_eq!(analysis.take_in(&messages), Step::Done);
    assert_eq!(analysis.decode_errors, 1);

    // The transaction loses its bytes, and what is left of it is retained.
    assert_eq!(analysis.take_in(&messages), Step::Done);
    assert_eq!(analysis.store.len(), 2);
    let encoded = p2p(1_050, 3, "tx", true, 8, &bytes(1, &transaction(None)));
    assert_eq!(analysis.store.bytes(1), Some(encoded.as_slice()));
    let retained = decoded(analysis.store.bytes(1).expect("retained"));
    let Some(Msg::Tx(delivered)) = &message_in(&retained).msg else {
        panic!("not a tx")
    };
    assert_eq!(delivered.tx.txid, vec![1; 32]);
    assert_eq!(delivered.tx.raw, None);

    assert_eq!(analysis.take_in(&messages), Step::Done);
    assert_eq!(analysis.take_in(&messages), Step::Idle);
    assert_eq!(analysis.take_in(&messages), Step::Idle);
    assert_eq!(analysis.total_events, 3);
    assert_eq!(analysis.stripped_bytes, 300);
    assert_eq!(analysis.relay.deliveries, 1);
    assert_eq!(analysis.reply_latency[1].max_ms(), 120);
}

#[test]
fn a_retained_message_is_described_from_its_bytes() {
    let mut analysis = Analysis::new(1 << 20);
    let messages = messages();
    let items = join(&[
        bytes(1, &bytes(3, &[3; 32])),
        bytes(1, &bytes(3, &[4; 32])),
        bytes(1, &bytes(2, &[5; 32])),
    ]);
    for record in [
        p2p(1, 1, "inv", true, 5, &items),
        p2p(1, 1, "ping", true, 4, &number(1, 7)),
        number(1, 9),
        vec![0x08],
    ] {
        assert!(analysis.store.push(1, 0, u32::MAX, 0, 0, &record));
    }
    assert_eq!(
        message_detail(&analysis, &messages, 0).as_deref(),
        Some("2 wtx, 1 block")
    );
    assert_eq!(message_detail(&analysis, &messages, 1), None);
    assert_eq!(message_detail(&analysis, &messages, 2), None);
    assert_eq!(message_detail(&analysis, &messages, 3), None);
    assert_eq!(message_detail(&analysis, &messages, 4), None);
}

/// A `tx` message carrying `raw_len` bytes of raw transaction data: the shape
/// that dominates a full-data archive.
fn transaction_record(ts: u64, peer_id: u64, raw_len: usize) -> Vec<u8> {
    let tx = join(&[
        bytes(1, &[0x11; 32]),
        bytes(2, &[0x22; 32]),
        bytes(3, &vec![0xAB; raw_len]),
    ]);
    let message = join(&[
        bytes(1, &meta(peer_id, "tx", true, raw_len as u64)),
        bytes(8, &bytes(1, &tx)),
    ]);
    event(ts, 2, &bytes(1, &message))
}

/// Raw transaction data is most of a full-data archive. It must not be retained,
/// but every aggregate must still be computed from the complete event.
#[test]
fn raw_transaction_data_is_dropped_from_retained_events() {
    let mut stream = Vec::new();
    frame_record(&number(1, 1), &mut stream);
    frame_record(&transaction_record(100, 1, 250_000), &mut stream);
    frame_record(&p2p(200, 1, "inv", true, 5, &[]), &mut stream);
    frame_record(&transaction_record(300, 2, 250_000), &mut stream);

    let mut analysis = Analysis::new(64 * 1024 * 1024);
    let messages = messages();
    analysis.begin_file(&messages, "a.bin".to_string(), stream.len() as u64);
    for chunk in stream.chunks(4096) {
        analysis.push(&messages, chunk).expect("push");
    }
    analysis.end_file(&messages);
    assert!(!analysis.is_waiting());

    assert_eq!(analysis.total_events, 3, "every event is counted");
    assert_eq!(analysis.peers.len(), 2);
    assert_eq!(analysis.stripped_events, 2);
    assert!(
        analysis.stripped_bytes >= 500_000,
        "got {}",
        analysis.stripped_bytes
    );

    // All three are retained, but the transactions no longer carry their bytes.
    assert_eq!(analysis.store.len(), 3);
    assert!(
        analysis.store.bytes_used() < 10_000,
        "retained {} bytes for a 500 kB payload",
        analysis.store.bytes_used()
    );

    // The retained copy still decodes and still identifies the transaction.
    let retained = decoded(analysis.store.bytes(0).expect("retained"));
    let message = message_in(&retained);
    assert_eq!(message.meta.peer_id, 1, "metadata survives");
    let Some(Msg::Tx(tx)) = &message.msg else {
        panic!("wrong msg")
    };
    assert_eq!(tx.tx.txid.len(), 32, "txid kept");
    assert_eq!(tx.tx.wtxid.len(), 32, "wtxid kept");
    assert_eq!(tx.tx.raw, None, "raw transaction dropped");
}

/// Whatever loses raw data is retained as what is left of it, and nothing else in the
/// record changes, known or not.
#[test]
fn what_is_left_of_an_event_is_encoded() {
    let messages = messages();
    let whole = transaction(Some(&[7; 50]));
    let bare = transaction(None);
    let block = |txs: &[Vec<u8>]| {
        let mut out = bytes(1, &block_header());
        for tx in txs {
            out.extend(bytes(2, tx));
        }
        out
    };
    let blocktxn = |tx: &[u8]| join(&[bytes(1, &[9; 32]), bytes(2, tx), bytes(2, &bare), bytes(2, tx)]);
    let compact = |tx: &[u8]| {
        join(&[
            bytes(1, &block_header()),
            number(2, 77),
            bytes(3, &[1, 2]),
            bytes(4, &join(&[number(1, 4), bytes(2, tx)])),
            bytes(4, &join(&[number(1, 6), bytes(2, &bare)])),
        ])
    };
    let unknown = |payload: &[u8]| {
        let mut out = bytes(1, b"wow");
        if !payload.is_empty() {
            out.extend(bytes(2, payload));
        }
        out
    };
    let cases = [
        (8, bytes(1, &whole), bytes(1, &bare)),
        (9, block(&[whole.clone(), bare.clone()]), block(&[])),
        (13, blocktxn(&whole), blocktxn(&bare)),
        (11, compact(&whole), compact(&bare)),
        (16, unknown(&[5; 40]), unknown(&[])),
    ];
    for (tag, before, after) in cases {
        let mut record = p2p(5, 1, "x", true, tag, &before);
        let mut expected = p2p(5, 1, "x", true, tag, &after);
        // A field the schema does not have.
        record.extend(number(99, 3));
        expected.extend(number(99, 3));
        let mut left = decoded(&record);
        assert!(strip_raw_payloads(&mut left) > 0);
        let kept = encode_stripped(&messages, &record, &left);
        assert_eq!(kept, expected, "message {tag}");
        assert_eq!(decoded(&kept), left);
    }
}

fn set_of(files: &[Vec<u8>]) -> Vec<u8> {
    let files: Vec<Vec<u8>> = files.iter().map(|file| bytes(1, file)).collect();
    join(&files)
}

/// A file that imports others, all of them publicly.
fn importing(name: &str, imports: &[&str]) -> Vec<u8> {
    let mut out = file(name, name, &[]);
    for (i, import) in imports.iter().enumerate() {
        out.extend(bytes(3, import.as_bytes()));
        out.extend(number(10, i as u64));
    }
    out
}

fn refusal(files: &[Vec<u8>]) -> Option<String> {
    Messages::new(&join(&[descriptor_set(), set_of(files)])).err()
}

#[test]
fn public_imports_must_not_go_round_in_a_circle() {
    let circle =
        Some("could not read the descriptor set: public imports lead round in a circle".to_string());
    assert_eq!(refusal(&[importing("a", &["a"])]), circle);
    assert_eq!(refusal(&[importing("a", &["b"]), importing("b", &["a"])]), circle);
    assert_eq!(
        refusal(&[
            importing("d", &[]),
            importing("a", &["d", "b"]),
            importing("b", &["c"]),
            importing("c", &["d", "a"])
        ]),
        circle
    );
    // A diamond is no circle.
    assert_eq!(
        refusal(&[
            importing("a", &["b", "c"]),
            importing("b", &["d"]),
            importing("c", &["d"]),
            importing("d", &[])
        ]),
        None
    );
}

#[test]
fn public_imports_can_be_too_many() {
    // Every file imports the next.
    let chain = |len: usize| {
        let mut files = vec![importing(&format!("f{len}"), &[])];
        for i in 0..len {
            files.push(importing(&format!("f{i}"), &[&format!("f{}", i + 1)]));
        }
        refusal(&files)
    };
    assert_eq!(chain(32), None);
    assert_eq!(
        chain(33),
        Some("could not read the descriptor set: there are too many public imports".to_string())
    );
}

#[test]
fn the_options_of_descriptors_are_not_for_a_schema_to_define() {
    let anew = Some(
        "could not read the descriptor set: the options of descriptors are defined anew".to_string(),
    );
    let named = |package: &str, name: &str| file("options", package, &[message(name, "", &[])]);
    assert_eq!(refusal(&[named("google.protobuf", "FileOptions")]), anew);
    assert_eq!(refusal(&[named("google", "protobuf.MethodOptions")]), anew);
    assert_eq!(refusal(&[named("", "google.protobuf.EnumOptions")]), anew);
    assert_eq!(refusal(&[named("google.protobuf", "Timestamp")]), None);
    assert_eq!(refusal(&[named("google", "protobuf")]), None);
    assert_eq!(refusal(&[named("", "FileOptions")]), None);

    // Defined in another message, which may have no name.
    let holding = |package: &str, outer: &str, inner: Vec<u8>| {
        file("options", package, &[nesting(outer, inner)])
    };
    let options = message("FieldOptions", "", &[]);
    assert_eq!(refusal(&[holding("google", "protobuf", options.clone())]), anew);
    let whole = message("google.protobuf.FieldOptions", "", &[]);
    assert_eq!(refusal(&[holding("", "", whole)]), anew);
    let deep = nesting("google", nesting("protobuf", options.clone()));
    assert_eq!(refusal(&[file("options", "", &[deep])]), anew);
    assert_eq!(refusal(&[holding("google", "other", options)]), None);
}

/// A message type with another defined in it.
fn nesting(name: &str, inner: Vec<u8>) -> Vec<u8> {
    let mut out = message(name, "", &[]);
    out.extend(bytes(3, &inner));
    out
}

#[test]
fn files_are_in_a_syntax_that_is_known() {
    let unknown =
        Some("could not read the descriptor set: a file is in an unknown syntax".to_string());
    let with = |syntax: &str| {
        let mut out = bytes(1, b"later");
        out.extend(bytes(12, syntax.as_bytes()));
        refusal(&[out])
    };
    assert_eq!(with("editions"), unknown);
    assert_eq!(with(""), unknown);
    assert_eq!(with("proto2"), None);
    assert_eq!(with("proto3"), None);
    assert_eq!(refusal(&[bytes(1, b"earlier")]), None);
}

/// A message type with a field of bytes that holds this by default.
fn defaulting(text: &str) -> Vec<u8> {
    let mut field = bytes(1, b"value");
    field.extend(number(3, 1));
    field.extend(number(4, 1));
    field.extend(number(5, BYTES));
    field.extend(bytes(7, text.as_bytes()));
    let mut out = bytes(1, b"Holder");
    out.extend(bytes(2, &field));
    out
}

#[test]
fn what_fields_hold_by_default_can_be_read() {
    let garbled = Some("could not read the descriptor set: a default is garbled".to_string());
    let with = |text: &str| refusal(&[file("holder", "holder", &[defaulting(text)])]);
    assert_eq!(with("\\xa\u{e9}"), garbled);
    assert_eq!(with("before \\X\u{e9}"), garbled);
    assert_eq!(with("\\400"), garbled);
    assert_eq!(with("\\777 after"), garbled);
    let deep = nesting("Outer", nesting("Middle", defaulting("\\400")));
    assert_eq!(refusal(&[file("holder", "holder", &[deep])]), garbled);
    let mut extending = file("holder", "holder", &[]);
    extending.extend(bytes(7, &bytes(7, b"\\400")));
    assert_eq!(refusal(&[extending]), garbled);

    for text in ["", "plain", "\u{e9}", "\\377", "\\0", "\\47", "\\xff", "\\x41\u{e9}", "\\n"] {
        assert_eq!(with(text), None, "{text:?}");
    }
    // Escapes that are none are for the pool to refuse.
    assert!(with("\\x").is_some_and(|words| words != garbled.clone().unwrap()));
    assert!(with("\\w").is_some_and(|words| words != garbled.clone().unwrap()));
}

/// A message type that says of itself that it is the entries of a map.
fn entries(parts: &[Part]) -> Vec<u8> {
    let mut out = message("Entry", "", parts);
    out.extend(bytes(7, &number(7, 1)));
    out
}

#[test]
fn maps_have_keys_and_values() {
    let malformed =
        Some("could not read the descriptor set: a message type is malformed".to_string());
    let with = |parts: &[Part]| refusal(&[file("maps", "maps", &[entries(parts)])]);
    assert_eq!(with(&[]), malformed);
    assert_eq!(with(&[plain("key", STRING)]), malformed);
    assert_eq!(with(&[plain("key", BYTES), plain("value", BOOL)]), malformed);
    assert_eq!(with(&[plain("key", STRING), plain("value", BOOL)]), None);
    assert_eq!(with(&[plain("key", UINT64), plain("value", BYTES)]), None);
    assert_eq!(with(&[plain("key", BOOL), plain("value", BYTES)]), None);
    // Any number of values cannot be an arm of a oneof.
    let both = message("Both", "one", &[Part("list", UINT32, "", true, true)]);
    assert_eq!(refusal(&[file("both", "both", &[both])]), malformed);
}

/// What a chunk completes is counted when the chunk has been pushed, and the requests of
/// a file are settled when it has ended.
#[test]
fn what_is_pushed_is_taken_in_at_once() {
    let messages = messages();
    let mut stream = Vec::new();
    frame_record(&number(1, 1_700_000_000), &mut stream);
    frame_record(&p2p(1_000, 3, "ping", false, 4, &number(1, 1)), &mut stream);
    let first = stream.len();
    frame_record(&p2p(1_120, 3, "pong", true, 17, &number(1, 1)), &mut stream);
    frame_record(&p2p(2_000, 3, "ping", false, 4, &number(1, 2)), &mut stream);
    let late = 2_000 + 21 * 60 * 1_000;
    frame_record(&p2p(late, 3, "inv", true, 5, &[]), &mut stream);

    let mut analysis = Analysis::new(1 << 20);
    assert_eq!(analysis.push(&messages, &stream), Ok(()), "no file is open");
    assert!(analysis.end_file(&messages).is_none());
    assert_eq!(analysis.total_events, 0);

    analysis.begin_file(&messages, "a.bin".to_string(), stream.len() as u64);
    analysis.push(&messages, &stream[..first + 1]).expect("push");
    assert_eq!(analysis.files[0].created, Some(1_700_000_000));
    assert_eq!((analysis.total_events, analysis.store.len()), (1, 1));
    analysis.push(&messages, &stream[first + 1..]).expect("push");
    assert_eq!((analysis.total_events, analysis.store.len()), (4, 4));
    assert_eq!(analysis.reply_latency[1].max_ms(), 120);
    assert!(!analysis.is_waiting());

    // A file that is begun ends the one before it.
    analysis.begin_file(&messages, "b.bin".to_string(), 8);
    let pings = &analysis.exchanges[1];
    assert_eq!((pings.answered, pings.unanswered()), (1, 1));
    assert_eq!(analysis.files.len(), 2);
    let refused = analysis.push(&messages, &[0xFF; 64]);
    assert_eq!(refused, Err(DecodeError::MalformedVarint));
    assert!(analysis.files[1].error.is_some());
    assert!(!analysis.is_waiting());
}
