use archive_viewer::proto::{
    Block, BlockHeader, BlockTxn, CompactBlock, Ebpf, EbpfEvent, Event, MessageEvent, Metadata,
    Msg, PeerObserverEvent, Ping, PrefilledTransaction, Transaction, Tx, Unknown,
};
use archive_viewer::strip::strip_raw_payloads;

/// The event's bytes, as plainly as they can be laid out.
fn encoded(event: &Event) -> Vec<u8> {
    let mut out = event.timestamp.to_le_bytes().to_vec();
    let Some(PeerObserverEvent::EbpfExtractor(ebpf)) = &event.peer_observer_event else {
        return out;
    };
    let Some(EbpfEvent::Message(message)) = &ebpf.ebpf_event else {
        return out;
    };
    let meta = &message.meta;
    out.extend_from_slice(&meta.peer_id.to_le_bytes());
    out.extend_from_slice(meta.addr.as_bytes());
    out.extend_from_slice(&meta.conn_type.to_le_bytes());
    out.extend_from_slice(meta.command.as_bytes());
    out.push(meta.inbound as u8);
    out.extend_from_slice(&meta.size.to_le_bytes());
    match &message.msg {
        Some(Msg::Tx(t)) => {
            out.extend_from_slice(&t.tx.txid);
            out.extend_from_slice(&t.tx.wtxid);
            out.extend_from_slice(t.tx.raw.as_deref().unwrap_or(&[]));
        }
        Some(Msg::Ping(ping)) => out.extend_from_slice(&ping.value.to_le_bytes()),
        other => out.extend_from_slice(format!("{other:?}").as_bytes()),
    }
    out
}

fn tx(raw: usize) -> Transaction {
    Transaction {
        txid: vec![1; 32],
        wtxid: vec![2; 32],
        raw: if raw > 0 { Some(vec![0xAB; raw]) } else { None },
    }
}

fn header() -> BlockHeader {
    BlockHeader {
        version: 1,
        prev_blockhash: vec![0; 32],
        merkle_root: vec![0; 32],
        time: 1,
        bits: 1,
        nonce: 1,
        hash: vec![9; 32],
    }
}

fn event(msg: Msg) -> Event {
    Event {
        timestamp: 1,
        peer_observer_event: Some(PeerObserverEvent::EbpfExtractor(Ebpf {
            ebpf_event: Some(EbpfEvent::Message(MessageEvent {
                meta: Metadata {
                    peer_id: 1,
                    addr: "10.0.0.1:8333".into(),
                    conn_type: 1,
                    command: "tx".into(),
                    inbound: true,
                    size: 1,
                },
                msg: Some(msg),
            })),
        })),
    }
}

/// The point of the exercise: a big event must shrink dramatically, and the
/// identifying fields must survive.
#[test]
fn a_transaction_keeps_its_ids_and_loses_its_bytes() {
    let mut e = event(Msg::Tx(Tx { tx: tx(100_000) }));
    let before = encoded(&e).len();

    let dropped = strip_raw_payloads(&mut e);

    assert_eq!(dropped, 100_000);
    let after = encoded(&e).len();
    assert!(
        after < 200,
        "stripped event should be tiny, got {after} from {before}"
    );

    let Some(PeerObserverEvent::EbpfExtractor(ebpf)) = &e.peer_observer_event else {
        panic!()
    };
    let Some(EbpfEvent::Message(m)) = &ebpf.ebpf_event else {
        panic!()
    };
    let Some(Msg::Tx(t)) = &m.msg else { panic!() };
    assert_eq!(t.tx.txid, vec![1; 32], "txid kept");
    assert_eq!(t.tx.wtxid, vec![2; 32], "wtxid kept");
    assert_eq!(t.tx.raw, None, "raw dropped");
    // The metadata every view depends on is untouched.
    assert_eq!(m.meta.peer_id, 1);
    assert_eq!(m.meta.command, "tx");
}

#[test]
fn a_block_keeps_its_header_and_drops_its_transactions() {
    let mut e = event(Msg::Block(Block {
        header: header(),
        transactions: (0..50).map(|_| tx(2_000)).collect(),
    }));

    let dropped = strip_raw_payloads(&mut e);
    assert!(dropped >= 50 * 2_000, "got {dropped}");

    let Some(PeerObserverEvent::EbpfExtractor(ebpf)) = &e.peer_observer_event else {
        panic!()
    };
    let Some(EbpfEvent::Message(m)) = &ebpf.ebpf_event else {
        panic!()
    };
    let Some(Msg::Block(b)) = &m.msg else {
        panic!()
    };
    assert!(b.transactions.is_empty());
    assert_eq!(
        b.header.hash,
        vec![9; 32],
        "header kept, block still identifiable"
    );
}

#[test]
fn blocktxn_and_compactblock_transactions_keep_their_ids() {
    let mut e = event(Msg::Blocktxn(BlockTxn {
        block_hash: vec![7; 32],
        transactions: (0..10).map(|_| tx(5_000)).collect(),
    }));
    assert_eq!(strip_raw_payloads(&mut e), 50_000);

    let mut e = event(Msg::Compactblock(CompactBlock {
        header: header(),
        nonce: 1,
        short_ids: vec![vec![0; 6]; 100],
        transactions: (0..3)
            .map(|i| PrefilledTransaction {
                diff_index: i,
                tx: tx(4_000),
            })
            .collect(),
    }));
    assert_eq!(strip_raw_payloads(&mut e), 12_000);

    let Some(PeerObserverEvent::EbpfExtractor(ebpf)) = &e.peer_observer_event else {
        panic!()
    };
    let Some(EbpfEvent::Message(m)) = &ebpf.ebpf_event else {
        panic!()
    };
    let Some(Msg::Compactblock(c)) = &m.msg else {
        panic!()
    };
    assert_eq!(c.transactions.len(), 3, "prefilled entries survive");
    assert!(c.transactions.iter().all(|p| p.tx.raw.is_none()));
    assert_eq!(c.short_ids.len(), 100, "short ids are small and kept");
}

#[test]
fn an_unknown_messages_payload_is_dropped_but_its_command_is_kept() {
    let mut e = event(Msg::Unknown(Unknown {
        command: "weird".into(),
        payload: vec![0xCD; 20_000],
    }));

    assert_eq!(strip_raw_payloads(&mut e), 20_000);
    let Some(PeerObserverEvent::EbpfExtractor(ebpf)) = &e.peer_observer_event else {
        panic!()
    };
    let Some(EbpfEvent::Message(m)) = &ebpf.ebpf_event else {
        panic!()
    };
    let Some(Msg::Unknown(u)) = &m.msg else {
        panic!()
    };
    assert_eq!(u.command, "weird");
    assert!(u.payload.is_empty());
}

/// Events with nothing heavy must report zero, so the caller can keep their
/// original encoding instead of paying to re-encode.
#[test]
fn events_without_raw_data_are_left_alone() {
    let mut e = event(Msg::Ping(Ping { value: 7 }));
    let before = encoded(&e);
    assert_eq!(strip_raw_payloads(&mut e), 0);
    assert_eq!(encoded(&e), before);

    // A transaction that never carried raw bytes is also a no-op.
    let mut e = event(Msg::Tx(Tx { tx: tx(0) }));
    assert_eq!(strip_raw_payloads(&mut e), 0);

    // Non-message events are not touched at all.
    let mut e = Event {
        timestamp: 1,
        peer_observer_event: None,
    };
    assert_eq!(strip_raw_payloads(&mut e), 0);
}

/// What is stripped once has nothing left to strip.
#[test]
fn stripping_twice_drops_nothing_more() {
    let mut e = event(Msg::Blocktxn(BlockTxn {
        block_hash: vec![7; 32],
        transactions: vec![tx(10), tx(0), tx(20)],
    }));
    assert_eq!(strip_raw_payloads(&mut e), 30);
    let once = format!("{e:?}");
    assert_eq!(strip_raw_payloads(&mut e), 0);
    assert_eq!(format!("{e:?}"), once);
}
