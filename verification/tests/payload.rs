use archive_viewer::payload::{count, describe, has_detail, inventory, event_detail};
use archive_viewer::proto::{
    Addr, AddrV2, Address, Block, BlockHeader, BlockTxn, CompactBlock, Ebpf, EbpfEvent, Event,
    GetBlockTxn, GetData, Headers, Inv, InventoryItem, Item, MessageEvent, Metadata, Msg, NotFound,
    PeerObserverEvent, Ping, Transaction, UnknownItem,
};

fn header() -> BlockHeader {
    BlockHeader {
        version: 0,
        prev_blockhash: vec![],
        merkle_root: vec![],
        time: 0,
        bits: 0,
        nonce: 0,
        hash: vec![],
    }
}

fn item(item: Item) -> InventoryItem {
    InventoryItem { item: Some(item) }
}

#[test]
fn inventory_counts_by_type_in_a_fixed_order() {
    let items = vec![
        item(Item::Wtx(vec![1; 32])),
        item(Item::Block(vec![2; 32])),
        item(Item::Wtx(vec![3; 32])),
    ];
    assert_eq!(inventory(&items), "2 wtx, 1 block");

    // Order is the type's, not the count's: the same mix always reads the
    // same way whichever came first on the wire.
    let swapped = vec![
        item(Item::Block(vec![2; 32])),
        item(Item::Wtx(vec![1; 32])),
        item(Item::Wtx(vec![3; 32])),
    ];
    assert_eq!(inventory(&swapped), "2 wtx, 1 block");
}

#[test]
fn an_inventory_item_the_extractor_could_not_read_is_still_counted() {
    let items = vec![
        item(Item::Error(true)),
        item(Item::Unknown(UnknownItem {
            inv_type: 99,
            hash: vec![0; 32],
        })),
        InventoryItem { item: None },
    ];
    assert_eq!(inventory(&items), "1 unknown, 2 malformed");
}

#[test]
fn an_empty_inventory_says_so_rather_than_nothing() {
    assert_eq!(inventory(&[]), "empty");
}

#[test]
fn counts_are_singular_where_there_is_one_of_them() {
    assert_eq!(count(1, "address", "addresses"), "1 address");
    assert_eq!(count(0, "address", "addresses"), "0 addresses");
    assert_eq!(count(9, "address", "addresses"), "9 addresses");
}

/// `has_detail` and `describe` have to agree, or a command either pays for
/// a decode that yields nothing or never gets the line it has.
#[test]
fn every_gated_command_actually_has_a_description() {
    for (command, msg) in [
        ("inv", Msg::Inv(Inv { items: vec![] })),
        ("getdata", Msg::Getdata(GetData { items: vec![] })),
        ("notfound", Msg::Notfound(NotFound { items: vec![] })),
        (
            "addr",
            Msg::Addr(Addr {
                addresses: vec![Address],
            }),
        ),
        (
            "addrv2",
            Msg::Addrv2(AddrV2 {
                addresses: vec![Address],
            }),
        ),
        (
            "headers",
            Msg::Headers(Headers {
                headers: vec![header()],
            }),
        ),
        (
            "cmpctblock",
            Msg::Compactblock(CompactBlock {
                header: header(),
                nonce: 0,
                short_ids: vec![vec![0; 6]],
                transactions: vec![],
            }),
        ),
        (
            "getblocktxn",
            Msg::Getblocktxn(GetBlockTxn {
                block_hash: vec![0; 32],
                tx_indexes: vec![1, 2],
            }),
        ),
        (
            "blocktxn",
            Msg::Blocktxn(BlockTxn {
                block_hash: vec![0; 32],
                transactions: vec![],
            }),
        ),
    ] {
        assert!(has_detail(command), "{command} is said to have none");
        assert!(describe(&msg).is_some(), "{command} has no description");
    }
}

fn message_event(command: &str, msg: Option<Msg>) -> Event {
    Event {
        timestamp: 1,
        peer_observer_event: Some(PeerObserverEvent::EbpfExtractor(Ebpf {
            ebpf_event: Some(EbpfEvent::Message(MessageEvent {
                meta: Metadata {
                    peer_id: 1,
                    addr: String::new(),
                    conn_type: 0,
                    command: command.to_string(),
                    inbound: true,
                    size: 0,
                },
                msg,
            })),
        })),
    }
}

#[test]
fn the_detail_of_an_event_is_that_of_its_message() {
    let inv = Msg::Inv(Inv {
        items: vec![item(Item::Wtx(vec![1; 32]))],
    });
    assert_eq!(describe(&inv).as_deref(), Some("1 wtx"));
    assert_eq!(
        event_detail(&message_event("inv", Some(inv))).as_deref(),
        Some("1 wtx")
    );
    assert_eq!(
        event_detail(&message_event("ping", Some(Msg::Ping(Ping { value: 1 })))),
        None
    );
    assert_eq!(event_detail(&message_event("inv", None)), None);
    assert_eq!(
        event_detail(&Event {
            timestamp: 1,
            peer_observer_event: None,
        }),
        None
    );
}

#[test]
fn descriptions_read_as_they_should() {
    let tx = || Transaction {
        txid: vec![],
        wtxid: vec![],
        raw: None,
    };
    assert_eq!(
        describe(&Msg::Headers(Headers {
            headers: vec![header(), header()]
        }))
        .as_deref(),
        Some("2 headers")
    );
    assert_eq!(
        describe(&Msg::Addr(Addr {
            addresses: vec![Address]
        }))
        .as_deref(),
        Some("1 address")
    );
    assert_eq!(
        describe(&Msg::Blocktxn(BlockTxn {
            block_hash: vec![],
            transactions: vec![tx(), tx()]
        }))
        .as_deref(),
        Some("2 transactions")
    );
    assert_eq!(
        describe(&Msg::Getblocktxn(GetBlockTxn {
            block_hash: vec![],
            tx_indexes: vec![4]
        }))
        .as_deref(),
        Some("1 index")
    );
    assert_eq!(
        describe(&Msg::Block(Block {
            header: header(),
            transactions: vec![]
        })),
        None
    );
    assert!(!has_detail("block"));
    assert!(!has_detail("ping"));
    assert!(!has_detail(""));
}
