use archive_viewer::proto::{
    ConnType, Inv, InventoryItem, Item, MessageEvent, Metadata, Msg, Transaction, Tx,
};
use archive_viewer::relay::{Ratio, Relay};

fn hash(seed: u8) -> Vec<u8> {
    let mut out = vec![seed; 32];
    out[8] = 0xAA; // beyond the 64-bit prefix, to prove it is not read
    out
}

fn meta(peer_id: u64, command: &str, inbound: bool, size: u64) -> Metadata {
    Metadata {
        peer_id,
        addr: format!("10.0.0.{peer_id}:8333"),
        conn_type: ConnType::Inbound as i32,
        command: command.to_string(),
        inbound,
        size,
    }
}

fn inv(peer_id: u64, inbound: bool, hashes: &[u8]) -> MessageEvent {
    MessageEvent {
        meta: meta(peer_id, "inv", inbound, 37 * hashes.len() as u64),
        msg: Some(Msg::Inv(Inv {
            items: hashes
                .iter()
                .map(|seed| InventoryItem {
                    item: Some(Item::Wtx(hash(*seed))),
                })
                .collect(),
        })),
    }
}

fn tx(peer_id: u64, seed: u8, size: u64) -> MessageEvent {
    MessageEvent {
        meta: meta(peer_id, "tx", true, size),
        msg: Some(Msg::Tx(Tx {
            tx: Transaction {
                txid: hash(seed),
                wtxid: hash(seed),
                raw: None,
            },
        })),
    }
}

#[test]
fn the_first_announcer_wins_and_the_rest_are_timed() {
    let mut relay = Relay::new();
    relay.record(1_000, &inv(7, true, &[1]));
    relay.record(1_250, &inv(8, true, &[1]));
    relay.record(1_900, &inv(9, true, &[1]));

    assert_eq!(relay.items(), 1, "one transaction, three announcements");
    assert_eq!(relay.announcements, 3);
    assert_eq!(relay.late_announcements, 2);

    assert_eq!(relay.peer(7).unwrap().first, 1);
    assert_eq!(relay.peer(7).unwrap().late, 0);
    assert_eq!(relay.peer(8).unwrap().lag.max_ms(), 250);
    assert_eq!(relay.peer(9).unwrap().lag.max_ms(), 900);
    assert_eq!(relay.peer(7).unwrap().win_ratio(), Some(Ratio { part: 1, whole: 1 }));
    assert_eq!(relay.peer(8).unwrap().win_ratio(), Some(Ratio { part: 0, whole: 1 }));
}

#[test]
fn a_second_delivery_of_the_same_transaction_is_wasted_bandwidth() {
    let mut relay = Relay::new();
    relay.record(1_000, &inv(7, true, &[1]));
    relay.record(1_100, &tx(7, 1, 400));
    relay.record(1_500, &tx(8, 1, 400));

    assert_eq!(relay.deliveries, 2);
    assert_eq!(relay.duplicate_deliveries, 1);
    assert_eq!(relay.duplicate_bytes, 400);
    assert_eq!(relay.duplicate_factor(), Some(Ratio { part: 2, whole: 1 }));

    assert_eq!(relay.peer(7).unwrap().duplicate, 0);
    assert_eq!(relay.peer(8).unwrap().duplicate, 1);
    assert_eq!(relay.peer(8).unwrap().duplicate_bytes, 400);
    // Only the first delivery measures the wait.
    assert_eq!(relay.peer(7).unwrap().heard_to_held.max_ms(), 100);
    assert!(relay.peer(8).unwrap().heard_to_held.is_empty());
}

#[test]
fn a_delivery_matches_an_announcement_under_either_hash() {
    let mut relay = Relay::new();
    // Announced by wtxid; the transaction carries a different txid.
    relay.record(1_000, &inv(7, true, &[1]));
    let mut delivery = tx(7, 1, 250);
    if let Some(Msg::Tx(t)) = &mut delivery.msg {
        t.tx.txid = hash(99);
    }
    relay.record(1_040, &delivery);

    assert_eq!(relay.items(), 1, "not a second, unrelated item");
    assert_eq!(relay.peer(7).unwrap().heard_to_held.max_ms(), 40);
}

#[test]
fn outbound_messages_say_nothing_about_who_told_us_first() {
    let mut relay = Relay::new();
    relay.record(1_000, &inv(7, false, &[1, 2, 3]));
    assert_eq!(relay.announcements, 0);
    assert_eq!(relay.items(), 0);
}

#[test]
fn block_announcements_are_left_out_of_the_transaction_figures() {
    let mut relay = Relay::new();
    let mut message = inv(7, true, &[1]);
    if let Some(Msg::Inv(i)) = &mut message.msg {
        i.items = vec![
            InventoryItem {
                item: Some(Item::Block(hash(1))),
            },
            InventoryItem {
                item: Some(Item::CompactBlock(hash(2))),
            },
            InventoryItem { item: None },
        ];
    }
    relay.record(1_000, &message);
    assert_eq!(relay.announcements, 0);
    assert_eq!(relay.items(), 0);
}

#[test]
fn a_transaction_with_no_hashes_is_skipped_rather_than_miscounted() {
    // What a --low-data archive looks like.
    let mut relay = Relay::new();
    let mut message = tx(7, 1, 300);
    if let Some(Msg::Tx(t)) = &mut message.msg {
        t.tx.txid = Vec::new();
        t.tx.wtxid = Vec::new();
    }
    relay.record(1_000, &message);
    assert_eq!(relay.deliveries, 0);
    assert_eq!(relay.items(), 0);
}

#[test]
fn totals_are_the_sum_of_every_peer() {
    let mut relay = Relay::new();
    relay.record(1_000, &inv(7, true, &[1, 2]));
    relay.record(1_100, &inv(8, true, &[1, 2]));
    relay.record(1_200, &tx(7, 1, 500));
    relay.record(1_300, &tx(8, 1, 500));

    let totals = relay.totals();
    assert_eq!(totals.first, 2, "peer 7 announced both first");
    assert_eq!(totals.late, 2);
    assert_eq!(totals.delivered, 2);
    assert_eq!(totals.duplicate, 1);
    assert_eq!(totals.duplicate_bytes, 500);
    assert_eq!(totals.lag.count(), relay.late_announcements);
}

/// A transaction can be sent unasked before anyone has announced it: whoever then
/// announces it first is still its first announcer.
#[test]
fn the_first_announcement_may_follow_a_delivery() {
    let mut relay = Relay::new();
    relay.record(1_000, &tx(7, 1, 400));
    relay.record(1_100, &inv(8, true, &[1]));
    relay.record(1_250, &inv(9, true, &[1]));
    relay.record(1_300, &tx(9, 1, 400));

    assert_eq!(relay.items(), 1);
    assert_eq!((relay.announcements, relay.late_announcements), (2, 1));
    assert_eq!((relay.deliveries, relay.duplicate_deliveries), (2, 1));
    let of = |id: u64| relay.peer(id).expect("a record");
    assert_eq!((of(7).first, of(7).late, of(7).delivered), (0, 0, 1));
    assert_eq!((of(8).first, of(8).late), (1, 0));
    assert_eq!((of(9).first, of(9).late), (0, 1));
    assert_eq!(of(9).lag.total_ms(), 150, "timed from the first announcement");
    assert_eq!(of(9).duplicate, 1);
}

/// The records of the peers, folded together, are the archive's own figures.
#[test]
fn the_folded_record_agrees_with_the_archive_in_full() {
    let mut relay = Relay::new();
    relay.record(1_000, &inv(1, true, &[1, 2]));
    relay.record(1_200, &inv(2, true, &[1, 2, 3]));
    relay.record(1_300, &tx(1, 1, 400));
    relay.record(1_350, &tx(2, 1, 400));
    relay.record(1_900, &inv(3, true, &[3]));

    let total = relay.totals();
    assert_eq!(total.first + total.late, relay.announcements);
    assert_eq!(total.late, relay.late_announcements);
    assert_eq!(total.delivered, relay.deliveries);
    assert_eq!(total.duplicate, relay.duplicate_deliveries);
    assert_eq!(total.duplicate_bytes, relay.duplicate_bytes);
    assert_eq!(total.lag, relay.lag);
    assert_eq!(total.heard_to_held, relay.heard_to_held);
    assert_eq!((total.first, total.late, total.delivered), (3, 3, 2));
    assert_eq!(total.lag.total_ms(), 200 + 200 + 700);
}
