use archive_viewer::store::{direction_of, flags, EventStore, StoppedBecause, NO_PEER};

#[test]
fn retains_and_reads_back_events() {
    let mut store = EventStore::new(1 << 20);
    assert!(store.push(100, 1, 5, flags::HAS_DIRECTION | flags::INBOUND, 42, b"abc"));
    assert!(store.push(200, 2, NO_PEER, 0, 0, b"defgh"));

    assert_eq!(store.len(), 2);
    let row = store.row(0).unwrap();
    assert_eq!(
        (row.timestamp, row.kind, row.peer, row.size),
        (100, 1, 5, 42)
    );
    assert_eq!(row.inbound(), Some(true));
    assert_eq!(store.bytes(0), Some(&b"abc"[..]));
    assert_eq!(store.bytes(1), Some(&b"defgh"[..]));

    assert_eq!(
        store.row(1).unwrap().inbound(),
        None,
        "no direction for non-messages"
    );
    assert!(store.row(2).is_none());
    assert!(store.bytes(2).is_none());
}

/// Once the budget is spent retention stops, but what was already retained
/// stays readable and correct.
#[test]
fn stops_retaining_at_the_budget() {
    let budget = 1024;
    let mut store = EventStore::new(budget);
    let payload = [0u8; 64];

    let mut retained = 0;
    for i in 0..100u64 {
        if store.push(i, 0, NO_PEER, 0, 0, &payload) {
            retained += 1;
        }
    }

    assert!(store.is_full());
    assert!(retained > 0, "some events fit");
    assert!(retained < 100, "not all events fit");
    assert_eq!(store.len(), retained);
    assert!(store.bytes_used() <= budget);
    // Everything retained is still intact.
    for i in 0..retained as u32 {
        assert_eq!(store.bytes(i), Some(&payload[..]));
    }
}

/// A budget too small for even one event must not panic or retain garbage.
#[test]
fn a_budget_of_zero_retains_nothing() {
    let mut store = EventStore::new(0);
    assert!(!store.push(1, 0, NO_PEER, 0, 0, b"x"));
    assert!(store.is_empty());
    assert!(store.is_full());
}

#[test]
fn what_stopped_retention_is_said() {
    let mut store = EventStore::new(0);
    assert_eq!(store.stopped_because(), None);
    store.push(1, 0, NO_PEER, 0, 0, b"x");
    assert_eq!(store.stopped_because(), Some(StoppedBecause::Budget));
    assert_eq!(store.budget_bytes(), 0);
    assert_eq!(store.bytes_used(), 0);
}

#[test]
fn a_full_store_takes_nothing_more() {
    let mut store = EventStore::new(64);
    assert!(store.push(1, 0, NO_PEER, 0, 0, b"x"));
    assert!(!store.push(2, 0, NO_PEER, 0, 0, &[0; 64]));
    // Even what would have fitted.
    assert!(!store.push(3, 0, NO_PEER, 0, 0, b""));
    assert_eq!(store.len(), 1);
}

#[test]
fn the_columns_line_up() {
    let mut store = EventStore::new(1 << 20);
    store.push(100, 1, 5, flags::HAS_DIRECTION, 42, b"abc");
    store.push(200, 2, NO_PEER, 0, 0, b"");
    assert_eq!(store.timestamps(), &[100, 200]);
    assert_eq!(store.kinds(), &[1, 2]);
    assert_eq!(store.peers(), &[5, NO_PEER]);
    assert_eq!(store.flags(), &[flags::HAS_DIRECTION, 0]);
    assert_eq!(store.sizes(), &[42, 0]);
}

#[test]
fn a_direction_needs_its_flag() {
    assert_eq!(direction_of(0), None);
    assert_eq!(direction_of(flags::INBOUND), None);
    assert_eq!(direction_of(flags::HAS_DIRECTION), Some(false));
    assert_eq!(
        direction_of(flags::HAS_DIRECTION | flags::INBOUND),
        Some(true)
    );
}

/// Whatever is pushed later, and however that turns out, an event stays where it is.
#[test]
fn retained_events_stay_where_they_are() {
    let mut store = EventStore::new(4096);
    assert!(store.push(100, 1, 5, 0, 42, b"abc"));
    let n = store.len();
    assert!(store.push(200, 2, 6, 0, 43, b"defgh"));
    let row = store.row(n as u32).unwrap();
    let mut kept = 0;
    for i in 0..100 {
        kept += store.push(300 + i, 3, 7, 0, 1, &[0; 64]) as u64;
        let now = store.row(n as u32).unwrap();
        assert_eq!(
            (now.index, now.timestamp, now.kind, now.peer, now.flags, now.size),
            (row.index, row.timestamp, row.kind, row.peer, row.flags, row.size)
        );
        assert_eq!((now.index, now.timestamp, now.size), (1, 200, 43));
    }
    assert!(kept > 0 && kept < 100, "the budget ran out on the way");
    for i in 0..200u32 {
        assert_eq!(store.row(i).is_some(), (i as usize) < store.len());
    }
    assert_eq!(store.timestamps()[1], 200);
    assert_eq!((store.kinds()[1], store.peers()[1]), (2, 6));
}
