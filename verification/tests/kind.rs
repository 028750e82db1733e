use archive_viewer::kind::{classify, Category, Group, KindTable, GROUPS, UNKNOWN};
use archive_viewer::proto::{
    Ebpf, EbpfEvent, Event, MempoolChange, MempoolEvent, PeerObserverEvent, Rpc, RpcEvent,
    Validated, ValidationEvent,
};

#[test]
fn interning_is_stable_and_dense() {
    let mut table = KindTable::new();
    let inv = table.intern(Group::EbpfMessage, "inv");
    let tx = table.intern(Group::EbpfMessage, "tx");

    assert_eq!(inv, 0);
    assert_eq!(tx, 1);
    assert_eq!(
        table.intern(Group::EbpfMessage, "inv"),
        inv,
        "re-interning is stable"
    );
    assert_eq!(table.len(), 2);
    assert_eq!(table.get(inv).unwrap().name, "inv");
}

/// The same name in two groups is two kinds: `ebpf.validation.block_connected`
/// and `log.block_connected` are different events.
#[test]
fn the_same_name_in_two_groups_is_two_kinds() {
    let mut table = KindTable::new();
    let validation = table.intern(Group::EbpfValidation, "block_connected");
    let log = table.intern(Group::Log, "block_connected");

    assert_ne!(validation, log);
    assert_eq!(table.get(validation).unwrap().category(), Category::Ebpf);
    assert_eq!(table.get(log).unwrap().category(), Category::Log);
}

#[test]
fn group_indices_match_the_groups_table() {
    for (i, group) in GROUPS.iter().enumerate() {
        assert_eq!(group.index(), i);
    }
}

#[test]
fn a_kind_is_labelled_by_its_group_and_name() {
    let mut table = KindTable::new();
    assert!(table.is_empty());
    assert!(table.has_room_for(Group::EbpfMessage, "inv"));
    let inv = table.intern(Group::EbpfMessage, "inv");
    assert_eq!(table.get(inv).unwrap().label(), "inv");
    let closed = table.intern(Group::EbpfConnection, "closed");
    assert_eq!(table.get(closed).unwrap().label(), "connection closed");
    assert_eq!(Group::EbpfMessage.as_str(), "message");
    assert_eq!(Category::Ebpf.as_str(), "ebpf");
    assert!(table.get(2).is_none());
    assert_eq!(table.iter().len(), 2);
}

fn event(arm: PeerObserverEvent) -> Event {
    Event {
        timestamp: 1,
        peer_observer_event: Some(arm),
    }
}

#[test]
fn events_are_classified_by_their_arm() {
    let added = event(PeerObserverEvent::EbpfExtractor(Ebpf {
        ebpf_event: Some(EbpfEvent::Mempool(MempoolEvent {
            event: Some(MempoolChange::Added),
        })),
    }));
    assert_eq!(classify(&added), (Group::EbpfMempool, "added"));

    let connected = event(PeerObserverEvent::EbpfExtractor(Ebpf {
        ebpf_event: Some(EbpfEvent::Validation(ValidationEvent {
            event: Some(Validated::BlockConnected),
        })),
    }));
    assert_eq!(
        classify(&connected),
        (Group::EbpfValidation, "block_connected")
    );

    let uptime = event(PeerObserverEvent::RpcExtractor(Rpc {
        rpc_event: Some(RpcEvent::Uptime),
    }));
    assert_eq!(classify(&uptime), (Group::Rpc, "uptime"));

    let empty = Event {
        timestamp: 1,
        peer_observer_event: None,
    };
    assert_eq!(classify(&empty), (Group::EbpfMessage, UNKNOWN));
}
