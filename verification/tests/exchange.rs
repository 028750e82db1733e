use archive_viewer::exchange::{
    exchange_count, is_optional, match_turns, reply_names, request_name, Tie, Tracker, Turn,
    EXCHANGE_COUNT,
};
use archive_viewer::store::NO_PEER;

const SECOND: u64 = 1000;

/// `(peer, command, inbound, seconds)`.
fn turns(rows: &[(u32, &'static str, bool, u64)]) -> Vec<Turn<'static>> {
    rows.iter()
        .map(|(peer, command, inbound, at)| Turn {
            peer: *peer,
            command,
            inbound: Some(*inbound),
            timestamp: at * SECOND,
        })
        .collect()
}

fn pairs(ties: &[Tie]) -> Vec<(usize, usize)> {
    ties.iter().map(|t| (t.request, t.reply)).collect()
}

#[test]
fn ties_both_halves_of_the_handshake_separately() {
    // Peer connects: it sends version, we answer verack, and the same
    // exchange runs the other way. Keying on direction keeps the two apart.
    let rows = turns(&[
        (0, "version", true, 0),  // 0
        (0, "version", false, 0), // 1
        (0, "verack", false, 1),  // 2 answers 0
        (0, "verack", true, 1),   // 3 answers 1
    ]);
    assert_eq!(pairs(&match_turns(&rows)), vec![(0, 2), (1, 3)]);
}

#[test]
fn a_reply_only_ties_to_the_same_peer() {
    let rows = turns(&[
        (7, "ping", false, 0),
        (9, "pong", true, 1), // a different peer: not an answer
        (7, "pong", true, 2),
    ]);
    assert_eq!(pairs(&match_turns(&rows)), vec![(0, 2)]);
}

#[test]
fn one_getdata_absorbs_every_transaction_it_asked_for() {
    let rows = turns(&[
        (0, "inv", true, 0),
        (0, "getdata", false, 1),
        (0, "tx", true, 2),
        (0, "tx", true, 3),
        (0, "tx", true, 4),
    ]);
    // inv -> getdata, then getdata -> each tx.
    assert_eq!(
        pairs(&match_turns(&rows)),
        vec![(0, 1), (1, 2), (1, 3), (1, 4)]
    );
}

#[test]
fn a_single_reply_exchange_is_answered_once() {
    let rows = turns(&[
        (0, "ping", false, 0),
        (0, "pong", true, 1),
        (0, "pong", true, 2), // stray: the request is already answered
    ]);
    assert_eq!(pairs(&match_turns(&rows)), vec![(0, 1)]);
}

#[test]
fn a_request_stops_matching_once_its_window_has_passed() {
    let rows = turns(&[
        (0, "getheaders", false, 0),
        (0, "headers", true, 10 * 60), // ten minutes later
    ]);
    assert!(match_turns(&rows).is_empty());
}

#[test]
fn unsolicited_announcements_are_left_untied() {
    // Gossip: an addrv2 nobody asked for, and an inv announcing a
    // transaction. Neither has a request open, so neither is tied.
    let rows = turns(&[(0, "addrv2", true, 0), (0, "inv", true, 1)]);
    assert!(match_turns(&rows).is_empty());
}

#[test]
fn a_later_request_takes_over_from_an_unanswered_one() {
    let rows = turns(&[
        (0, "getdata", false, 0),
        (0, "getdata", false, 1),
        (0, "tx", true, 2),
    ]);
    assert_eq!(pairs(&match_turns(&rows)), vec![(1, 2)]);
}

#[test]
fn reports_how_long_the_reply_took() {
    let rows = turns(&[(0, "getaddr", false, 0), (0, "addrv2", true, 42)]);
    let ties = match_turns(&rows);
    assert_eq!(ties.len(), 1);
    assert_eq!(ties[0].elapsed_ms, 42 * SECOND);
}

#[test]
fn follows_the_compact_block_round_trip() {
    let rows = turns(&[
        (0, "cmpctblock", true, 0),
        (0, "getblocktxn", false, 1),
        (0, "blocktxn", true, 2),
    ]);
    assert_eq!(pairs(&match_turns(&rows)), vec![(0, 1), (1, 2)]);
}

#[test]
fn events_without_a_peer_or_a_direction_are_skipped() {
    let rows = vec![
        Turn {
            peer: NO_PEER,
            command: "ping",
            inbound: Some(false),
            timestamp: 0,
        },
        Turn {
            peer: 0,
            command: "inbound",
            inbound: None,
            timestamp: 1,
        },
        Turn {
            peer: NO_PEER,
            command: "pong",
            inbound: Some(true),
            timestamp: 2,
        },
    ];
    assert!(match_turns(&rows).is_empty());
}

#[test]
fn every_request_names_its_replies() {
    for index in 0..EXCHANGE_COUNT {
        assert!(!request_name(index).is_empty());
        assert!(!reply_names(index).is_empty());
    }
    let ping = (0..EXCHANGE_COUNT)
        .find(|i| request_name(*i) == "ping")
        .expect("ping is a request");
    assert_eq!(reply_names(ping), vec!["pong"]);
    assert!(!is_optional(ping));
    let inv = (0..EXCHANGE_COUNT)
        .find(|i| request_name(*i) == "inv")
        .expect("inv is a request");
    assert!(is_optional(inv), "an announcement may be ignored");
}

#[test]
fn the_tracker_reports_what_a_message_opened_and_answered() {
    let mut tracker = Tracker::new();
    let ping = (0..exchange_count())
        .find(|i| request_name(*i) == "ping")
        .expect("ping is a request");

    let opened = tracker.observe(7, "ping", false, 1_000, 0);
    assert_eq!(opened.opened, Some(ping));
    assert!(opened.answered.is_none());
    assert!(opened.displaced.is_none());

    let reply = tracker.observe(7, "pong", true, 1_250, 1);
    let answered = reply.answered.expect("the pong answers the ping");
    assert_eq!(answered.exchange, ping);
    assert_eq!(answered.elapsed_ms, 250);
    assert!(reply.first_reply);
    assert!(reply.opened.is_none());

    // Nothing is waiting any more, however late it gets.
    let silence = tracker.sweep(1_000_000_000);
    assert_eq!(silence.len(), EXCHANGE_COUNT);
    assert!(silence.iter().all(|s| s.by_us == 0 && s.by_peers == 0));
}

#[test]
fn a_repeated_request_displaces_the_one_before_it() {
    let mut tracker = Tracker::new();
    tracker.observe(7, "ping", false, 1_000, 0);
    let again = tracker.observe(7, "ping", false, 2_000, 1);
    let displaced = again.displaced.expect("the first ping went unanswered");
    assert_eq!(request_name(displaced.exchange), "ping");
    assert!(!displaced.request_inbound);

    // Announcements and pipelined requests are not owed a reply each.
    tracker.observe(7, "inv", true, 3_000, 2);
    assert!(tracker.observe(7, "inv", true, 4_000, 3).displaced.is_none());
    tracker.observe(7, "getdata", false, 5_000, 4);
    assert!(tracker
        .observe(7, "getdata", false, 6_000, 5)
        .displaced
        .is_none());
}

#[test]
fn a_sweep_counts_the_silence_of_either_side_once() {
    let mut tracker = Tracker::new();
    let headers = (0..EXCHANGE_COUNT)
        .find(|i| request_name(*i) == "getheaders")
        .expect("getheaders is a request");
    tracker.observe(1, "getheaders", false, 0, 0);
    tracker.observe(2, "getheaders", true, 0, 1);

    // Two minutes are allowed, and not a millisecond more.
    let inside = tracker.sweep(2 * 60 * SECOND);
    assert!(inside.iter().all(|s| s.by_us == 0 && s.by_peers == 0));

    let past = tracker.sweep(2 * 60 * SECOND + 1);
    assert_eq!(past[headers].by_peers, 1);
    assert_eq!(past[headers].by_us, 1);

    let again = tracker.sweep(u64::MAX);
    assert!(again.iter().all(|s| s.by_us == 0 && s.by_peers == 0));
}
