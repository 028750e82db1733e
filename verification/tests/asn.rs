use archive_viewer::analysis::Analysis;
use archive_viewer::asn::{
    group, load_asmap, network_found, network_of, peer_ip, Network, NetworkStats,
};
use archive_viewer::asnames::{describe_listed, describe_many, Names};
use archive_viewer::peers::LifecycleKind;
use archive_viewer::proto::{
    ConnEvent, ConnType, ConnectionEvent, Ebpf, EbpfEvent, Event, MessageEvent, Metadata,
    MisbehavingConnection, Msg, PeerObserverEvent, Ping,
};
use archive_viewer::relay::Ratio;
use asmap::Asmap;

/// Where every address is but those that start with the bits `001`.
const ELSEWHERE: u32 = 13335;

/// Where the addresses are that start with the bits `001`, as all of IPv6 that is
/// in use does.
const IPV6: u32 = 24940;

fn number_bits(asn: u32, out: &mut Vec<bool>) {
    out.push(false);
    for bit in (0..15).rev() {
        out.push((asn - 1) >> bit & 1 == 1);
    }
}

fn pack(bits: &[bool]) -> Vec<u8> {
    let mut bytes = vec![0u8; bits.len().div_ceil(8)];
    for (i, bit) in bits.iter().enumerate() {
        if *bit {
            bytes[i / 8] |= 1 << (i % 8);
        }
    }
    bytes
}

/// Whatever starts with the bits `001` is in one network, and what does not is in
/// the other, or in none.
fn asmap_file(otherwise: Option<u32>) -> Vec<u8> {
    let mut bits = Vec::new();
    if let Some(asn) = otherwise {
        bits.extend([true, true, true]);
        number_bits(asn, &mut bits);
    }
    bits.extend([true, true, false]);
    bits.extend([true, true, false, false, false, true]);
    bits.push(false);
    number_bits(IPV6, &mut bits);
    pack(&bits)
}

fn everywhere() -> Asmap {
    load_asmap(asmap_file(Some(ELSEWHERE))).expect("a valid asmap")
}

#[test]
fn parses_the_address_formats_bitcoin_core_emits() {
    let ip = |addr: &str| peer_ip(addr);
    let is = |ip: &str| Some(ip.to_string());
    assert_eq!(ip("1.2.3.4:8333"), is("1.2.3.4"));
    assert_eq!(
        ip("[2602:f5c0:0:ace::72:158]:34081"),
        is("2602:f5c0:0:ace::72:158")
    );
    assert_eq!(ip("127.0.0.1:48682"), is("127.0.0.1"));
    // Bare addresses, just in case.
    assert_eq!(ip("8.8.8.8"), is("8.8.8.8"));
    assert_eq!(ip("2001:db8::1"), is("2001:db8::1"));
}

#[test]
fn non_ip_addresses_are_not_forced_into_a_bucket() {
    assert_eq!(peer_ip("explorernuoc63nb.onion:8333"), None);
    assert_eq!(peer_ip("gehtsi3qc5gxhq.b32.i2p:0"), None);
    assert_eq!(peer_ip(""), None);
}

/// As many of the next bits as these have to be these.
fn match_bits(pattern: &[bool], out: &mut Vec<bool>) {
    out.extend([true, true, false]);
    out.extend(vec![true; pattern.len() - 1]);
    if pattern.len() < 8 {
        out.push(false);
    }
    out.extend(pattern);
}

/// An asmap of IPv4 that tells addresses that start with 1, 8 and 127 apart.
fn three_networks() -> Asmap {
    let mut bits = Vec::new();
    for _ in 0..10 {
        match_bits(&[false; 8], &mut bits);
    }
    for _ in 0..2 {
        match_bits(&[true; 8], &mut bits);
    }
    match_bits(&[false], &mut bits);
    // Over the next 49 bits, if the second bit of the address is set.
    bits.extend([true, false, true, false]);
    bits.extend([false; 6]);
    match_bits(&[false, false], &mut bits);
    // Over the next 17, if the fifth is.
    bits.extend([true, false, false]);
    bits.extend([false; 5]);
    for asn in [101, 108, 127] {
        bits.push(false);
        number_bits(asn, &mut bits);
    }
    load_asmap(pack(&bits)).expect("a valid asmap")
}

#[test]
fn addresses_are_looked_up_as_they_are() {
    let asmap = three_networks();
    let mut analysis = Analysis::new(1 << 20);
    let addresses = [
        ("1.2.3.4:8333", Network::Asn(101)),
        ("127.0.0.1:48682", Network::Asn(127)),
        ("8.8.8.8", Network::Asn(108)),
        ("[::ffff:8.8.8.8]:1", Network::Asn(108)),
        ("130.0.0.1:8333", Network::UnmappedIp),
        ("2001:db8::1", Network::UnmappedIp),
        ("explorernuoc63nb.onion:8333", Network::Anonymising),
    ];
    for (i, (addr, network)) in addresses.iter().enumerate() {
        let mut event = message(i as u64, addr);
        assert!(analysis.accepts(&event));
        analysis.ingest_event(0, &mut event);
        let peer = analysis.peers.get(i as u64).expect("recorded");
        assert_eq!(network_of(peer, &asmap), *network, "{addr}");
    }
}

#[test]
fn eviction_ratio_needs_inbound_connections() {
    let mut stats = NetworkStats::default();
    assert_eq!(stats.eviction_ratio(), None);

    stats.lifecycle[LifecycleKind::Inbound.index()] = 100;
    stats.lifecycle[LifecycleKind::InboundEvicted.index()] = 97;
    assert_eq!(
        stats.eviction_ratio(),
        Some(Ratio {
            part: 97,
            whole: 100
        })
    );
    let Ratio { part, whole } = stats.eviction_ratio().unwrap();
    assert_eq!(part as f64 / whole as f64, 0.97);
    assert_eq!(stats.count(LifecycleKind::Inbound), 100);
    assert_eq!(stats.events(), 197);
}

#[test]
fn an_invalid_asmap_is_refused() {
    for bytes in [vec![], vec![0xFF; 8], vec![0]] {
        let reason = load_asmap(bytes).err().expect("not an asmap");
        assert_eq!(
            reason,
            "not a valid asmap file: asmap data failed validation"
        );
    }
}

#[test]
fn an_address_outside_the_file_is_unmapped() {
    let asmap = load_asmap(asmap_file(None)).expect("a valid asmap");
    let mut analysis = Analysis::new(1 << 20);
    let mut event = message(1, "1.2.3.4:8333");
    assert!(analysis.accepts(&event));
    analysis.ingest_event(0, &mut event);
    let peer = analysis.peers.get(1).expect("recorded");
    assert_eq!(network_of(peer, &asmap), Network::UnmappedIp);
    assert_eq!(network_found(0), Network::UnmappedIp);
    assert_eq!(network_found(7), Network::Asn(7));
    assert_eq!(Network::UnmappedIp.label(), "unmapped IP");
    assert_eq!(Network::Anonymising.label(), "Tor / I2P / CJDNS");
    assert_eq!(Network::Unknown.label(), "address not seen");
    assert_eq!(Network::Asn(7).label(), "");
    assert_eq!(Network::Asn(7).asn(), Some(7));
    assert_eq!(Network::Unknown.asn(), None);
}

#[test]
fn a_bracket_that_is_never_closed_still_holds_its_address() {
    assert_eq!(peer_ip("[2001:db8::1").as_deref(), Some("2001:db8::1"));
    assert_eq!(peer_ip("["), None);
    assert_eq!(peer_ip("[]:8333"), None);
    assert_eq!(peer_ip("1.2.3.4:http"), None);
}

fn message(peer_id: u64, addr: &str) -> Event {
    Event {
        timestamp: 100 + peer_id,
        peer_observer_event: Some(PeerObserverEvent::EbpfExtractor(Ebpf {
            ebpf_event: Some(EbpfEvent::Message(MessageEvent {
                meta: Metadata {
                    peer_id,
                    addr: addr.to_string(),
                    conn_type: ConnType::Inbound as i32,
                    command: "ping".to_string(),
                    inbound: true,
                    size: 8,
                },
                msg: Some(Msg::Ping(Ping { value: 1 })),
            })),
        })),
    }
}

fn misbehaving(peer_id: u64) -> Event {
    Event {
        timestamp: 500,
        peer_observer_event: Some(PeerObserverEvent::EbpfExtractor(Ebpf {
            ebpf_event: Some(EbpfEvent::Connection(ConnectionEvent {
                event: Some(ConnEvent::Misbehaving(MisbehavingConnection {
                    id: peer_id,
                    message: "bad".to_string(),
                })),
            })),
        })),
    }
}

#[test]
fn every_peer_is_in_exactly_one_network() {
    let mut analysis = Analysis::new(1 << 20);
    analysis.open_file("a.bin".to_string(), 0);
    let mut events = vec![
        message(1, "[2001:db8::1]:8333"),
        message(2, "[2001:db8::2]:8333"),
        message(3, "1.2.3.4:8333"),
        message(4, "explorernuoc63nb.onion:8333"),
        misbehaving(5),
    ];
    for event in &mut events {
        assert!(analysis.accepts(event));
        analysis.ingest_event(0, event);
    }

    let asmap = everywhere();
    let groups = group(&analysis, &asmap);
    assert_eq!(groups.len(), 4);
    assert_eq!(groups.iter().map(|(_, stats)| stats.peers).sum::<u64>(), 5);
    let of = |network: Network| {
        groups
            .iter()
            .find(|(n, _)| *n == network)
            .expect("the network is there")
            .1
    };
    assert_eq!(of(Network::Asn(IPV6)).peers, 2);
    assert_eq!(of(Network::Asn(IPV6)).bytes_in, 16);
    assert_eq!(of(Network::Asn(IPV6)).first_seen, 101);
    assert_eq!(of(Network::Asn(IPV6)).last_seen, 102);
    assert_eq!(of(Network::Asn(ELSEWHERE)).peers, 1);
    assert_eq!(of(Network::Anonymising).peers, 1);
    assert_eq!(of(Network::Unknown).peers, 1);
    assert_eq!(of(Network::Unknown).count(LifecycleKind::Misbehaving), 1);

    for peer in analysis.peers.iter() {
        let network = network_of(peer, &asmap);
        assert!(groups.iter().any(|(n, _)| *n == network));
    }
}

#[test]
fn the_names_of_autonomous_systems_come_from_the_registry() {
    let names = describe_many(&vec![IPV6, 13335, IPV6]);
    assert_eq!(names.rows.len(), 2, "each is looked up once");
    for row in &names.rows {
        let entry = asinfo::lookup(row.0).expect("a known system");
        assert_eq!(row.1.handle, entry.handle.to_string());
        assert_eq!(row.1.description, entry.description.to_string());
        assert_eq!(row.1.country, entry.country.as_str());
    }
    assert!(describe_many(&vec![]).rows.is_empty());
    assert!(Names::new().rows.is_empty());

    // Nothing is said of a system nobody has heard of.
    assert!(asinfo::lookup(u32::MAX).is_none());
    assert!(describe_many(&vec![u32::MAX]).rows.is_empty());
}

#[test]
fn a_networks_events_are_its_peers_events() {
    let mut analysis = Analysis::new(64 * 1024 * 1024);
    let mut events = vec![
        message(1, "[2001:db8::1]:8333"),
        message(1, "[2001:db8::1]:8333"),
        message(2, "[2001:db8::2]:8333"),
        message(3, "1.2.3.4:8333"),
        misbehaving(1),
        misbehaving(5),
    ];
    for event in &mut events {
        assert!(analysis.accepts(event));
        analysis.ingest_event(0, event);
    }

    let asmap = everywhere();
    let groups = group(&analysis, &asmap);
    for (network, stats) in &groups {
        let sum: u64 = analysis
            .peers
            .iter()
            .iter()
            .filter(|peer| network_of(peer, &asmap) == *network)
            .map(|peer| peer.events())
            .sum();
        assert_eq!(stats.events(), sum);
    }
    let of = |network: Network| groups.iter().find(|(n, _)| *n == network).unwrap().1.events();
    assert_eq!(of(Network::Asn(IPV6)), 4);
    assert_eq!(of(Network::Asn(ELSEWHERE)), 1);
    assert_eq!(of(Network::Unknown), 1);
}

/// More bytes than an asmap can have.
#[test]
fn an_asmap_that_is_too_long_is_refused() {
    let reason = load_asmap(vec![0; 0x2000_0000]).err().expect("too long");
    assert_eq!(
        reason,
        "not a valid asmap file: asmap data failed validation"
    );
}

#[test]
fn the_numbers_to_name_come_as_a_json_array() {
    let names = describe_listed(" [24940, 13335, 24940] ").expect("an array of numbers");
    let numbers: Vec<u32> = names.rows.iter().map(|row| row.0).collect();
    assert_eq!(numbers, vec![24940, 13335]);
    assert_eq!(names.rows, describe_many(&vec![24940, 13335]).rows);
    assert!(describe_listed("[]").expect("an empty array").rows.is_empty());

    for text in ["", "nope", "[1", "[-1]", "[1.5]", "[4294967296]", "{}", "[\"1\"]"] {
        let words = serde_json::from_str::<Vec<u32>>(text).unwrap_err().to_string();
        assert_eq!(
            describe_listed(text).err(),
            Some(format!("expected a JSON array of ASNs: {words}")),
            "{text}"
        );
    }
}
