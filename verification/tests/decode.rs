use archive_viewer::decode::{
    frame_record, Completion, Compression, DecodeError, RecordDecoder, RecordSizes, Records,
};
use archive_viewer::proto::{
    ArchiveHeader, ConnEvent, ConnType, Connection, ConnectionEvent, Ebpf, EbpfEvent, Event,
    InboundConnection, MessageEvent, Metadata, Msg, PeerObserverEvent, Ping, Unknown,
};

/// A record's bytes. The same event always has the same ones.
fn encode(event: &Event) -> Vec<u8> {
    let Some(message) = message_in(event) else {
        return format!("{event:?}").into_bytes();
    };
    let meta = &message.meta;
    let mut out = format!(
        "{}|{}|{}|{}|{}|{}|{}|",
        event.timestamp,
        meta.peer_id,
        meta.addr,
        meta.conn_type,
        meta.command,
        meta.inbound,
        meta.size
    )
    .into_bytes();
    match &message.msg {
        Some(Msg::Ping(ping)) => out.extend_from_slice(&ping.value.to_le_bytes()),
        Some(Msg::Unknown(unknown)) => out.extend_from_slice(&unknown.payload),
        Some(Msg::Tx(tx)) => {
            out.extend_from_slice(&tx.tx.txid);
            out.extend_from_slice(&tx.tx.wtxid);
            out.extend_from_slice(tx.tx.raw.as_deref().unwrap_or(&[]));
        }
        other => out.extend_from_slice(format!("{other:?}").as_bytes()),
    }
    out
}

fn message_in(event: &Event) -> Option<&MessageEvent> {
    let Some(PeerObserverEvent::EbpfExtractor(ebpf)) = &event.peer_observer_event else {
        return None;
    };
    match &ebpf.ebpf_event {
        Some(EbpfEvent::Message(message)) => Some(message),
        _ => None,
    }
}

fn encode_header(header: &ArchiveHeader) -> Vec<u8> {
    format!("{header:?}").into_bytes()
}

fn framed(record: &[u8]) -> Vec<u8> {
    let mut out = Vec::new();
    frame_record(record, &mut out);
    out
}

fn header(created: u64, low_data: Option<bool>) -> ArchiveHeader {
    ArchiveHeader { created, low_data }
}

/// The uncompressed record stream: one header followed by the events.
fn record_stream(header: &ArchiveHeader, events: &[Event]) -> Vec<u8> {
    let mut out = framed(&encode_header(header));
    for event in events {
        out.extend_from_slice(&framed(&encode(event)));
    }
    out
}

fn ebpf(ts: u64, event: EbpfEvent) -> Event {
    Event {
        timestamp: ts,
        peer_observer_event: Some(PeerObserverEvent::EbpfExtractor(Ebpf {
            ebpf_event: Some(event),
        })),
    }
}

/// A message event, the most common kind by far.
fn message_event(ts: u64, peer_id: u64, command: &str, inbound: bool, size: u64) -> Event {
    with_msg(
        ts,
        peer_id,
        command,
        inbound,
        size,
        Msg::Ping(Ping { value: ts }),
    )
}

fn with_msg(
    ts: u64,
    peer_id: u64,
    command: &str,
    inbound: bool,
    size: u64,
    msg: Msg,
) -> Event {
    ebpf(
        ts,
        EbpfEvent::Message(MessageEvent {
            meta: Metadata {
                peer_id,
                addr: format!("10.0.0.{}:8333", peer_id % 251),
                conn_type: ConnType::Inbound as i32,
                command: command.to_string(),
                inbound,
                size,
            },
            msg: Some(msg),
        }),
    )
}

/// An inbound-connection event.
fn connection_event(ts: u64, peer_id: u64) -> Event {
    ebpf(
        ts,
        EbpfEvent::Connection(ConnectionEvent {
            event: Some(ConnEvent::Inbound(InboundConnection {
                conn: Connection {
                    peer_id,
                    addr: format!("10.0.0.{}:8333", peer_id % 251),
                    conn_type: ConnType::Inbound as i32,
                    network: 1,
                },
                existing_connections: peer_id,
            })),
        }),
    )
}

/// A complete, properly terminated zstd archive.
fn compress(bytes: &[u8], level: i32) -> Vec<u8> {
    zstd::stream::encode_all(bytes, level).expect("zstd compress")
}

/// An event carrying `payload_len` bytes, to exercise multi-byte varint length
/// prefixes (>127 needs two bytes, >16383 needs three).
fn big_event(ts: u64, payload_len: usize) -> Event {
    ebpf(
        ts,
        EbpfEvent::Message(MessageEvent {
            meta: Metadata {
                peer_id: 7,
                addr: "10.0.0.7:8333".to_string(),
                conn_type: ConnType::OutboundFullRelay as i32,
                command: "unknown".to_string(),
                inbound: false,
                size: payload_len as u64,
            },
            msg: Some(Msg::Unknown(Unknown {
                command: "weird".to_string(),
                payload: vec![0xAB; payload_len],
            })),
        }),
    )
}

/// Decode a whole archive in fixed-size chunks, returning the records and how
/// the stream ended.
fn decode_in_chunks(
    bytes: &[u8],
    chunk: usize,
    hint: Option<Compression>,
) -> (Vec<Vec<u8>>, Completion) {
    let mut sink = Records::new();
    let mut decoder = RecordDecoder::new(hint);
    for part in bytes.chunks(chunk.max(1)) {
        decoder.push(part, &mut sink).expect("push");
    }
    let completion = decoder.finish(&mut sink).expect("finish");
    let mut records = Vec::new();
    for i in 0..sink.len() {
        let (index, record) = sink.get(i).expect("a record");
        assert_eq!(index, i as u64, "records are numbered from zero");
        records.push(record.to_vec());
    }
    (records, completion)
}

fn sample_events() -> Vec<Event> {
    let mut events = Vec::new();
    for i in 0..200u64 {
        events.push(message_event(
            1_700_000_000_000 + i,
            i % 17,
            "inv",
            i % 2 == 0,
            100 + i,
        ));
        if i % 25 == 0 {
            events.push(connection_event(1_700_000_000_000 + i, i % 17));
        }
    }
    // Force two- and three-byte varint length prefixes.
    events.push(big_event(1_700_000_001_000, 200));
    events.push(big_event(1_700_000_002_000, 40_000));
    events
}

#[test]
fn roundtrips_a_complete_archive() {
    let header = header(1_700_000_000, Some(false));
    let events = sample_events();
    let archive = compress(&record_stream(&header, &events), 3);

    let (records, completion) = decode_in_chunks(&archive, 64 * 1024, Some(Compression::Zstd));

    assert!(
        !completion.truncated,
        "a finalised archive must not look truncated"
    );
    assert_eq!(completion.trailing_bytes, 0);
    assert_eq!(records.len(), events.len() + 1, "header plus every event");

    assert_eq!(records[0], encode_header(&header));

    for (raw, expected) in records[1..].iter().zip(&events) {
        assert_eq!(*raw, encode(expected));
    }
}

/// Records must be reassembled correctly no matter where chunk boundaries fall,
/// including in the middle of a varint length prefix.
#[test]
fn survives_every_chunk_boundary() {
    let header = header(1_700_000_000, None);
    let events = vec![
        message_event(1, 1, "ping", true, 32),
        big_event(2, 200), // two-byte length prefix
        message_event(3, 2, "pong", false, 32),
    ];
    let stream = record_stream(&header, &events);
    let archive = compress(&stream, 3);
    let expected = events.len() + 1;

    // Uncompressed: exercise a split at literally every byte offset.
    for chunk in 1..=stream.len() {
        let (records, completion) =
            decode_in_chunks(&stream, chunk, Some(Compression::Uncompressed));
        assert_eq!(records.len(), expected, "uncompressed, chunk size {chunk}");
        assert!(!completion.truncated, "uncompressed, chunk size {chunk}");
    }

    // Compressed: a handful of awkward sizes, including below the zstd magic.
    for chunk in [1, 2, 3, 7, 64, 1000, archive.len()] {
        let (records, completion) = decode_in_chunks(&archive, chunk, Some(Compression::Zstd));
        assert_eq!(records.len(), expected, "compressed, chunk size {chunk}");
        assert!(!completion.truncated, "compressed, chunk size {chunk}");
    }
}

/// The important one: an archive that is still being written ends mid-frame.
/// Every record before the cut must still come out, and truncation is reported
/// rather than raised as an error.
///
/// The fixture has to span several zstd blocks: a block holds up to 128 KiB and a
/// partial one is not decodable even in principle, so cutting inside the first
/// block could only ever yield nothing.
#[test]
fn recovers_records_from_a_truncated_frame() {
    let header = header(1_700_000_000, Some(true));
    let events: Vec<_> = (0..8_000u64)
        .map(|i| message_event(1_700_000_000_000 + i, i % 64, "inv", i % 2 == 0, 100 + i))
        .collect();
    let archive = compress(&record_stream(&header, &events), 3);
    let full = decode_in_chunks(&archive, 64 * 1024, Some(Compression::Zstd))
        .0
        .len();
    assert_eq!(full, events.len() + 1);

    // Cut most of the way through, as a live archive would be.
    let cut = archive.len() * 3 / 4;
    let (records, completion) =
        decode_in_chunks(&archive[..cut], 64 * 1024, Some(Compression::Zstd));

    assert!(completion.truncated);
    assert!(
        completion.incomplete_frame,
        "the frame has no terminating block"
    );
    assert!(
        records.len() > 1,
        "must recover the records decoded before the cut, got {}",
        records.len()
    );
    assert!(
        records.len() < full,
        "a truncated archive cannot yield every record"
    );

    // Whatever came out must be intact, not partially decoded garbage.
    assert_eq!(records[0], encode_header(&header));
    for (raw, expected) in records[1..].iter().zip(&events) {
        assert_eq!(*raw, encode(expected));
    }
}

/// Cutting inside the very first zstd block yields no records at all. That is
/// the format's limit, not a bug, and it must still be reported as truncation
/// rather than raised as an error.
#[test]
fn truncating_inside_the_first_block_yields_nothing_but_does_not_error() {
    let header = header(1, None);
    let events = sample_events();
    let archive = compress(&record_stream(&header, &events), 3);

    let (records, completion) = decode_in_chunks(&archive[..32], 8, Some(Compression::Zstd));

    assert!(records.is_empty());
    assert!(completion.truncated);
    assert!(completion.incomplete_frame);
}

#[test]
fn truncating_mid_record_reports_the_trailing_bytes() {
    let header = header(1, None);
    let events = vec![message_event(1, 1, "ping", true, 32), big_event(2, 300)];
    let mut stream = record_stream(&header, &events);
    stream.truncate(stream.len() - 100); // slice into the middle of the last record

    let (records, completion) = decode_in_chunks(&stream, 16, Some(Compression::Uncompressed));

    assert_eq!(records.len(), 2, "header and the one complete event");
    assert!(completion.truncated);
    assert!(
        !completion.incomplete_frame,
        "uncompressed streams have no frame"
    );
    assert!(completion.trailing_bytes > 0);
}

#[test]
fn reads_uncompressed_archives() {
    let header = header(42, None);
    let events = sample_events();
    let stream = record_stream(&header, &events);

    let (records, completion) = decode_in_chunks(&stream, 4096, Some(Compression::Uncompressed));

    assert!(!completion.truncated);
    assert_eq!(records.len(), events.len() + 1);
}

/// The zstd magic wins over the filename, so a renamed or extensionless archive
/// still opens.
#[test]
fn sniffs_compression_rather_than_trusting_the_hint() {
    let header = header(1, None);
    let events = vec![message_event(1, 1, "ping", true, 32)];

    let compressed = compress(&record_stream(&header, &events), 3);
    let (records, _) = decode_in_chunks(&compressed, 7, Some(Compression::Uncompressed));
    assert_eq!(records.len(), 2, "zstd data behind a plain .bin name");

    let plain = record_stream(&header, &events);
    let (records, _) = decode_in_chunks(&plain, 7, Some(Compression::Zstd));
    assert_eq!(records.len(), 2, "plain data behind a .zst name");
}

#[test]
fn rejects_an_implausible_record_length() {
    // A varint for 1 GiB, well past the record size limit.
    let mut bytes = Vec::new();
    prost::encoding::encode_varint(1 << 30, &mut bytes);
    bytes.extend_from_slice(&[0u8; 32]);

    let mut decoder = RecordDecoder::new(Some(Compression::Uncompressed));
    let mut sink = Records::new();
    let err = decoder
        .push(&bytes, &mut sink)
        .expect_err("must be rejected");

    assert!(
        matches!(err, DecodeError::RecordTooLarge { .. }),
        "got {err:?}"
    );
    assert_eq!(sink.len(), 0, "no record should be emitted");
    assert_eq!(err, DecodeError::RecordTooLarge { len: 1 << 30 });
}

#[test]
fn rejects_a_malformed_length_prefix() {
    let mut decoder = RecordDecoder::new(Some(Compression::Uncompressed));
    let mut sink = Records::new();
    let err = decoder
        .push(&[0xFF; 16], &mut sink)
        .expect_err("must be rejected");

    assert_eq!(err, DecodeError::MalformedVarint);
    assert_eq!(sink.len(), 0, "no record should be emitted");
}

#[test]
fn an_empty_file_is_not_an_error() {
    let mut decoder = RecordDecoder::new(None);
    let mut sink = Records::new();
    let completion = decoder.finish(&mut sink).expect("finish");
    assert!(!completion.truncated);
    assert_eq!(sink.len(), 0, "no record should be emitted");
}

#[test]
fn reports_byte_counters() {
    let header = header(1, None);
    let events = sample_events();
    let stream = record_stream(&header, &events);
    let archive = compress(&stream, 3);

    let mut decoder = RecordDecoder::new(Some(Compression::Zstd));
    let mut sizes = RecordSizes::new();
    decoder.push(&archive, &mut sizes).expect("push");
    decoder.finish(&mut sizes).expect("finish");
    let count = sizes.records();

    assert_eq!(decoder.compressed_bytes(), archive.len() as u64);
    assert_eq!(decoder.decompressed_bytes(), stream.len() as u64);
    assert_eq!(decoder.records(), count);
    assert_eq!(decoder.compression(), Some(Compression::Zstd));

    assert_eq!(count, events.len() as u64 + 1);
    let lengths: Vec<u64> = events.iter().map(|e| encode(e).len() as u64).collect();
    assert_eq!(
        sizes.bytes(),
        encode_header(&header).len() as u64 + lengths.iter().sum::<u64>()
    );
    assert_eq!(sizes.largest() as u64, *lengths.iter().max().unwrap());
}

#[test]
fn a_corrupt_frame_is_an_error_in_the_decoders_words() {
    let mut archive = compress(&framed(&[7; 300]), 3);
    let middle = archive.len() / 2;
    archive.truncate(middle);
    archive.extend_from_slice(&[0xFF; 64]);

    let mut decoder = RecordDecoder::new(None);
    let mut sink = Records::new();
    let pushed = decoder.push(&archive, &mut sink);
    let finished = match pushed {
        Ok(()) => decoder.finish(&mut sink).map(|_| ()),
        Err(error) => Err(error),
    };
    match finished {
        Err(DecodeError::Zstd(words)) => assert!(!words.is_empty()),
        other => panic!("a frame of noise is no archive: {other:?}"),
    }
}

#[test]
fn errors_say_what_is_wrong() {
    assert_eq!(
        DecodeError::MalformedVarint.message(),
        "malformed record length prefix; this is not a peer-observer archive"
    );
    assert_eq!(
        DecodeError::RecordTooLarge { len: 7 }.message(),
        "record claims to be 7 bytes, above the 67108864 byte limit; this is probably not a peer-observer archive"
    );
    assert_eq!(
        DecodeError::Zstd("bad block".to_string()).message(),
        "zstd decoding failed: bad block"
    );
}

/// Splitting a stream differently never changes what comes out of it.
#[test]
fn two_pushes_are_worth_one() {
    let header = header(1, None);
    let events = vec![message_event(1, 1, "ping", true, 32), big_event(2, 300)];
    let stream = record_stream(&header, &events);
    let (whole, end) = decode_in_chunks(&stream, stream.len(), Some(Compression::Uncompressed));
    for cut in 0..=stream.len() {
        let mut sink = Records::new();
        let mut decoder = RecordDecoder::new(Some(Compression::Uncompressed));
        decoder.push(&stream[..cut], &mut sink).expect("push");
        decoder.push(&stream[cut..], &mut sink).expect("push");
        let completion = decoder.finish(&mut sink).expect("finish");
        assert_eq!(sink.len(), whole.len());
        for (i, record) in whole.iter().enumerate() {
            assert_eq!(sink.get(i), Some((i as u64, record.as_slice())));
        }
        assert_eq!(completion.truncated, end.truncated);
    }
}

/// A stream that was refused stays refused, in the same words, whatever follows.
#[test]
fn a_refused_stream_stays_refused() {
    let mut archive = compress(&framed(&[7; 300]), 3);
    archive.truncate(4);
    archive.extend_from_slice(&[0xFF; 64]);

    let mut decoder = RecordDecoder::new(None);
    let mut sink = Records::new();
    decoder.push(&archive, &mut sink).expect("too little to start on");
    let first = decoder
        .finish(&mut sink)
        .expect_err("a frame of noise is no archive");
    assert!(matches!(first, DecodeError::Zstd(_)));
    let again = decoder.push(&[1, 2, 3], &mut sink);
    assert_eq!(again.expect_err("refused"), first);
    assert_eq!(decoder.finish(&mut sink).expect_err("refused"), first);
    let again = decoder.push(&framed(&[1]), &mut sink);
    assert_eq!(again.expect_err("refused"), first);
    assert_eq!(sink.len(), 0);
}

/// Nothing is left behind undecoded: what was pushed has all come out.
#[test]
fn every_byte_of_an_uncompressed_stream_is_counted_at_the_end() {
    let stream = record_stream(&header(1, None), &sample_events());
    for chunk in [1, 2, 7, 4096] {
        let mut decoder = RecordDecoder::new(Some(Compression::Uncompressed));
        let mut sizes = RecordSizes::new();
        for part in stream.chunks(chunk) {
            decoder.push(part, &mut sizes).expect("push");
        }
        decoder.finish(&mut sizes).expect("finish");
        assert_eq!(decoder.decompressed_bytes(), stream.len() as u64);
        assert_eq!(decoder.compressed_bytes(), stream.len() as u64);
    }
    // Shorter than what it takes to tell how the stream is compressed.
    let mut decoder = RecordDecoder::new(None);
    let mut sink = Records::new();
    decoder.push(&framed(&[9]), &mut sink).expect("push");
    decoder.finish(&mut sink).expect("finish");
    assert_eq!(decoder.decompressed_bytes(), 2);
    assert_eq!(sink.get(0), Some((0, &[9u8][..])));
}
