use archive_viewer::decode::{
    frame_record, hint, read_varint, Compression, RecordDecoder, Records, Varint,
};

#[test]
fn varint_roundtrip() {
    for value in [0u64, 1, 127, 128, 300, 47_092, u32::MAX as u64, u64::MAX] {
        let mut buf = Vec::new();
        prost::encoding::encode_varint(value, &mut buf);
        match read_varint(&buf) {
            Varint::Value(got, n) => {
                assert_eq!(got, value);
                assert_eq!(n, buf.len());
            }
            _ => panic!("failed to read varint for {value}"),
        }
    }
}

#[test]
fn varint_incomplete_is_not_an_error() {
    // 300 encodes as two bytes; the first alone must read as incomplete.
    assert!(matches!(read_varint(&[0xAC]), Varint::Incomplete));
    assert!(matches!(read_varint(&[]), Varint::Incomplete));
}

#[test]
fn varint_overlong_is_invalid() {
    assert!(matches!(read_varint(&[0xFF; 11]), Varint::Invalid));
}

#[test]
fn a_tenth_byte_holds_one_bit() {
    let mut nine = vec![0xFFu8; 9];
    nine.push(0x01);
    assert!(matches!(read_varint(&nine), Varint::Value(u64::MAX, 10)));

    // Anything more would not fit a u64.
    let mut wide = vec![0x80u8; 9];
    wide.push(0x02);
    assert!(matches!(read_varint(&wide), Varint::Invalid));
}

#[test]
fn a_framed_record_starts_with_its_length() {
    let mut out = vec![9u8];
    frame_record(b"abc", &mut out);
    assert_eq!(out, vec![9, 3, b'a', b'b', b'c']);

    let mut long = Vec::new();
    frame_record(&[7u8; 300], &mut long);
    assert_eq!(&long[..2], &[0xAC, 0x02]);
    assert_eq!(long.len(), 302);
}

#[test]
fn framing_agrees_with_the_protobuf_encoding() {
    for len in [0usize, 1, 127, 128, 16_383, 16_384] {
        let record = vec![0x5Au8; len];
        let mut ours = Vec::new();
        frame_record(&record, &mut ours);
        let mut theirs = Vec::new();
        prost::encoding::encode_varint(len as u64, &mut theirs);
        theirs.extend_from_slice(&record);
        assert_eq!(ours, theirs);
    }
}

#[test]
fn a_name_hints_at_its_compression() {
    assert_eq!(hint("a.bin.zst"), Some(Compression::Zstd));
    assert_eq!(hint("a.bin"), Some(Compression::Uncompressed));
    assert_eq!(hint(""), Some(Compression::Uncompressed));
    assert_eq!(hint("zst"), Some(Compression::Uncompressed));
}

#[test]
fn nothing_left_over_holds_a_record() {
    // A second record's length prefix announces more than there is.
    let mut stream = Vec::new();
    frame_record(b"one", &mut stream);
    stream.extend_from_slice(&[5, b't', b'w']);

    let mut records = Records::new();
    let mut decoder = RecordDecoder::new(Some(Compression::Uncompressed));
    decoder.push(&stream, &mut records).expect("push");
    let completion = decoder.finish(&mut records).expect("finish");

    assert_eq!(records.len(), 1);
    assert_eq!(records.get(0), Some((0, &b"one"[..])));
    assert!(records.get(1).is_none());
    assert!(completion.truncated);
    assert_eq!(completion.trailing_bytes, 3);
    assert_eq!(decoder.records(), 1);
}
