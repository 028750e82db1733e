//! Push-based streaming decoder for peer-observer archive files.
//!
//! The browser hands us bytes as `ReadableStream` chunks, so this is driven by
//! [`RecordDecoder::push`] rather than by a `Read`. Each call decompresses what
//! it can, splits complete varint-length-delimited records out of the result and
//! hands them to a [`RecordSink`]; anything incomplete is carried over to the
//! next chunk.
//!
//! Truncation is a normal outcome, not an error: an archive that is still being
//! written ends mid-frame, and every record before the cut is perfectly good.

use crate::latency;
use crate::text;
use ruzstd::decoding::errors::FrameDecoderError;
use ruzstd::decoding::FrameDecoder;
use vstd::prelude::*;
use vstd::slice::slice_subrange;

verus! {

/// zstd frame magic (`28 b5 2f fd`).
pub const ZSTD_MAGIC: [u8; 4] = [0x28, 0xB5, 0x2F, 0xFD];

/// Refuse absurd record lengths rather than trying to allocate for them. The
/// largest record seen in practice is a block message at ~47 KB; this leaves
/// room for a maximum-size block and then some.
pub const MAX_RECORD_LEN: u64 = 64 * 1024 * 1024;

/// A zstd block can be up to 128 KiB and the frame decoder cannot make progress
/// without a whole one, so buffer at least that much (plus block and frame
/// header slack) before asking it to decode.
pub const MIN_DECODE_INPUT: usize = 128 * 1024 + 3 + 18;

/// The longest a zstd frame header can be.
pub const FRAME_HEADER_LEN: usize = 18;

/// Scratch buffer for draining decompressed bytes out of the zstd decoder.
pub const DECOMPRESS_CHUNK: usize = 256 * 1024;

/// Compact the scan buffer once this many consumed bytes have accumulated.
const COMPACT_THRESHOLD: usize = 1024 * 1024;

/// peer-observer archives are written by `zstd::Encoder::new`, which for higher
/// levels declares a 128 MiB window — above ruzstd's 100 MB default, which would
/// otherwise reject the file outright. Allow up to 512 MiB (windowLog 29).
/// Nothing is allocated up front; the decoder's ring buffer grows only as far as
/// the data actually produced.
pub const MAX_WINDOW_SIZE: u64 = 512 * 1024 * 1024;

/// A raw, empty block that is its frame's last: what ends a frame that has no
/// terminating block of its own.
pub const END_OF_FRAME: [u8; 3] = [0x01, 0x00, 0x00];

/// What reading a length prefix came to.
#[derive(Debug, Clone, Copy, PartialEq, Eq)]
pub enum Varint {
    /// The value, and how many bytes it took.
    Value(u64, usize),
    /// More bytes are needed to tell.
    Incomplete,
    Invalid,
}

/// The seven payload bits of each of the first `n` bytes, least significant
/// first.
pub open spec fn varint_value(bytes: Seq<u8>, n: int) -> int
    decreases n,
{
    if n <= 0 {
        0
    } else {
        varint_value(bytes, n - 1) + (bytes[n - 1] % 128) * scale(n - 1)
    }
}

/// `128` to the power `n`.
pub open spec fn scale(n: int) -> int
    decreases n,
{
    if n <= 0 {
        1
    } else {
        128 * scale(n - 1)
    }
}

/// What reading on from byte `at` comes to, the bytes before it all having said
/// that another follows. The tenth byte may only carry the single remaining bit
/// of a `u64`.
pub open spec fn varint_from(bytes: Seq<u8>, at: int) -> Varint
    decreases 10 - at,
{
    if at >= 10 {
        Varint::Invalid
    } else if at >= bytes.len() {
        Varint::Incomplete
    } else if at == 9 && bytes[at] > 1 {
        Varint::Invalid
    } else if bytes[at] < 128 {
        Varint::Value(varint_value(bytes, at + 1) as u64, (at + 1) as usize)
    } else {
        varint_from(bytes, at + 1)
    }
}

/// A number in base-128, least significant group first, each byte but the last
/// flagged as having another after it.
pub open spec fn varint_bytes(value: nat) -> Seq<u8>
    decreases value,
{
    if value < 128 {
        seq![value as u8]
    } else {
        seq![(value % 128 + 128) as u8] + varint_bytes(value / 128)
    }
}

/// Reads a protobuf base-128 varint. This is the same framing prost's
/// `encode_length_delimited` writes: a bare length, with no field tag.
pub fn read_varint(buf: &[u8]) -> (varint: Varint)
    ensures
        varint == varint_from(buf@, 0),
{
    let mut value: u64 = 0;
    let mut place: u64 = 1;
    let mut at: usize = 0;
    while at < 10 && at < buf.len()
        invariant
            at <= 10,
            at <= buf@.len(),
            value == varint_value(buf@, at as int),
            value < scale(at as int),
            at < 10 ==> place == scale(at as int),
            varint_from(buf@, 0) == varint_from(buf@, at as int),
        decreases 10 - at,
    {
        let byte: u8 = buf[at];
        // The 10th byte may only carry the single remaining bit of a u64.
        if at == 9 && byte > 1 {
            return Varint::Invalid;
        }
        proof {
            lemma_scale(at as int);
            assert((byte % 128) * scale(at as int) <= 127 * scale(at as int)) by (nonlinear_arith)
                requires
                    byte % 128 <= 127,
                    scale(at as int) > 0,
            ;
            if at == 9 {
                assert((byte % 128) * scale(9) <= scale(9)) by (nonlinear_arith)
                    requires
                        byte % 128 <= 1,
                        scale(9) > 0,
                ;
            }
        }
        value = value + (byte % 128) as u64 * place;
        if byte < 128 {
            return Varint::Value(value, at + 1);
        }
        at = at + 1;
        if at < 10 {
            place = place * 128;
        }
    }
    if at >= 10 {
        Varint::Invalid
    } else {
        Varint::Incomplete
    }
}

proof fn lemma_scale(n: int)
    requires
        0 <= n <= 9,
    ensures
        0 < scale(n) <= 0x8000_0000_0000_0000,
        n < 9 ==> scale(n + 1) <= 0x8000_0000_0000_0000,
        scale(9) == 0x8000_0000_0000_0000,
        n <= 8 ==> scale(n) <= 0x100_0000_0000_0000,
{
    reveal_with_fuel(scale, 11);
}

/// Whether an archive's bytes are zstd-compressed.
#[derive(Debug, Clone, Copy, PartialEq, Eq)]
pub enum Compression {
    Uncompressed,
    Zstd,
}

/// How a stream ended.
#[derive(Debug, Clone, Copy, PartialEq, Eq)]
pub struct Completion {
    /// The stream ended mid-record or mid-frame. Expected for an archive that is
    /// still being written; every record reported before this point is valid.
    pub truncated: bool,
    /// Decompressed bytes left over that did not form a complete record.
    pub trailing_bytes: usize,
    /// The zstd frame had no terminating block (the writer never called
    /// `finish()`, e.g. because it is still running or was killed).
    pub incomplete_frame: bool,
}

impl Default for Completion {
    fn default() -> (completion: Self)
        ensures
            completion == (Completion {
                truncated: false,
                trailing_bytes: 0,
                incomplete_frame: false,
            }),
    {
        Completion { truncated: false, trailing_bytes: 0, incomplete_frame: false }
    }
}

/// Fatal decoding problems. Truncation is deliberately *not* one of these.
#[derive(Debug, PartialEq, Eq)]
pub enum DecodeError {
    /// The zstd stream itself is malformed.
    Zstd(String),
    /// A record length prefix was not a valid varint.
    MalformedVarint,
    /// A record claimed an implausible length, so the stream is not what we think.
    RecordTooLarge { len: u64 },
}

/// What the front of a stream holds.
pub enum Next {
    /// A complete record, between these two positions.
    Record(int, int),
    /// The beginning of one.
    Partial,
    Failed(DecodeError),
}

/// What the front of `bytes` holds.
pub open spec fn next_record(bytes: Seq<u8>) -> Next {
    match varint_from(bytes, 0) {
        Varint::Incomplete => Next::Partial,
        Varint::Invalid => Next::Failed(DecodeError::MalformedVarint),
        Varint::Value(len, n) => if len > MAX_RECORD_LEN {
            Next::Failed(DecodeError::RecordTooLarge { len })
        } else if bytes.len() < n + len {
            Next::Partial
        } else {
            Next::Record(n as int, n + len)
        },
    }
}

/// A stream taken apart.
#[verifier::ext_equal]
pub struct Split {
    /// The complete records at the front of it.
    pub records: Seq<Seq<u8>>,
    /// What is left after them.
    pub rest: Seq<u8>,
    /// Why it cannot be read any further, if more bytes will not help.
    pub error: Option<DecodeError>,
}

/// Take a stream apart into its records.
pub open spec fn split(bytes: Seq<u8>) -> Split
    decreases bytes.len(),
{
    match next_record(bytes) {
        Next::Partial => Split { records: Seq::empty(), rest: bytes, error: None },
        Next::Failed(error) => Split { records: Seq::empty(), rest: bytes, error: Some(error) },
        Next::Record(start, end) => {
            proof {
                lemma_varint_len(bytes, 0);
            }
            let tail = split(bytes.skip(end));
            Split {
                records: seq![bytes.subrange(start, end)] + tail.records,
                rest: tail.rest,
                error: tail.error,
            }
        },
    }
}

/// A record with its length in front of it.
pub open spec fn framed(record: Seq<u8>) -> Seq<u8> {
    varint_bytes(record.len()) + record
}

/// Records with their lengths in front of them, end to end.
pub open spec fn framed_stream(records: Seq<Seq<u8>>) -> Seq<u8>
    decreases records.len(),
{
    if records.len() == 0 {
        Seq::empty()
    } else {
        framed(records.first()) + framed_stream(records.drop_first())
    }
}

/// A complete varint ends inside the bytes it was read from.
pub proof fn lemma_varint_len(bytes: Seq<u8>, at: int)
    requires
        0 <= at,
    ensures
        varint_from(bytes, at) matches Varint::Value(_, n) ==> at < n <= 10 && n <= bytes.len(),
    decreases 10 - at,
{
    if at < 10 {
        lemma_varint_len(bytes, at + 1);
    }
}

proof fn lemma_varint_value_stable(a: Seq<u8>, b: Seq<u8>, n: int)
    requires
        n <= a.len(),
    ensures
        varint_value(a + b, n) == varint_value(a, n),
    decreases n,
{
    if n > 0 {
        lemma_varint_value_stable(a, b, n - 1);
        assert((a + b)[n - 1] == a[n - 1]);
    }
}

/// Once a varint has been read, more bytes do not change it.
proof fn lemma_varint_stable(a: Seq<u8>, b: Seq<u8>, at: int)
    requires
        0 <= at,
        varint_from(a, at) !is Incomplete,
    ensures
        varint_from(a + b, at) == varint_from(a, at),
    decreases 10 - at,
{
    if at < 10 {
        assert((a + b)[at] == a[at]);
        if at == 9 && a[at] > 1 {
        } else if a[at] < 128 {
            lemma_varint_value_stable(a, b, at + 1);
        } else {
            lemma_varint_stable(a, b, at + 1);
        }
    }
}

/// Where a stream is cut into chunks makes no difference: reading `b` on from
/// what `a` left over gives the records the two together hold.
pub proof fn law_split_across_chunks(a: Seq<u8>, b: Seq<u8>)
    ensures
        split(a + b) == ({
            let tail = split(split(a).rest + b);
            Split {
                records: split(a).records + tail.records,
                rest: tail.rest,
                error: tail.error,
            }
        }),
    decreases a.len(),
{
    let tail = split(split(a).rest + b);
    match next_record(a) {
        Next::Partial => {
            assert(split(a).records + tail.records =~= tail.records);
        },
        Next::Failed(error) => {
            lemma_varint_stable(a, b, 0);
            assert(split(a).records + tail.records =~= tail.records);
        },
        Next::Record(start, end) => {
            lemma_varint_len(a, 0);
            lemma_varint_stable(a, b, 0);
            assert((a + b).subrange(start, end) =~= a.subrange(start, end));
            assert((a + b).skip(end) =~= a.skip(end) + b);
            law_split_across_chunks(a.skip(end), b);
            assert(split(a + b).records =~= split(a).records + tail.records);
        },
    }
}

/// What is left over holds no further record, and is the reason there is none.
pub proof fn law_the_rest_holds_no_record(bytes: Seq<u8>)
    ensures
        split(split(bytes).rest) == (Split { records: Seq::empty(), ..split(bytes) }),
        split(bytes).rest.len() <= bytes.len(),
        split(bytes).records.len() <= bytes.len(),
    decreases bytes.len(),
{
    match next_record(bytes) {
        Next::Record(start, end) => {
            lemma_varint_len(bytes, 0);
            law_the_rest_holds_no_record(bytes.skip(end));
        },
        _ => {},
    }
}

/// Reading a written length gives it back, however much follows it.
pub proof fn law_a_written_length_reads_back(value: u64, rest: Seq<u8>)
    ensures
        varint_from(varint_bytes(value as nat) + rest, 0) == Varint::Value(
            value,
            varint_bytes(value as nat).len() as usize,
        ),
        1 <= varint_bytes(value as nat).len() <= 10,
{
    let bytes = varint_bytes(value as nat) + rest;
    assert(bytes.skip(0) =~= bytes);
    lemma_written_from(bytes, value as nat, 0, value as nat, rest);
}

/// The bytes from `at` on are the rest of a written length: `remaining` is what
/// is still to come, and what came before makes up the difference.
proof fn lemma_written_from(bytes: Seq<u8>, value: nat, at: int, remaining: nat, rest: Seq<u8>)
    requires
        0 <= at <= 9,
        value <= u64::MAX,
        bytes.skip(at) == varint_bytes(remaining) + rest,
        at <= bytes.len(),
        value == varint_value(bytes, at) + remaining * scale(at),
        varint_value(bytes, at) >= 0,
        at > 0 ==> remaining > 0,
    ensures
        varint_from(bytes, at) == Varint::Value(
            value as u64,
            (at + varint_bytes(remaining).len()) as usize,
        ),
        1 <= varint_bytes(remaining).len() <= 10 - at,
    decreases remaining,
{
    let written = varint_bytes(remaining);
    assert(written.len() > 0);
    assert(bytes.skip(at).len() == written.len() + rest.len());
    assert(bytes.skip(at)[0] == bytes[at]);
    assert(bytes[at] == written[0]);
    lemma_scale(at);
    if at == 9 {
        assert(remaining <= 1) by (nonlinear_arith)
            requires
                remaining * scale(9) <= u64::MAX,
                scale(9) == 0x8000_0000_0000_0000,
        ;
    }
    if remaining < 128 {
        assert(varint_value(bytes, at + 1) == varint_value(bytes, at) + (bytes[at] % 128) * scale(at));
        assert(bytes[at] % 128 == remaining);
    } else {
        let next = remaining / 128;
        assert(varint_value(bytes, at + 1) == varint_value(bytes, at) + (bytes[at] % 128) * scale(at));
        assert(bytes[at] % 128 == remaining % 128);
        assert(scale(at + 1) == 128 * scale(at));
        assert((remaining % 128) * scale(at) + (remaining / 128) * (128 * scale(at)) == remaining
            * scale(at) && (remaining % 128) * scale(at) >= 0) by (nonlinear_arith)
            requires
                remaining >= 0,
                scale(at) > 0,
        ;
        assert(bytes.skip(at + 1) =~= varint_bytes(next) + rest) by {
            assert(bytes.skip(at + 1) =~= bytes.skip(at).skip(1));
            assert((written + rest).skip(1) =~= varint_bytes(next) + rest);
        }
        lemma_written_from(bytes, value, at + 1, next, rest);
    }
}

/// Splitting records that were framed end to end gives them back, with nothing
/// left over.
pub proof fn law_a_framed_stream_reads_back(records: Seq<Seq<u8>>)
    requires
        forall|i: int| 0 <= i < records.len() ==> #[trigger] records[i].len() <= MAX_RECORD_LEN,
    ensures
        split(framed_stream(records)) == (Split { records, rest: Seq::empty(), error: None }),
    decreases records.len(),
{
    if records.len() == 0 {
        assert(split(framed_stream(records)).records =~= records);
    } else {
        let record = records.first();
        let tail = framed_stream(records.drop_first());
        let stream = framed(record) + tail;
        let prefix = varint_bytes(record.len());
        assert(records[0].len() <= MAX_RECORD_LEN);
        assert(stream =~= prefix + (record + tail));
        law_a_written_length_reads_back(record.len() as u64, record + tail);
        let end = prefix.len() + record.len();
        assert(stream.subrange(prefix.len() as int, end as int) =~= record);
        assert(stream.skip(end as int) =~= tail);
        assert forall|i: int| 0 <= i < records.drop_first().len() implies #[trigger]
            records.drop_first()[i].len() <= MAX_RECORD_LEN by {
            assert(records[i + 1].len() <= MAX_RECORD_LEN);
        }
        law_a_framed_stream_reads_back(records.drop_first());
        assert(split(stream).records =~= records);
    }
}

impl DecodeError {
    /// What went wrong, in a sentence.
    pub fn message(&self) -> (text: String)
        ensures
            text@ == self.sentence(),
    {
        match self {
            DecodeError::Zstd(cause) => {
                let mut text = "zstd decoding failed: ".to_owned();
                text.append(cause.as_str());
                text
            },
            DecodeError::MalformedVarint => "malformed record length prefix; this is not a peer-observer archive".to_owned(),
            DecodeError::RecordTooLarge { len } => {
                let mut text = "record claims to be ".to_owned();
                text.append(text::decimal(*len).as_str());
                text.append(" bytes, above the ");
                text.append(text::decimal(MAX_RECORD_LEN).as_str());
                text.append(" byte limit; this is probably not a peer-observer archive");
                text
            },
        }
    }

    pub open spec fn sentence(&self) -> Seq<char> {
        match self {
            DecodeError::Zstd(cause) => "zstd decoding failed: "@ + cause@,
            DecodeError::MalformedVarint => "malformed record length prefix; this is not a peer-observer archive"@,
            DecodeError::RecordTooLarge { len } => "record claims to be "@ + text::digits(*len as nat)
                + " bytes, above the "@ + text::digits(MAX_RECORD_LEN as nat)
                + " byte limit; this is probably not a peer-observer archive"@,
        }
    }
}

/// Receives each complete length-delimited record, in file order.
pub trait RecordSink {
    /// The records received so far, each with its index.
    spec fn seen(&self) -> Seq<(u64, Seq<u8>)>;

    /// `index` is 0 for the `ArchiveHeader` and 1.. for `Event`s.
    fn record(&mut self, index: u64, bytes: &[u8])
        ensures
            final(self).seen() == old(self).seen().push((index, bytes@)),
    ;
}

/// Records together with their indices, counted on from `first` and held at the
/// largest index there is.
pub open spec fn numbered(records: Seq<Seq<u8>>, first: nat) -> Seq<(u64, Seq<u8>)> {
    Seq::new(records.len(), |i: int| (latency::capped(first as int, i), records[i]))
}

/// A sink that keeps every record it is given.
pub struct Records {
    records: Vec<(u64, Vec<u8>)>,
}

impl RecordSink for Records {
    closed spec fn seen(&self) -> Seq<(u64, Seq<u8>)> {
        Seq::new(self.records@.len(), |i: int| (self.records@[i].0, self.records@[i].1@))
    }

    fn record(&mut self, index: u64, bytes: &[u8]) {
        let mut copy: Vec<u8> = Vec::new();
        copy.extend_from_slice(bytes);
        assert(copy@ =~= bytes@);
        self.records.push((index, copy));
        assert(self.seen() =~= old(self).seen().push((index, bytes@)));
    }
}

impl Records {
    pub fn new() -> (sink: Self)
        ensures
            sink.seen() == Seq::<(u64, Seq<u8>)>::empty(),
    {
        let sink = Records { records: Vec::new() };
        assert(sink.seen() =~= Seq::<(u64, Seq<u8>)>::empty());
        sink
    }

    /// How many records were received.
    pub fn len(&self) -> (len: usize)
        ensures
            len == self.seen().len(),
    {
        self.records.len()
    }

    /// One record and its index, by the order they came in.
    pub fn get(&self, position: usize) -> (record: Option<(u64, &[u8])>)
        ensures
            match record {
                Some((index, bytes)) => position < self.seen().len() && (index, bytes@)
                    == self.seen()[position as int],
                None => position >= self.seen().len(),
            },
    {
        if position < self.records.len() {
            let record = &self.records[position];
            Some((record.0, record.1.as_slice()))
        } else {
            None
        }
    }
}

/// The bytes of some records, added up.
pub open spec fn total_len(seen: Seq<(u64, Seq<u8>)>) -> nat
    decreases seen.len(),
{
    if seen.len() == 0 {
        0
    } else {
        total_len(seen.drop_last()) + seen.last().1.len()
    }
}

/// The length of the longest of some records.
pub open spec fn longest(seen: Seq<(u64, Seq<u8>)>) -> nat
    decreases seen.len(),
{
    if seen.len() == 0 {
        0
    } else if longest(seen.drop_last()) >= seen.last().1.len() {
        longest(seen.drop_last())
    } else {
        seen.last().1.len()
    }
}

/// A sink that only measures what it is given.
pub struct RecordSizes {
    records: u64,
    bytes: u64,
    largest: usize,
    seen: Ghost<Seq<(u64, Seq<u8>)>>,
}

impl RecordSink for RecordSizes {
    closed spec fn seen(&self) -> Seq<(u64, Seq<u8>)> {
        self.seen@
    }

    fn record(&mut self, index: u64, bytes: &[u8]) {
        proof {
            use_type_invariant(&*self);
        }
        let ghost seen = self.seen@.push((index, bytes@));
        assert(seen.drop_last() =~= self.seen@);
        *self = RecordSizes {
            records: self.records.saturating_add(1),
            bytes: self.bytes.saturating_add(bytes.len() as u64),
            largest: if self.largest >= bytes.len() {
                self.largest
            } else {
                bytes.len()
            },
            seen: Ghost(seen),
        };
    }
}

impl RecordSizes {
    #[verifier::type_invariant]
    spec fn wf(self) -> bool {
        &&& self.records == latency::capped(self.seen@.len() as int, 0)
        &&& self.bytes == latency::capped(total_len(self.seen@) as int, 0)
        &&& self.largest == longest(self.seen@)
    }

    pub fn new() -> (sink: Self)
        ensures
            sink.seen() == Seq::<(u64, Seq<u8>)>::empty(),
    {
        RecordSizes { records: 0, bytes: 0, largest: 0, seen: Ghost(Seq::empty()) }
    }

    /// How many records were received.
    pub fn records(&self) -> (records: u64)
        ensures
            records == latency::capped(self.seen().len() as int, 0),
    {
        proof {
            use_type_invariant(self);
        }
        self.records
    }

    /// How many bytes they held.
    pub fn bytes(&self) -> (bytes: u64)
        ensures
            bytes == latency::capped(total_len(self.seen()) as int, 0),
    {
        proof {
            use_type_invariant(self);
        }
        self.bytes
    }

    /// How long the longest was.
    pub fn largest(&self) -> (largest: usize)
        ensures
            largest == longest(self.seen()),
    {
        proof {
            use_type_invariant(self);
        }
        self.largest
    }
}

/// What the extension of a path suggests. It is only a hint; the decoder sniffs
/// the zstd magic itself.
pub fn hint(path: &str) -> (hint: Option<Compression>)
    ensures
        hint == Some(
            if text::has_suffix(path@, ".zst"@) {
                Compression::Zstd
            } else {
                Compression::Uncompressed
            },
        ),
{
    if text::ends_with(path, ".zst") {
        Some(Compression::Zstd)
    } else {
        Some(Compression::Uncompressed)
    }
}

/// `prost::encoding::encode_varint` into a vector, which is never short of room:
/// the number is appended in base-128, least significant group first.
#[verifier::external_body]
fn write_varint(value: u64, out: &mut Vec<u8>)
    ensures
        final(out)@ == old(out)@ + varint_bytes(value as nat),
{
    prost::encoding::encode_varint(value, out)
}

/// Append a record with its length in front of it, as it stands in an archive.
pub fn frame_record(bytes: &[u8], out: &mut Vec<u8>)
    ensures
        final(out)@ == old(out)@ + framed(bytes@),
{
    write_varint(bytes.len() as u64, out);
    let ghost mid = out@;
    out.extend_from_slice(bytes);
    assert(out@ =~= mid + bytes@);
    assert(out@ =~= old(out)@ + framed(bytes@));
}

/// ruzstd's streaming decoder for one zstd frame. It takes in file bytes and gives
/// out decompressed ones.
#[verifier::external_type_specification]
#[verifier::external_body]
pub struct ExFrameDecoder(FrameDecoder);

/// The reasons ruzstd has for refusing a frame.
#[verifier::external_type_specification]
#[verifier::external_body]
pub struct ExFrameDecoderError(FrameDecoderError);

/// The bytes a decoder has taken in.
pub uninterp spec fn taken_by(decoder: FrameDecoder) -> Seq<u8>;

/// The bytes a decoder has given out.
pub uninterp spec fn given_by(decoder: FrameDecoder) -> Seq<u8>;

/// Whether a decoder says that it has read its frame to the end.
pub uninterp spec fn at_end(decoder: FrameDecoder) -> bool;

/// The largest window a decoder accepts.
pub uninterp spec fn window_of(decoder: FrameDecoder) -> u64;

/// What the blocks of the zstd frame at the front of some bytes decompress to, as
/// far as they are there.
pub uninterp spec fn block_content(bytes: Seq<u8>) -> Seq<u8>;

/// Whether a decoder can be called on: it has not refused anything.
pub uninterp spec fn usable(decoder: FrameDecoder) -> bool;

/// What a decoder comes to that is handed some source: how much it takes and how
/// much it gives, or why it refuses. The decoder goes by what it has taken in and
/// given out, whether it is at its end and its largest window; the last number is
/// the room there is in the target.
pub uninterp spec fn decode_step(
    taken: Seq<u8>,
    given: Seq<u8>,
    ended: bool,
    window: u64,
    source: Seq<u8>,
    room: nat,
) -> Result<(usize, usize), Seq<char>>;

/// An error in ruzstd's own words.
pub uninterp spec fn error_words(error: FrameDecoderError) -> Seq<char>;

/// `FrameDecoder::new`: a decoder that has taken nothing in and given nothing out.
/// As long as it has no frame to read it says that it is at the end.
pub assume_specification[ FrameDecoder::new ]() -> (decoder: FrameDecoder)
    ensures
        taken_by(decoder) == Seq::<u8>::empty(),
        given_by(decoder) == Seq::<u8>::empty(),
        at_end(decoder),
        usable(decoder),
;

/// `FrameDecoder::set_max_window_size`: sets the largest window a frame may
/// declare, which zstd itself limits to the number below.
pub assume_specification[ FrameDecoder::set_max_window_size ](
    decoder: &mut FrameDecoder,
    max_window_size: u64,
)
    ensures
        window_of(*final(decoder)) == (if max_window_size < 0x3C0_0000_0000 {
            max_window_size
        } else {
            0x3C0_0000_0000
        }),
        taken_by(*final(decoder)) == taken_by(*old(decoder)),
        given_by(*final(decoder)) == given_by(*old(decoder)),
        at_end(*final(decoder)) == at_end(*old(decoder)),
        usable(*final(decoder)) == usable(*old(decoder)),
;

/// `FrameDecoder::is_finished`: whether the decoder says that it has read its frame
/// to the end, a checksum included.
pub assume_specification[ FrameDecoder::is_finished ](decoder: &FrameDecoder) -> (finished: bool)
    ensures
        finished == at_end(*decoder),
;

/// `FrameDecoder::decode_from_to`: takes whole blocks from the front of the source
/// and puts what it gives out at the front of the target, which it cannot outgrow.
/// The two numbers are how much was taken and how much was given. What is given is
/// what the blocks taken so far decompress to, from the front on: part of it may be
/// held back while the frame goes on, and all of it is out once the frame is at its
/// end and a call that takes nothing leaves room in the target. For a checksum that
/// is not all there it reports more taken than the source holds, and is not at the
/// end then. A call that takes nothing does not bring it to the end, nor away from
/// it. A decoder that has refused something is left with tables that do not fit each
/// other, and cannot be called again.
pub assume_specification[ FrameDecoder::decode_from_to ](
    decoder: &mut FrameDecoder,
    source: &[u8],
    target: &mut [u8],
) -> (result: Result<(usize, usize), FrameDecoderError>)
    requires
        usable(*old(decoder)),
    ensures
        final(target)@.len() == old(target)@.len(),
        window_of(*final(decoder)) == window_of(*old(decoder)),
        decode_step(
            taken_by(*old(decoder)),
            given_by(*old(decoder)),
            at_end(*old(decoder)),
            window_of(*old(decoder)),
            source@,
            old(target)@.len(),
        ) == (match result {
            Ok(pair) => Ok(pair),
            Err(error) => Err(error_words(error)),
        }),
        result matches Ok((read, written)) ==> {
            &&& usable(*final(decoder))
            &&& written <= old(target)@.len()
            &&& taken_by(*final(decoder)) == taken_by(*old(decoder)) + source@.take(
                if read < source@.len() {
                    read as int
                } else {
                    source@.len() as int
                },
            )
            &&& given_by(*final(decoder)) == given_by(*old(decoder)) + final(target)@.take(
                written as int,
            )
            &&& given_by(*final(decoder)).is_prefix_of(block_content(taken_by(*final(decoder))))
            &&& read == 0 && written < old(target)@.len() && at_end(*final(decoder))
                ==> given_by(*final(decoder)) == block_content(taken_by(*final(decoder)))
            &&& read > source@.len() ==> !at_end(*final(decoder))
            &&& read == 0 || source@.len() == 0 ==> at_end(*final(decoder)) == at_end(
                *old(decoder),
            )
        },
;

/// `ToString` of ruzstd's error: its own words for what is wrong.
#[verifier::external_body]
fn zstd_error_text(error: &FrameDecoderError) -> (text: String)
    ensures
        text@ == error_words(*error),
{
    error.to_string()
}

/// Where a decoder stands.
#[verifier::ext_equal]
pub struct DecoderState {
    pub compression: Option<Compression>,
    pub hint: Option<Compression>,
    /// File bytes received but not decompressed yet.
    pub pending: Seq<u8>,
    /// Every decompressed byte that has been searched for records.
    pub stream: Seq<u8>,
    /// Decompressed bytes that have not been searched yet.
    pub fresh: Seq<u8>,
    /// File bytes received, held at `u64::MAX`.
    pub bytes_in: u64,
    /// Whether a zstd frame has been started.
    pub started: bool,
    /// File bytes the zstd decoder has taken in.
    pub taken: Seq<u8>,
    /// Whether the zstd decoder says that its frame is at its end.
    pub ended: bool,
    /// The words in which zstd has refused the file, if it has.
    pub broken: Option<Seq<char>>,
}

impl DecoderState {
    /// What holds of every decoder, as long as zstd has not refused the file: the
    /// stream is what the blocks read so far hold, from the front on, and all of it
    /// once the frame is at its end.
    pub open spec fn sound(self) -> bool {
        self.started && self.broken is None ==> {
            &&& (self.stream + self.fresh).is_prefix_of(block_content(self.taken))
            &&& self.ended ==> self.stream + self.fresh == block_content(self.taken)
        }
    }

    /// Every file byte that was received is one that zstd has taken in or one that
    /// still waits, as it was before.
    pub open spec fn conserves(self, after: DecoderState) -> bool {
        &&& self.taken.is_prefix_of(after.taken)
        &&& self.taken + self.pending == after.taken + after.pending
    }

    /// Whether there is too little to call zstd for: less than a whole block can
    /// take, unless nothing more is to come, or less than a frame header.
    pub open spec fn short(self, finishing: bool) -> bool {
        ||| !finishing && self.pending.len() < MIN_DECODE_INPUT
        ||| !self.started && self.pending.len() < FRAME_HEADER_LEN
    }

    /// Whether zstd has no more to take and no more to give.
    pub open spec fn settled(self) -> bool {
        &&& self.started
        &&& decode_step(
            self.taken,
            self.stream + self.fresh,
            self.ended,
            MAX_WINDOW_SIZE,
            self.pending,
            DECOMPRESS_CHUNK as nat,
        ) matches Ok((read, written))
        &&& written == 0
        &&& read == 0 || self.pending.len() == 0
    }

    /// Whether zstd refuses the file, in these words, once it has read some of it.
    pub open spec fn refused(self, words: Seq<char>) -> bool {
        exists|taken: Seq<u8>, given: Seq<u8>, ended: bool, rest: Seq<u8>| #[trigger]
            self.refused_at(words, taken, given, ended, rest)
    }

    /// Whether zstd refuses what is left of the file, in these words, when it has
    /// taken and given that much.
    pub open spec fn refused_at(
        self,
        words: Seq<char>,
        taken: Seq<u8>,
        given: Seq<u8>,
        ended: bool,
        rest: Seq<u8>,
    ) -> bool {
        &&& decode_step(taken, given, ended, MAX_WINDOW_SIZE, rest, DECOMPRESS_CHUNK as nat) == Err::<
            (usize, usize),
            _,
        >(words)
        &&& self.taken.is_prefix_of(taken)
        &&& taken + rest == self.taken + self.pending
        &&& (self.stream + self.fresh).is_prefix_of(given)
    }

    /// A decoder that has been given nothing.
    pub open spec fn initial(hint: Option<Compression>) -> DecoderState {
        DecoderState {
            compression: None,
            hint,
            pending: Seq::empty(),
            stream: Seq::empty(),
            fresh: Seq::empty(),
            bytes_in: 0,
            started: false,
            taken: Seq::empty(),
            ended: false,
            broken: None,
        }
    }

    /// The compression, given what has arrived. The magic is sniffed rather than
    /// trusting the file extension, so a renamed or extensionless archive still
    /// works; the hint only decides about a file too short to sniff.
    pub open spec fn sniffed(self, finishing: bool) -> Option<Compression> {
        if self.compression is Some {
            self.compression
        } else if self.pending.len() >= 4 {
            Some(
                if self.pending.subrange(0, 4) == ZSTD_MAGIC@ {
                    Compression::Zstd
                } else {
                    Compression::Uncompressed
                },
            )
        } else if finishing {
            match self.hint {
                Some(hint) => Some(hint),
                None => Some(Compression::Uncompressed),
            }
        } else {
            None
        }
    }

    /// The same decoder once `chunk` has arrived, before anything is done with it.
    pub open spec fn with_chunk(self, chunk: Seq<u8>) -> DecoderState {
        DecoderState {
            pending: self.pending + chunk,
            bytes_in: latency::capped(self.bytes_in as int, chunk.len() as int),
            ..self
        }
    }
}

/// Whether a sink that had seen `before` has since been given exactly the records
/// that `to` holds beyond those of `from`, which it extends.
pub open spec fn delivered(
    from: Seq<u8>,
    to: Seq<u8>,
    before: Seq<(u64, Seq<u8>)>,
    after: Seq<(u64, Seq<u8>)>,
) -> bool {
    let already = split(from).records.len();
    &&& from.is_prefix_of(to)
    &&& already <= split(to).records.len()
    &&& after == before + numbered(split(to).records.skip(already as int), already)
}

/// Streaming archive decoder. Feed it [`push`](Self::push), then
/// [`finish`](Self::finish).
pub struct RecordDecoder {
    compression: Option<Compression>,
    hint: Option<Compression>,
    zstd: Option<Box<FrameDecoder>>,
    /// Compressed bytes received but not yet consumed by the zstd decoder.
    cin: Vec<u8>,
    /// Decompressed bytes not yet split into complete records.
    out: Vec<u8>,
    /// How much of `out` has already been consumed.
    out_pos: usize,
    scratch: Vec<u8>,
    bytes_in: u64,
    bytes_out: u64,
    records: u64,
    stream: Ghost<Seq<u8>>,
    fresh: Ghost<Seq<u8>>,
    /// What zstd said when it refused the file, if it has.
    refusal: Option<String>,
}

impl View for RecordDecoder {
    type V = DecoderState;

    closed spec fn view(&self) -> DecoderState {
        DecoderState {
            compression: self.compression,
            hint: self.hint,
            pending: self.cin@,
            stream: self.stream@,
            fresh: self.fresh@,
            bytes_in: self.bytes_in,
            started: self.zstd is Some,
            taken: match self.zstd {
                Some(fd) => taken_by(*fd),
                None => Seq::empty(),
            },
            ended: self.zstd matches Some(fd) && at_end(*fd),
            broken: match self.refusal {
                Some(words) => Some(words@),
                None => None,
            },
        }
    }
}

impl RecordDecoder {
    pub closed spec fn wf(&self) -> bool {
        &&& self.out_pos <= self.out@.len()
        &&& self.out@.skip(self.out_pos as int) == split(self.stream@).rest + self.fresh@
        &&& self.records == latency::capped(split(self.stream@).records.len() as int, 0)
        &&& self.bytes_out == latency::capped((self.stream@.len() + self.fresh@.len()) as int, 0)
        &&& self.scratch@.len() == DECOMPRESS_CHUNK
        &&& self.zstd is Some ==> self.compression == Some(Compression::Zstd)
        &&& self.zstd is None && self.compression != Some(Compression::Uncompressed)
            ==> self.stream@.len() == 0 && self.fresh@.len() == 0
        &&& self.zstd matches Some(fd) ==> (self.refusal is None ==> {
            &&& usable(*fd)
            &&& given_by(*fd) == self.stream@ + self.fresh@
            &&& window_of(*fd) == MAX_WINDOW_SIZE
        })
        &&& self.refusal is Some ==> self.zstd is Some
        &&& self@.sound()
    }

    /// `hint` is used only when the stream is too short to sniff the zstd magic;
    /// pass what the file extension suggests, or `None`.
    pub fn new(hint: Option<Compression>) -> (decoder: Self)
        ensures
            decoder.wf(),
            decoder@ == DecoderState::initial(hint),
    {
        let decoder = RecordDecoder {
            compression: None,
            hint,
            zstd: None,
            cin: Vec::new(),
            out: Vec::new(),
            out_pos: 0,
            scratch: vec![0u8; DECOMPRESS_CHUNK],
            bytes_in: 0,
            bytes_out: 0,
            records: 0,
            stream: Ghost(Seq::empty()),
            fresh: Ghost(Seq::empty()),
            refusal: None,
        };
        assert(decoder.out@.skip(0) =~= split(decoder.stream@).rest + decoder.fresh@);
        assert(decoder@ =~= DecoderState::initial(hint));
        decoder
    }

    /// Compressed (on-disk) bytes consumed so far.
    pub fn compressed_bytes(&self) -> (bytes: u64)
        ensures
            bytes == self@.bytes_in,
    {
        self.bytes_in
    }

    /// Decompressed bytes produced so far.
    pub fn decompressed_bytes(&self) -> (bytes: u64)
        requires
            self.wf(),
        ensures
            bytes == latency::capped((self@.stream.len() + self@.fresh.len()) as int, 0),
    {
        self.bytes_out
    }

    /// Records emitted so far, including the header record.
    pub fn records(&self) -> (records: u64)
        requires
            self.wf(),
        ensures
            records == latency::capped(split(self@.stream).records.len() as int, 0),
    {
        self.records
    }

    /// Detected compression, once enough bytes have arrived to tell.
    pub fn compression(&self) -> (compression: Option<Compression>)
        ensures
            compression == self@.compression,
    {
        self.compression
    }

    /// Feed the next chunk of file bytes.
    pub fn push<S: RecordSink>(&mut self, chunk: &[u8], sink: &mut S) -> (result: Result<
        (),
        DecodeError,
    >)
        requires
            old(self).wf(),
        ensures
            final(self).wf(),
            pumped(
                old(self)@.with_chunk(chunk@),
                final(self)@,
                false,
                old(sink).seen(),
                final(sink).seen(),
                result,
            ),
    {
        let ghost was = self@;
        self.bytes_in = self.bytes_in.saturating_add(chunk.len() as u64);
        self.cin.extend_from_slice(chunk);
        assert(self@ =~= was.with_chunk(chunk@));
        self.pump(false, sink)
    }

    /// Signal end of file and report how the stream ended.
    pub fn finish<S: RecordSink>(&mut self, sink: &mut S) -> (result: Result<
        Completion,
        DecodeError,
    >)
        requires
            old(self).wf(),
        ensures
            final(self).wf(),
            finished(old(self)@, final(self)@, old(sink).seen(), final(sink).seen(), result),
    {
        let ghost was = self@;
        let ghost seen = sink.seen();
        match self.pump(true, sink) {
            Ok(()) => {},
            Err(error) => {
                proof {
                    lemma_search_errors(self@.stream);
                }
                return Err(error);
            },
        }
        let ghost mid = self@;
        let ghost seen_mid = sink.seen();

        // Capture this *before* the terminator below makes the frame look finished.
        let incomplete_frame = match (self.compression, &self.zstd) {
            (Some(Compression::Zstd), Some(fd)) => !fd.is_finished(),
            // Compressed, but we never got enough bytes to start a frame at all.
            (Some(Compression::Zstd), None) => self.bytes_in > 0,
            _ => false,
        };

        if incomplete_frame && self.zstd.is_some() {
            match self.flush_truncated_frame() {
                Ok(()) => {},
                Err(error) => {
                    assert(read_out(was, mid));
                    return Err(error);
                },
            }
            let ghost flushed_state = self@;
            let result = self.scan(sink);
            proof {
                assert(self@.stream + self@.fresh =~= self@.stream);
                assert(flushed_state.stream + flushed_state.fresh =~= self@.stream);
                assert(read_out(was, mid));
                assert(flushed(mid, self@));
                law_deliveries_add_up(
                    was.stream,
                    mid.stream,
                    self@.stream,
                    seen,
                    seen_mid,
                    sink.seen(),
                );
            }
            match result {
                Ok(()) => {},
                Err(error) => {
                    proof {
                        lemma_search_errors(self@.stream);
                    }
                    return Err(error);
                },
            }
        }
        let trailing_bytes: usize = self.out.len() - self.out_pos;
        assert(self.out@.skip(self.out_pos as int).len() == trailing_bytes);
        proof {
            if mid.compression == Some(Compression::Zstd) && mid.started && !incomplete_frame {
                assert(mid.stream + mid.fresh =~= mid.stream);
                assert(read_out(was, mid));
                assert(mid.sound());
            }
        }
        Ok(
            Completion {
                truncated: incomplete_frame || trailing_bytes > 0,
                trailing_bytes,
                incomplete_frame,
            },
        )
    }

    /// Recover the tail of a frame that has no terminating block.
    ///
    /// ruzstd retains `window_size` decompressed bytes for back-references and
    /// only releases them once the frame's last block arrives. A peer-observer
    /// archive declares a 128 MiB window, so for an archive that is still being
    /// written — the normal case for a live archive — that withholds *every*
    /// byte we decoded.
    ///
    /// The fix is to hand the decoder a synthetic final block. Any bytes left
    /// unconsumed in `cin` are a partial block, which zstd cannot decode even in
    /// principle, so they are dropped; that leaves the decoder exactly at a block
    /// boundary, where a raw, empty, last-block header (`01 00 00`) is valid. It
    /// adds no output of its own and simply flips the frame to finished, after
    /// which `read` drains everything.
    fn flush_truncated_frame(&mut self) -> (result: Result<(), DecodeError>)
        requires
            old(self)@.compression == Some(Compression::Zstd),
            old(self).wf(),
        ensures
            final(self).wf(),
            decompressed(
                DecoderState { pending: END_OF_FRAME@, ..old(self)@ },
                final(self)@,
                true,
                result,
            ),
    {
        self.cin.clear();
        self.cin.push(END_OF_FRAME[0]);
        self.cin.push(END_OF_FRAME[1]);
        self.cin.push(END_OF_FRAME[2]);
        assert(self.cin@ =~= END_OF_FRAME@);
        self.decompress(true)
    }

    fn pump<S: RecordSink>(&mut self, finishing: bool, sink: &mut S) -> (result: Result<
        (),
        DecodeError,
    >)
        requires
            old(self).wf(),
        ensures
            final(self).wf(),
            pumped(
                old(self)@,
                final(self)@,
                finishing,
                old(sink).seen(),
                final(sink).seen(),
                result,
            ),
    {
        let ghost was = self@;
        self.detect_compression(finishing);
        let ghost detected = self@;
        match self.compression {
            None => {
                proof {
                    lemma_nothing_delivered(was.stream, sink.seen());
                }
                return Ok(());  // still sniffing
            },
            Some(Compression::Uncompressed) => {
                let n: usize = self.cin.len();
                let ghost taken = self.cin@;
                let ghost held = self.out@;
                self.out.append(&mut self.cin);
                assert(self.out@.skip(self.out_pos as int) =~= held.skip(self.out_pos as int)
                    + taken);
                self.bytes_out = self.bytes_out.saturating_add(n as u64);
                self.fresh = Ghost(self.fresh@ + taken);
                assert(self.out@.skip(self.out_pos as int) =~= split(self.stream@).rest
                    + self.fresh@);
            },
            Some(Compression::Zstd) => {
                match self.decompress(finishing) {
                    Ok(()) => {},
                    Err(error) => {
                        proof {
                            lemma_nothing_delivered(was.stream, sink.seen());
                            if was.broken is None {
                                lemma_refused(detected, was, error->Zstd_0@);
                            }
                        }
                        return Err(error);
                    },
                }
            },
        }
        let result = self.scan(sink);
        assert(self@.stream =~= was.stream + was.fresh + was.pending || self@.compression == Some(
            Compression::Zstd,
        ));
        result
    }

    fn detect_compression(&mut self, finishing: bool)
        requires
            old(self).wf(),
        ensures
            final(self)@ == (DecoderState {
                compression: old(self)@.sniffed(finishing),
                ..old(self)@
            }),
            final(self).wf(),
    {
        if self.compression.is_some() {
            return ;
        }
        if self.cin.len() >= 4 {
            let zstd = self.cin[0] == ZSTD_MAGIC[0] && self.cin[1] == ZSTD_MAGIC[1] && self.cin[2]
                == ZSTD_MAGIC[2] && self.cin[3] == ZSTD_MAGIC[3];
            proof {
                let front = self.cin@.subrange(0, 4);
                if zstd {
                    assert(front =~= ZSTD_MAGIC@);
                } else {
                    assert(front[0] == self.cin@[0]);
                    assert(front[1] == self.cin@[1]);
                    assert(front[2] == self.cin@[2]);
                    assert(front[3] == self.cin@[3]);
                }
            }
            self.compression = Some(
                if zstd {
                    Compression::Zstd
                } else {
                    Compression::Uncompressed
                },
            );
        } else if finishing {
            self.compression = match self.hint {
                Some(hint) => Some(hint),
                None => Some(Compression::Uncompressed),
            };
        }
    }

    fn decompress(&mut self, finishing: bool) -> (result: Result<(), DecodeError>)
        requires
            old(self)@.compression == Some(Compression::Zstd),
            old(self).wf(),
        ensures
            final(self).wf(),
            decompressed(old(self)@, final(self)@, finishing, result),
    {
        let ghost was = self@;
        if let Some(words) = &self.refusal {
            return Err(DecodeError::Zstd(words.clone()));
        }
        // Without a full block there is nothing to gain from calling in, and the
        // frame header needs to be complete before the decoder can be started.
        if !finishing && self.cin.len() < MIN_DECODE_INPUT {
            return Ok(());
        }
        let mut fd = match self.zstd.take() {
            Some(fd) => fd,
            None => {
                if self.cin.len() < FRAME_HEADER_LEN {
                    return Ok(());  // not even a frame header yet; treated as truncation
                }
                let mut fd = FrameDecoder::new();
                fd.set_max_window_size(MAX_WINDOW_SIZE);
                assert(given_by(fd) =~= was.stream + was.fresh);
                Box::new(fd)
            },
        };
        let mut consumed: usize = 0;
        let mut failure: Option<String> = None;
        // What the last call came to, once nothing more is to be had.
        let ghost mut quiet: bool = false;
        assert(self.cin@.take(0) =~= Seq::empty());
        assert(was.taken + self.cin@.take(0) =~= was.taken);
        loop
            invariant_except_break
                failure is None,
                !quiet,
            invariant
                self.out_pos <= self.out@.len(),
                self.out@.skip(self.out_pos as int) == split(self.stream@).rest + self.fresh@,
                self.records == latency::capped(split(self.stream@).records.len() as int, 0),
                self.bytes_out == latency::capped(
                    (self.stream@.len() + self.fresh@.len()) as int,
                    0,
                ),
                self.zstd is None,
                self.compression == was.compression,
                self.hint == was.hint,
                self.stream@ == was.stream,
                self.bytes_in == was.bytes_in,
                self.cin@ == was.pending,
                self.refusal is None,
                was.broken is None,
                self.scratch@.len() == DECOMPRESS_CHUNK,
                was.fresh.is_prefix_of(self.fresh@),
                consumed <= self.cin@.len(),
                failure is None ==> {
                    &&& usable(*fd)
                    &&& given_by(*fd) == self.stream@ + self.fresh@
                    &&& window_of(*fd) == MAX_WINDOW_SIZE
                    &&& taken_by(*fd) == was.taken + self.cin@.take(consumed as int)
                },
                quiet ==> failure is None ==> {
                    &&& given_by(*fd).is_prefix_of(block_content(taken_by(*fd)))
                    &&& at_end(*fd) ==> given_by(*fd) == block_content(taken_by(*fd))
                    &&& decode_step(
                        taken_by(*fd),
                        given_by(*fd),
                        at_end(*fd),
                        MAX_WINDOW_SIZE,
                        self.cin@.skip(consumed as int),
                        DECOMPRESS_CHUNK as nat,
                    ) matches Ok((read, written))
                    &&& written == 0
                    &&& read == 0 || consumed == self.cin@.len()
                },
            ensures
                failure is None ==> quiet,
                failure matches Some(words) ==> was.refused(words@),
            decreases usize::MAX - self.out.len(), self.cin.len() - consumed,
        {
            let source = slice_subrange(self.cin.as_slice(), consumed, self.cin.len());
            let ghost before = *fd;
            let (read, written) = match fd.decode_from_to(source, self.scratch.as_mut_slice()) {
                Ok(pair) => pair,
                Err(error) => {
                    let words = zstd_error_text(&error);
                    proof {
                        quiet = false;
                        assert(source@ =~= self.cin@.skip(consumed as int));
                        assert(taken_by(before) + source@ =~= was.taken + was.pending);
                        assert(was.refused_at(
                            words@,
                            taken_by(before),
                            given_by(before),
                            at_end(before),
                            source@,
                        ));
                    }
                    failure = Some(words);
                    break ;
                },
            };
            // Clamp: ruzstd reports 4 consumed bytes for a trailing content checksum
            // even when fewer than 4 are present.
            let left: usize = self.cin.len() - consumed;
            let step: usize = if read < left {
                read
            } else {
                left
            };
            let ghost given = self.scratch@.take(written as int);
            let ghost held = self.fresh@;
            if written > 0 {
                let produced = slice_subrange(self.scratch.as_slice(), 0, written);
                assert(produced@ =~= given);
                absorb(
                    &mut self.out,
                    self.out_pos,
                    &mut self.bytes_out,
                    &mut self.fresh,
                    Ghost(self.stream@),
                    produced,
                );
            }
            proof {
                assert(self.fresh@ =~= held + given);
                assert(source@ =~= self.cin@.skip(consumed as int));
                assert(self.cin@.take(consumed as int) + source@.take(step as int)
                    =~= self.cin@.take(consumed + step));
                assert((was.taken + self.cin@.take(consumed as int)) + source@.take(step as int)
                    =~= was.taken + self.cin@.take(consumed + step));
                assert((self.stream@ + held) + given =~= self.stream@ + self.fresh@);
            }
            consumed = consumed + step;
            if step == 0 && written == 0 {
                proof {
                    quiet = true;
                }
                break ;
            }
        }
        self.zstd = Some(fd);
        match failure {
            Some(words) => {
                self.refusal = Some(words.clone());
                Err(DecodeError::Zstd(words))
            },
            None => {
                let ghost all = self.cin@;
                self.cin = self.cin.split_off(consumed);
                assert(all.take(consumed as int) + self.cin@ =~= all);
                assert((was.taken + all.take(consumed as int)) + self.cin@ =~= was.taken + all);
                Ok(())
            },
        }
    }

    /// Split complete records out of the decompressed bytes and hand them over.
    fn scan<S: RecordSink>(&mut self, sink: &mut S) -> (result: Result<(), DecodeError>)
        requires
            old(self).wf(),
        ensures
            final(self).wf(),
            final(self)@ == (DecoderState {
                stream: old(self)@.stream + old(self)@.fresh,
                fresh: Seq::empty(),
                ..old(self)@
            }),
            delivered(
                old(self)@.stream,
                final(self)@.stream,
                old(sink).seen(),
                final(sink).seen(),
            ),
            result == outcome(final(self)@.stream),
    {
        let ghost was = self@;
        let ghost seen = sink.seen();
        let ghost first = split(was.stream).records.len();
        let ghost whole = split(was.stream).rest + was.fresh;
        let ghost mut done: Seq<Seq<u8>> = Seq::empty();
        let mut failure: Option<DecodeError> = None;
        proof {
            law_split_across_chunks(was.stream, was.fresh);
            assert(done + split(whole).records =~= split(whole).records);
            assert(numbered(done, first) =~= Seq::empty());
            assert(seen + numbered(done, first) =~= seen);
        }
        loop
            invariant_except_break
                failure is None,
                split(whole).records == done + split(self.out@.skip(self.out_pos as int)).records,
                split(whole).rest == split(self.out@.skip(self.out_pos as int)).rest,
                split(whole).error == split(self.out@.skip(self.out_pos as int)).error,
            invariant
                self.out_pos <= self.out@.len(),
                self.compression == was.compression,
                self.hint == was.hint,
                self.cin@ == was.pending,
                self.zstd == old(self).zstd,
                self.refusal == old(self).refusal,
                self.scratch@.len() == DECOMPRESS_CHUNK,
                self.bytes_in == was.bytes_in,
                self.stream@ == was.stream,
                self.fresh@ == was.fresh,
                self.bytes_out == old(self).bytes_out,
                first == split(was.stream).records.len(),
                whole == split(was.stream).rest + was.fresh,
                self.records == latency::capped(first as int, done.len() as int),
                sink.seen() == seen + numbered(done, first),
            ensures
                split(whole).records == done,
                split(whole).rest == self.out@.skip(self.out_pos as int),
                split(whole).error == failure,
            decreases self.out.len() - self.out_pos,
        {
            let ghost current = self.out@.skip(self.out_pos as int);
            let rest = slice_subrange(self.out.as_slice(), self.out_pos, self.out.len());
            assert(rest@ =~= current);
            proof {
                lemma_varint_len(current, 0);
                assert(done + Seq::<Seq<u8>>::empty() =~= done);
            }
            let (len, start) = match read_varint(rest) {
                Varint::Value(len, n) => (len, n),
                Varint::Incomplete => {
                    break ;
                },
                Varint::Invalid => {
                    failure = Some(DecodeError::MalformedVarint);
                    break ;
                },
            };
            if len > MAX_RECORD_LEN {
                failure = Some(DecodeError::RecordTooLarge { len });
                break ;
            }
            let end: usize = start + len as usize;
            if rest.len() < end {
                break ;  // record not fully arrived yet
            }
            let record = slice_subrange(rest, start, end);
            sink.record(self.records, record);
            proof {
                let more = done.push(record@);
                assert(numbered(more, first) =~= numbered(done, first).push(
                    (self.records, record@),
                ));
                assert(seen + numbered(more, first) =~= (seen + numbered(done, first)).push(
                    (self.records, record@),
                ));
                assert(done + split(current).records =~= more + split(current.skip(end as int)).records);
                done = more;
            }
            self.records = self.records.saturating_add(1);
            self.out_pos = self.out_pos + end;
            assert(self.out@.skip(self.out_pos as int) =~= current.skip(end as int));
        }
        self.stream = Ghost(self.stream@ + self.fresh@);
        self.fresh = Ghost(Seq::empty());
        proof {
            let after = split(self.stream@);
            assert(after.records =~= split(was.stream).records + done);
            assert(after.records.skip(first as int) =~= done);
            assert(was.stream.is_prefix_of(self.stream@));
            assert(self.out@.skip(self.out_pos as int) =~= after.rest + self.fresh@);
            assert(self.stream@ + self.fresh@ =~= was.stream + was.fresh);
        }
        match failure {
            Some(error) => Err(error),
            None => {
                if self.out_pos >= COMPACT_THRESHOLD {
                    let ghost rest = self.out@.skip(self.out_pos as int);
                    self.out = self.out.split_off(self.out_pos);
                    self.out_pos = 0;
                    assert(self.out@.skip(0) =~= rest);
                }
                Ok(())
            },
        }
    }
}

/// Take in decompressed bytes: they stand after what is there, unsearched.
fn absorb(
    out: &mut Vec<u8>,
    out_pos: usize,
    bytes_out: &mut u64,
    fresh: &mut Ghost<Seq<u8>>,
    stream: Ghost<Seq<u8>>,
    produced: &[u8],
)
    requires
        out_pos <= old(out)@.len(),
        old(out)@.skip(out_pos as int) == split(stream@).rest + old(fresh)@,
        *old(bytes_out) == latency::capped((stream@.len() + old(fresh)@.len()) as int, 0),
    ensures
        final(out)@ == old(out)@ + produced@,
        final(fresh)@ == old(fresh)@ + produced@,
        final(out)@.skip(out_pos as int) == split(stream@).rest + final(fresh)@,
        *final(bytes_out) == latency::capped((stream@.len() + final(fresh)@.len()) as int, 0),
{
    let ghost was = out@;
    out.extend_from_slice(produced);
    *bytes_out = bytes_out.saturating_add(produced.len() as u64);
    *fresh = Ghost(fresh@ + produced@);
    assert(out@ =~= was + produced@);
    assert(out@.skip(out_pos as int) =~= was.skip(out_pos as int) + produced@);
    assert(out@.skip(out_pos as int) =~= split(stream@).rest + fresh@);
}

/// What searching a stream comes to.
pub open spec fn outcome(stream: Seq<u8>) -> Result<(), DecodeError> {
    match split(stream).error {
        Some(error) => Err(error),
        None => Ok(()),
    }
}

/// What decompressing comes to: bytes are taken from `pending` and added to `fresh`
/// until zstd has no more to take and no more to give, unless there is too little to
/// call it for. Only zstd itself can fail here, and once it has, the answer stays the
/// same.
pub open spec fn decompressed(
    before: DecoderState,
    after: DecoderState,
    finishing: bool,
    result: Result<(), DecodeError>,
) -> bool {
    &&& after.compression == before.compression
    &&& after.hint == before.hint
    &&& after.stream == before.stream
    &&& after.bytes_in == before.bytes_in
    &&& before.started ==> after.started
    &&& before.fresh.is_prefix_of(after.fresh)
    &&& match result {
        Ok(_) => {
            &&& before.broken is None
            &&& after.broken is None
            &&& before.short(finishing) ==> after == before
            &&& before.conserves(after)
            &&& !before.short(finishing) ==> after.settled()
        },
        Err(error) => {
            &&& error matches DecodeError::Zstd(words)
            &&& after.broken == Some(words@)
            &&& match before.broken {
                Some(said) => words@ == said && after == before,
                None => before.refused(words@),
            }
        },
    }
}

/// What pumping comes to. Plain bytes become part of the stream as they are; of
/// compressed ones, whatever zstd releases does. Either way the sink has then
/// been given exactly the records the stream holds, and the result says whether
/// it can be read on.
pub open spec fn pumped(
    before: DecoderState,
    after: DecoderState,
    finishing: bool,
    seen_before: Seq<(u64, Seq<u8>)>,
    seen_after: Seq<(u64, Seq<u8>)>,
    result: Result<(), DecodeError>,
) -> bool {
    let compression = before.sniffed(finishing);
    &&& after.compression == compression
    &&& after.hint == before.hint
    &&& after.bytes_in == before.bytes_in
    &&& before.started ==> after.started
    &&& delivered(before.stream, after.stream, seen_before, seen_after)
    &&& match compression {
        None => {
            &&& after == before
            &&& seen_after == seen_before
            &&& result is Ok
        },
        Some(Compression::Uncompressed) => {
            &&& after == (DecoderState {
                compression,
                pending: Seq::empty(),
                stream: before.stream + before.fresh + before.pending,
                fresh: Seq::empty(),
                ..before
            })
            &&& result == outcome(after.stream)
        },
        Some(Compression::Zstd) => {
            ||| {
                &&& result matches Err(DecodeError::Zstd(words))
                &&& after.stream == before.stream
                &&& after.broken == Some(words@)
                &&& seen_after == seen_before
                &&& match before.broken {
                    Some(said) => words@ == said && after == before,
                    None => before.refused(words@),
                }
            }
            ||| {
                &&& result == outcome(after.stream)
                &&& before.broken is None
                &&& after.broken is None
                &&& after.fresh.len() == 0
                &&& (before.stream + before.fresh).is_prefix_of(after.stream)
                &&& before.short(finishing) ==> after == (DecoderState {
                    compression,
                    stream: before.stream + before.fresh,
                    fresh: Seq::empty(),
                    ..before
                })
                &&& before.conserves(after)
                &&& !before.short(finishing) ==> after.settled()
            }
        },
    }
}

/// Whether this is where zstd came to at the end of the file: as far as it could.
pub open spec fn read_out(before: DecoderState, at: DecoderState) -> bool {
    &&& before.conserves(at)
    &&& (before.stream + before.fresh).is_prefix_of(at.stream)
    &&& at.fresh.len() == 0
    &&& at.settled()
}

/// What recovering the tail of a frame without an end comes to: what is left of the
/// file is dropped, the end of a frame is put in its place, and zstd goes on as far
/// as it can.
pub open spec fn flushed(at: DecoderState, after: DecoderState) -> bool {
    &&& DecoderState { pending: END_OF_FRAME@, ..at }.conserves(after)
    &&& at.stream.is_prefix_of(after.stream)
    &&& after.stream.is_prefix_of(block_content(after.taken))
    &&& after.settled()
}

/// What finishing comes to.
pub open spec fn finished(
    before: DecoderState,
    after: DecoderState,
    seen_before: Seq<(u64, Seq<u8>)>,
    seen_after: Seq<(u64, Seq<u8>)>,
    result: Result<Completion, DecodeError>,
) -> bool {
    let compression = before.sniffed(true);
    &&& after.compression == compression
    &&& after.bytes_in == before.bytes_in
    &&& delivered(before.stream, after.stream, seen_before, seen_after)
    &&& match result {
        Ok(completion) => {
            &&& outcome(after.stream) is Ok
            &&& before.broken is None
            &&& after.fresh.len() == 0
            &&& completion.trailing_bytes == split(after.stream).rest.len()
            &&& completion.truncated == (completion.incomplete_frame || completion.trailing_bytes
                > 0)
            &&& compression == Some(Compression::Uncompressed) ==> !completion.incomplete_frame
            &&& compression == Some(Compression::Zstd) && before.short(true) ==> {
                &&& completion.incomplete_frame == (before.bytes_in > 0)
                &&& after.stream == before.stream + before.fresh
            }
            &&& compression == Some(Compression::Zstd) && !before.short(true) ==> exists|at: DecoderState|
                {
                    &&& #[trigger] read_out(before, at)
                    &&& completion.incomplete_frame == !at.ended
                    &&& if completion.incomplete_frame {
                        flushed(at, after)
                    } else {
                        after == at && after.stream == block_content(after.taken)
                    }
                }
        },
        Err(DecodeError::Zstd(words)) => {
            &&& compression == Some(Compression::Zstd)
            &&& after.broken == Some(words@)
            &&& match before.broken {
                Some(said) => words@ == said && after == before,
                None => {
                    ||| before.refused(words@)
                    ||| exists|at: DecoderState|
                        {
                            &&& #[trigger] read_out(before, at)
                            &&& !at.ended
                            &&& DecoderState { pending: END_OF_FRAME@, ..at }.refused(words@)
                        }
                },
            }
        },
        Err(error) => outcome(after.stream) == Err::<(), DecodeError>(error),
    }
    &&& compression == Some(Compression::Uncompressed) ==> {
        &&& after.stream == before.stream + before.fresh + before.pending
        &&& result is Ok <==> outcome(after.stream) is Ok
    }
}

/// Searching a stream fails on what it holds, never on zstd.
proof fn lemma_search_errors(stream: Seq<u8>)
    ensures
        split(stream).error matches Some(error) ==> error !is Zstd,
    decreases stream.len(),
{
    match next_record(stream) {
        Next::Record(start, end) => {
            lemma_varint_len(stream, 0);
            lemma_search_errors(stream.skip(end));
        },
        _ => {},
    }
}

/// Whether zstd refuses a file is decided by what it has taken, given and left.
proof fn lemma_refused(a: DecoderState, b: DecoderState, words: Seq<char>)
    requires
        a.refused(words),
        a.taken == b.taken,
        a.pending == b.pending,
        a.stream == b.stream,
        a.fresh == b.fresh,
    ensures
        b.refused(words),
{
    let (taken, given, ended, rest) = choose|
        taken: Seq<u8>,
        given: Seq<u8>,
        ended: bool,
        rest: Seq<u8>,
    | #[trigger] a.refused_at(words, taken, given, ended, rest);
    assert(b.refused_at(words, taken, given, ended, rest));
}

/// A sink given nothing has been given what no new bytes hold.
proof fn lemma_nothing_delivered(stream: Seq<u8>, seen: Seq<(u64, Seq<u8>)>)
    ensures
        delivered(stream, stream, seen, seen),
{
    let already = split(stream).records.len();
    assert(split(stream).records.skip(already as int) =~= Seq::empty());
    assert(seen =~= seen + numbered(split(stream).records.skip(already as int), already));
}

/// What a sink is given over two calls is what one call over the same bytes would
/// have given it.
pub proof fn law_deliveries_add_up(
    a: Seq<u8>,
    b: Seq<u8>,
    c: Seq<u8>,
    seen_a: Seq<(u64, Seq<u8>)>,
    seen_b: Seq<(u64, Seq<u8>)>,
    seen_c: Seq<(u64, Seq<u8>)>,
)
    requires
        delivered(a, b, seen_a, seen_b),
        delivered(b, c, seen_b, seen_c),
    ensures
        delivered(a, c, seen_a, seen_c),
{
    let n = split(a).records.len();
    let m = split(b).records.len();
    assert(b =~= a + b.skip(a.len() as int));
    assert(c =~= b + c.skip(b.len() as int));
    law_split_across_chunks(a, b.skip(a.len() as int));
    law_split_across_chunks(b, c.skip(b.len() as int));
    assert(a.is_prefix_of(c));
    let first = split(b).records.skip(n as int);
    let second = split(c).records.skip(m as int);
    let both = split(c).records.skip(n as int);
    assert(both =~= first + second);
    assert(numbered(both, n) =~= numbered(first, n) + numbered(second, m));
    assert(seen_c =~= seen_a + numbered(both, n));
}

/// What a decoder has decompressed is what the blocks it has read hold.
pub proof fn law_a_decoder_is_sound(decoder: RecordDecoder)
    requires
        decoder.wf(),
    ensures
        decoder@.sound(),
{
}

/// Chunks, end to end.
pub open spec fn joined(chunks: Seq<Seq<u8>>) -> Seq<u8>
    decreases chunks.len(),
{
    if chunks.len() == 0 {
        Seq::empty()
    } else {
        joined(chunks.drop_last()) + chunks.last()
    }
}

/// A file fed to a decoder: its chunks, where the decoder and the sink stood before
/// each of them and after the last, and what came of each.
pub struct Feeding {
    pub hint: Option<Compression>,
    pub chunks: Seq<Seq<u8>>,
    pub states: Seq<DecoderState>,
    pub seen: Seq<Seq<(u64, Seq<u8>)>>,
    pub results: Seq<Result<(), DecodeError>>,
}

impl Feeding {
    /// The file.
    pub open spec fn bytes(self) -> Seq<u8> {
        joined(self.chunks)
    }

    /// Whether this is how feeding the chunks to a new decoder goes.
    pub open spec fn holds(self) -> bool {
        let n = self.chunks.len();
        &&& self.states.len() == n + 1
        &&& self.seen.len() == n + 1
        &&& self.results.len() == n
        &&& self.states[0] == DecoderState::initial(self.hint)
        &&& self.seen[0].len() == 0
        &&& forall|i: int|
            #![trigger self.chunks[i]]
            0 <= i < n ==> pumped(
                self.states[i].with_chunk(self.chunks[i]),
                self.states[i + 1],
                false,
                self.seen[i],
                self.seen[i + 1],
                self.results[i],
            )
    }

    /// Feeding all chunks but the last.
    pub open spec fn but_last(self) -> Feeding {
        Feeding {
            hint: self.hint,
            chunks: self.chunks.drop_last(),
            states: self.states.drop_last(),
            seen: self.seen.drop_last(),
            results: self.results.drop_last(),
        }
    }
}

/// What can be searched to its end can be searched to any point before.
proof fn lemma_front_has_no_error(a: Seq<u8>, b: Seq<u8>)
    requires
        split(a + b).error is None,
    ensures
        split(a).error is None,
{
    law_split_across_chunks(a, b);
    law_the_rest_holds_no_record(a);
    if split(a).error is Some {
        lemma_varint_stable(split(a).rest, b, 0);
    }
}

/// A sink has been given the records of a stream that grew to what it is.
proof fn lemma_seen(
    from: Seq<u8>,
    to: Seq<u8>,
    before: Seq<(u64, Seq<u8>)>,
    after: Seq<(u64, Seq<u8>)>,
)
    requires
        before == numbered(split(from).records, 0),
        delivered(from, to, before, after),
    ensures
        after == numbered(split(to).records, 0),
{
    let none = Seq::<u8>::empty();
    assert(split(none).records.len() == 0);
    assert(split(from).records.skip(0) =~= split(from).records);
    assert(before =~= Seq::empty() + numbered(split(from).records.skip(0), 0));
    assert(none.is_prefix_of(from));
    law_deliveries_add_up(none, from, to, Seq::empty(), before, after);
    assert(split(to).records.skip(0) =~= split(to).records);
    assert(after =~= numbered(split(to).records, 0));
}

/// Whether a file is read as uncompressed: it does not start with zstd's magic, and
/// one too short for that is not said to be zstd.
pub open spec fn reads_as_plain(bytes: Seq<u8>, hint: Option<Compression>) -> bool {
    if bytes.len() >= 4 {
        bytes.subrange(0, 4) != ZSTD_MAGIC@
    } else {
        hint != Some(Compression::Zstd)
    }
}

/// Where a decoder of uncompressed bytes stands.
spec fn stands_plain(feeding: Feeding) -> bool {
    let state = feeding.states.last();
    let bytes = feeding.bytes();
    &&& state.hint == feeding.hint
    &&& state.fresh.len() == 0
    &&& feeding.seen.last() == numbered(split(state.stream).records, 0)
    &&& match state.compression {
        None => state.pending == bytes && state.stream.len() == 0 && bytes.len() < 4,
        Some(Compression::Uncompressed) => state.stream == bytes && state.pending.len() == 0,
        Some(Compression::Zstd) => false,
    }
}

proof fn lemma_plain(feeding: Feeding, rest: Seq<u8>)
    requires
        feeding.holds(),
        feeding.bytes().len() >= 4 ==> feeding.bytes().subrange(0, 4) != ZSTD_MAGIC@,
        split(feeding.bytes() + rest).error is None,
    ensures
        stands_plain(feeding),
        forall|i: int| 0 <= i < feeding.results.len() ==> #[trigger] feeding.results[i] is Ok,
    decreases feeding.chunks.len(),
{
    let n = feeding.chunks.len() as int;
    let bytes = feeding.bytes();
    if n == 0 {
        assert(split(Seq::<u8>::empty()).records.len() == 0);
        assert(feeding.states.last().stream =~= Seq::empty());
        assert(feeding.seen.last() =~= numbered(split(Seq::<u8>::empty()).records, 0));
    } else {
        let before = feeding.but_last();
        let chunk = feeding.chunks.last();
        assert(before.holds()) by {
            assert forall|i: int|
                #![trigger before.chunks[i]]
                0 <= i < before.chunks.len() implies pumped(
                before.states[i].with_chunk(before.chunks[i]),
                before.states[i + 1],
                false,
                before.seen[i],
                before.seen[i + 1],
                before.results[i],
            ) by {
                assert(before.chunks[i] == feeding.chunks[i]);
                assert(before.states[i] == feeding.states[i]);
                assert(before.states[i + 1] == feeding.states[i + 1]);
                assert(before.seen[i] == feeding.seen[i]);
                assert(before.seen[i + 1] == feeding.seen[i + 1]);
            }
        }
        assert(bytes == before.bytes() + chunk);
        assert((before.bytes() + chunk) + rest =~= before.bytes() + (chunk + rest));
        if before.bytes().len() >= 4 {
            assert(before.bytes().subrange(0, 4) =~= bytes.subrange(0, 4));
        }
        lemma_plain(before, chunk + rest);
        lemma_front_has_no_error(bytes, rest);
        assert(feeding.chunks[n - 1] == chunk);
        let was = feeding.states[n - 1];
        let now = feeding.states[n];
        assert(before.states.last() == was);
        assert(before.seen.last() == feeding.seen[n - 1]);
        assert(feeding.states.last() == now);
        assert(feeding.seen.last() == feeding.seen[n]);
        let given = was.with_chunk(chunk);
        if was.compression is None {
            assert(given.pending =~= bytes);
            assert(given.stream + given.fresh + given.pending =~= bytes);
        } else {
            assert(given.stream + given.fresh + given.pending =~= bytes);
        }
        if now.compression is None {
            assert(now.stream =~= was.stream);
            assert(feeding.seen[n] == feeding.seen[n - 1]);
        } else {
            lemma_seen(was.stream, now.stream, feeding.seen[n - 1], feeding.seen[n]);
        }
        assert(feeding.results[n - 1] is Ok);
        assert forall|i: int| 0 <= i < feeding.results.len() implies #[trigger]
            feeding.results[i] is Ok by {
            if i < n - 1 {
                assert(before.results[i] == feeding.results[i]);
            }
        }
    }
}

/// An uncompressed archive delivers its records, wherever it is cut into chunks, even
/// within a length: the sink has been given every one of them once, in order and
/// numbered from zero. What is left over at the end is not an error; its length is
/// reported.
pub proof fn law_an_uncompressed_archive_delivers_its_records(
    feeding: Feeding,
    after: DecoderState,
    seen: Seq<(u64, Seq<u8>)>,
    result: Result<Completion, DecodeError>,
)
    requires
        feeding.holds(),
        reads_as_plain(feeding.bytes(), feeding.hint),
        split(feeding.bytes()).error is None,
        finished(feeding.states.last(), after, feeding.seen.last(), seen, result),
    ensures
        forall|i: int| 0 <= i < feeding.results.len() ==> #[trigger] feeding.results[i] is Ok,
        seen == numbered(split(feeding.bytes()).records, 0),
        result matches Ok(completion) && completion.trailing_bytes == split(
            feeding.bytes(),
        ).rest.len() && !completion.incomplete_frame && completion.truncated == (
        completion.trailing_bytes > 0),
{
    let bytes = feeding.bytes();
    let last = feeding.states.last();
    assert(bytes + Seq::<u8>::empty() =~= bytes);
    lemma_plain(feeding, Seq::empty());
    assert(last.stream + last.fresh + last.pending =~= bytes);
    lemma_seen(last.stream, after.stream, feeding.seen.last(), seen);
}

/// A stream that was cut keeps the records before the cut: they are read back, and
/// what is left of the one that was cut is left over.
pub proof fn law_a_cut_stream_keeps_its_whole_records(
    records: Seq<Seq<u8>>,
    cut: Seq<u8>,
    left: int,
)
    requires
        forall|i: int| 0 <= i < records.len() ==> (#[trigger] records[i]).len() <= MAX_RECORD_LEN,
        cut.len() <= MAX_RECORD_LEN,
        0 <= left < framed(cut).len(),
    ensures
        split(framed_stream(records) + framed(cut).take(left)) == (Split {
            records,
            rest: framed(cut).take(left),
            error: None,
        }),
{
    let front = framed_stream(records);
    let rest = framed(cut).take(left);
    law_a_framed_stream_reads_back(records);
    law_split_across_chunks(front, rest);
    assert(Seq::<u8>::empty() + rest =~= rest);
    let length = varint_bytes(cut.len());
    law_a_written_length_reads_back(cut.len() as u64, cut);
    let missing = framed(cut).skip(left);
    assert(rest + missing =~= framed(cut));
    lemma_varint_len(rest, 0);
    if varint_from(rest, 0) !is Incomplete {
        lemma_varint_stable(rest, missing, 0);
    }
    assert(next_record(rest) is Partial);
    assert(records + Seq::<Seq<u8>>::empty() =~= records);
}

/// A decoder keeps every byte of a file that zstd does not refuse, and its sink has
/// the records of what was decompressed.
proof fn lemma_fed(feeding: Feeding)
    requires
        feeding.holds(),
        forall|i: int| 0 <= i < feeding.results.len() ==> #[trigger] feeding.results[i] is Ok,
        feeding.bytes().len() >= 4 ==> feeding.bytes().subrange(0, 4) == ZSTD_MAGIC@,
    ensures
        ({
            let state = feeding.states.last();
            &&& state.broken is None
            &&& state.compression != Some(Compression::Uncompressed)
            &&& state.compression is None ==> feeding.bytes().len() < 4
            &&& state.taken + state.pending == feeding.bytes()
            &&& state.compression is None ==> state.taken.len() == 0
            &&& feeding.seen.last() == numbered(split(state.stream).records, 0)
        }),
    decreases feeding.chunks.len(),
{
    let n = feeding.chunks.len() as int;
    let bytes = feeding.bytes();
    if n == 0 {
        assert(split(Seq::<u8>::empty()).records.len() == 0);
        assert(feeding.states.last().stream =~= Seq::empty());
        assert(feeding.seen.last() =~= numbered(split(Seq::<u8>::empty()).records, 0));
        assert(feeding.states.last().taken + feeding.states.last().pending =~= bytes);
    } else {
        let before = feeding.but_last();
        let chunk = feeding.chunks.last();
        assert(before.holds()) by {
            assert forall|i: int|
                #![trigger before.chunks[i]]
                0 <= i < before.chunks.len() implies pumped(
                before.states[i].with_chunk(before.chunks[i]),
                before.states[i + 1],
                false,
                before.seen[i],
                before.seen[i + 1],
                before.results[i],
            ) by {
                assert(before.chunks[i] == feeding.chunks[i]);
                assert(before.states[i] == feeding.states[i]);
                assert(before.states[i + 1] == feeding.states[i + 1]);
                assert(before.seen[i] == feeding.seen[i]);
                assert(before.seen[i + 1] == feeding.seen[i + 1]);
            }
        }
        assert forall|i: int| 0 <= i < before.results.len() implies #[trigger]
            before.results[i] is Ok by {
            assert(before.results[i] == feeding.results[i]);
        }
        assert(bytes == before.bytes() + chunk);
        if before.bytes().len() >= 4 {
            assert(before.bytes().subrange(0, 4) =~= bytes.subrange(0, 4));
        }
        lemma_fed(before);
        assert(feeding.chunks[n - 1] == chunk);
        assert(feeding.results[n - 1] is Ok);
        let was = feeding.states[n - 1];
        let now = feeding.states[n];
        assert(before.states.last() == was);
        assert(before.seen.last() == feeding.seen[n - 1]);
        let given = was.with_chunk(chunk);
        assert(given.taken + given.pending =~= bytes);
        if was.compression is None {
            assert(given.pending =~= bytes);
        }
        lemma_seen(was.stream, now.stream, feeding.seen[n - 1], feeding.seen[n]);
    }
}

/// A zstd archive delivers the records its blocks hold, wherever it is cut into
/// chunks: fed and finished without a complaint, the sink has been given every one of
/// them once, in order and numbered from zero.
pub proof fn law_a_compressed_archive_delivers_its_records(
    feeding: Feeding,
    after: DecoderState,
    seen: Seq<(u64, Seq<u8>)>,
    completion: Completion,
)
    requires
        feeding.holds(),
        forall|i: int| 0 <= i < feeding.results.len() ==> #[trigger] feeding.results[i] is Ok,
        feeding.bytes().len() >= 4,
        feeding.bytes().subrange(0, 4) == ZSTD_MAGIC@,
        finished(feeding.states.last(), after, feeding.seen.last(), seen, Ok(completion)),
        !completion.incomplete_frame,
        !feeding.states.last().short(true),
    ensures
        after.taken.is_prefix_of(feeding.bytes()),
        seen == numbered(split(block_content(after.taken)).records, 0),
        completion.trailing_bytes == split(block_content(after.taken)).rest.len(),
{
    let bytes = feeding.bytes();
    let last = feeding.states.last();
    lemma_fed(feeding);
    lemma_seen(last.stream, after.stream, feeding.seen.last(), seen);
    assert(after.taken + after.pending == bytes);
    assert(bytes.take(after.taken.len() as int) =~= after.taken);
}

/// A zstd archive that is still being written delivers what it holds so far. Its
/// frame is reported to have no end; zstd has read the file as far as it could, and
/// on to an end put after that; and the sink has been given every record of what came
/// out once, in order and numbered from zero. Where zstd takes that end for one, what
/// came out is all that the blocks it read hold.
pub proof fn law_an_unfinished_archive_delivers_what_it_holds(
    feeding: Feeding,
    after: DecoderState,
    seen: Seq<(u64, Seq<u8>)>,
    completion: Completion,
)
    requires
        feeding.holds(),
        forall|i: int| 0 <= i < feeding.results.len() ==> #[trigger] feeding.results[i] is Ok,
        feeding.bytes().len() >= 4,
        feeding.bytes().subrange(0, 4) == ZSTD_MAGIC@,
        finished(feeding.states.last(), after, feeding.seen.last(), seen, Ok(completion)),
        completion.incomplete_frame,
        !feeding.states.last().short(true),
        after.sound(),
        after.fresh.len() == 0,
        after.broken is None,
    ensures
        completion.truncated,
        seen == numbered(split(after.stream).records, 0),
        after.stream.is_prefix_of(block_content(after.taken)),
        after.ended ==> after.stream == block_content(after.taken),
        exists|at: DecoderState|
            {
                &&& #[trigger] at.settled()
                &&& !at.ended
                &&& at.taken + at.pending == feeding.bytes()
                &&& after.taken + after.pending == at.taken + END_OF_FRAME@
            },
{
    let last = feeding.states.last();
    lemma_fed(feeding);
    lemma_seen(last.stream, after.stream, feeding.seen.last(), seen);
    let at = choose|at: DecoderState|
        {
            &&& #[trigger] read_out(last, at)
            &&& completion.incomplete_frame == !at.ended
            &&& flushed(at, after)
        };
    assert(at.settled());
    assert(after.stream + after.fresh =~= after.stream);
}

/// A length ends with the first byte that says no other follows, ten bytes in at the latest,
/// of which the last carries one bit; what runs on past that is refused, and what stops
/// before it waits for more.
pub proof fn law_a_length_ends_or_is_refused(bytes: Seq<u8>)
    ensures
        match varint_from(bytes, 0) {
            Varint::Value(value, used) => {
                &&& 1 <= used <= 10
                &&& used <= bytes.len()
                &&& bytes[used - 1] < 128
                &&& used == 10 ==> bytes[9] <= 1
                &&& forall|i: int| 0 <= i < used - 1 ==> #[trigger] bytes[i] >= 128
                &&& value == varint_value(bytes, used as int)
            },
            Varint::Incomplete => bytes.len() < 10 && forall|i: int|
                0 <= i < bytes.len() ==> #[trigger] bytes[i] >= 128,
            Varint::Invalid => bytes.len() >= 10 && bytes[9] > 1 && forall|i: int|
                0 <= i < 9 ==> #[trigger] bytes[i] >= 128,
        },
{
    lemma_length(bytes, 0);
}

proof fn lemma_length(bytes: Seq<u8>, at: int)
    requires
        0 <= at <= 9,
        forall|i: int| 0 <= i < at ==> i < bytes.len() && #[trigger] bytes[i] >= 128,
    ensures
        match varint_from(bytes, at) {
            Varint::Value(value, used) => {
                &&& 1 <= used <= 10
                &&& used <= bytes.len()
                &&& bytes[used - 1] < 128
                &&& used == 10 ==> bytes[9] <= 1
                &&& forall|i: int| 0 <= i < used - 1 ==> #[trigger] bytes[i] >= 128
                &&& value == varint_value(bytes, used as int)
            },
            Varint::Incomplete => bytes.len() < 10 && forall|i: int|
                0 <= i < bytes.len() ==> #[trigger] bytes[i] >= 128,
            Varint::Invalid => bytes.len() >= 10 && bytes[9] > 1 && forall|i: int|
                0 <= i < 9 ==> #[trigger] bytes[i] >= 128,
        },
    decreases 10 - at,
{
    if at < bytes.len() && !(at == 9 && bytes[at] > 1) && bytes[at] >= 128 {
        lemma_length(bytes, at + 1);
    } else if at < bytes.len() && bytes[at] < 128 && !(at == 9 && bytes[at] > 1) {
        lemma_sevens(bytes, at + 1);
    }
}

/// The numbers that some bytes of seven bits each can stand for.
proof fn lemma_sevens(bytes: Seq<u8>, n: int)
    requires
        0 <= n <= 10,
        n == 10 ==> bytes[9] <= 1,
    ensures
        0 <= varint_value(bytes, n) <= u64::MAX,
        n < 10 ==> varint_value(bytes, n) < scale(n),
    decreases n,
{
    reveal_with_fuel(scale, 11);
    if n > 0 {
        lemma_sevens(bytes, n - 1);
        let low = (bytes[n - 1] % 128) as int;
        let unit = scale(n - 1);
        assert(0 <= low * unit <= 127 * unit) by (nonlinear_arith)
            requires
                0 <= low <= 127,
                unit >= 0,
        ;
        if n == 10 {
            assert(low * unit <= unit) by (nonlinear_arith)
                requires
                    0 <= low <= 1,
                    unit >= 0,
            ;
        }
    }
}

/// A record is taken as soon as all of it is there, and refused for its length alone where
/// that is over sixty-four mebibytes.
pub proof fn law_a_record_is_as_long_as_it_says(bytes: Seq<u8>)
    ensures
        varint_from(bytes, 0) matches Varint::Value(len, used) ==> {
            &&& len > 0x400_0000 <==> next_record(bytes) is Failed
            &&& len <= 0x400_0000 && bytes.len() < used + len <==> next_record(bytes) is Partial
            &&& len <= 0x400_0000 && bytes.len() >= used + len ==> next_record(bytes)
                == Next::Record(used as int, used + len)
        },
{
}

/// A file is known by its first four bytes, whatever it is called: those of a zstd frame
/// mean that it is one, and any others that it is not compressed. What it is called only
/// decides where it has ended before that many have come, and what was decided stays.
pub proof fn law_a_file_is_known_by_its_first_bytes(decoder: DecoderState, finishing: bool)
    requires
        decoder.compression is None,
    ensures
        ({
            let first = decoder.pending;
            let kind = decoder.sniffed(finishing);
            &&& first.len() >= 4 ==> kind == Some(
                if first[0] == 0x28 && first[1] == 0xb5 && first[2] == 0x2f && first[3] == 0xfd {
                    Compression::Zstd
                } else {
                    Compression::Uncompressed
                },
            )
            &&& first.len() < 4 && !finishing ==> kind is None
            &&& first.len() < 4 && finishing && decoder.hint is Some ==> kind == decoder.hint
            &&& first.len() < 4 && finishing && decoder.hint is None ==> kind == Some(
                Compression::Uncompressed,
            )
        }),
        forall|known: Compression|
            (#[trigger] DecoderState { compression: Some(known), ..decoder }.sniffed(finishing))
                == Some(known),
{
    let first = decoder.pending;
    if first.len() >= 4 {
        let front = first.subrange(0, 4);
        assert(front[0] == first[0] && front[1] == first[1] && front[2] == first[2] && front[3]
            == first[3]);
        if first[0] == 0x28 && first[1] == 0xb5 && first[2] == 0x2f && first[3] == 0xfd {
            assert(front =~= ZSTD_MAGIC@);
        }
    }
}

} // verus!
