//! Ties decoding, classification, aggregation and retention together.
//!
//! One [`Analysis`] spans a whole session: several rotated archive files can be
//! fed into it in order and are reported as one continuous archive.
//!
//! Bytes pushed in become records, which are taken in one by one. An event is retained
//! as the record it came in or, if it lost its raw data, as an encoding of what is left
//! of it.

use crate::decode;
use crate::decode::{
    Completion, Compression, DecodeError, DecoderState, RecordDecoder, RecordSink,
};
use crate::encode::encode_stripped;
use crate::exchange;
use crate::exchange::{Message, OpenRequests, Silence, Tracker, EXCHANGE_COUNT};
use crate::histogram;
use crate::histogram::{Histogram, Timeline};
use crate::kind;
use crate::kind::{Group, EventKind, KindTable};
use crate::latency;
use crate::latency::{Distribution, Latencies};
use crate::messages;
use crate::messages::{Decoded, Messages};
use crate::peers;
use crate::peers::{Directory, PeerTable, UserAgentSource};
use crate::proto::{
    ArchiveHeader, ConnEvent, ConnectionEvent, Ebpf, EbpfEvent, Event, MessageEvent, PeerInfo,
    PeerObserverEvent, RpcEvent,
};
use crate::relay::{Race, Relay};
use crate::store;
use crate::store::{EventStore, Retained, NO_PEER};
use crate::strip;
use crate::text;
use std::collections::VecDeque;
use vstd::prelude::*;

verus! {

/// What we know about one archive file in the session.
#[derive(Debug, PartialEq, Eq)]
pub struct FileSummary {
    pub name: String,
    /// Size reported by the caller, if known.
    pub declared_bytes: u64,
    pub compressed_bytes: u64,
    pub decompressed_bytes: u64,
    /// `ArchiveHeader.created`, seconds since the epoch.
    pub created: Option<u64>,
    /// `ArchiveHeader.low_data`. Unset in archives written before the field existed.
    pub low_data: Option<bool>,
    pub events: u64,
    pub decode_errors: u64,
    pub compression: Option<&'static str>,
    pub truncated: bool,
    pub incomplete_frame: bool,
    pub trailing_bytes: usize,
    /// Set if the file failed outright, e.g. it is not an archive at all.
    pub error: Option<String>,
}

/// A file in the session.
#[verifier::ext_equal]
pub struct FileRecord {
    pub name: Seq<char>,
    pub declared_bytes: u64,
    pub compressed_bytes: u64,
    pub decompressed_bytes: u64,
    pub created: Option<u64>,
    pub low_data: Option<bool>,
    pub events: u64,
    pub decode_errors: u64,
    pub compression: Option<Seq<char>>,
    pub truncated: bool,
    pub incomplete_frame: bool,
    pub trailing_bytes: usize,
    pub error: Option<Seq<char>>,
}

impl View for FileSummary {
    type V = FileRecord;

    open spec fn view(&self) -> FileRecord {
        FileRecord {
            name: self.name@,
            declared_bytes: self.declared_bytes,
            compressed_bytes: self.compressed_bytes,
            decompressed_bytes: self.decompressed_bytes,
            created: self.created,
            low_data: self.low_data,
            events: self.events,
            decode_errors: self.decode_errors,
            compression: match self.compression {
                Some(name) => Some(name@),
                None => None,
            },
            truncated: self.truncated,
            incomplete_frame: self.incomplete_frame,
            trailing_bytes: self.trailing_bytes,
            error: peers::text_in(self.error),
        }
    }
}

impl FileRecord {
    /// A file nothing has been read of.
    pub open spec fn fresh(name: Seq<char>, declared_bytes: u64) -> FileRecord {
        FileRecord {
            name,
            declared_bytes,
            compressed_bytes: 0,
            decompressed_bytes: 0,
            created: None,
            low_data: None,
            events: 0,
            decode_errors: 0,
            compression: None,
            truncated: false,
            incomplete_frame: false,
            trailing_bytes: 0,
            error: None,
        }
    }

    /// The file, as far as its decoder has got.
    pub open spec fn progressed(self, decoder: DecoderState) -> FileRecord {
        FileRecord {
            compressed_bytes: decoder.bytes_in,
            decompressed_bytes: latency::capped(
                (decoder.stream.len() + decoder.fresh.len()) as int,
                0,
            ),
            compression: match decoder.compression {
                Some(Compression::Zstd) => Some("zstd"@),
                Some(Compression::Uncompressed) => Some("none"@),
                None => None,
            },
            ..self
        }
    }

    /// The file, once it has failed.
    pub open spec fn failed(self, error: DecodeError) -> FileRecord {
        FileRecord { error: Some(error.sentence()), ..self }
    }

    /// The file, once it has ended.
    pub open spec fn completed(self, completion: Completion) -> FileRecord {
        FileRecord {
            truncated: completion.truncated,
            incomplete_frame: completion.incomplete_frame,
            trailing_bytes: completion.trailing_bytes,
            ..self
        }
    }
}

/// How one kind of request fared across the archive.
///
/// Archive-wide rather than per peer, and split by which side stayed silent: a
/// `getaddr` this node never answered and a `getaddr` a peer never answered are
/// opposite findings, and adding them together would hide both.
///
/// `opened - answered - unanswered` is the undetermined remainder: requests
/// this tool could not judge either way. It is near zero for the exchanges
/// Bitcoin Core sends one at a time, and can be large for the ones it
/// pipelines -- see [`crate::exchange`] for why a displaced `getdata` is not
/// evidence of anything.
#[derive(Debug, Clone, Copy, PartialEq, Eq)]
pub struct ExchangeStats {
    /// Requests of this kind seen, in either direction.
    pub opened: u64,
    /// Of those, how many got at least one reply.
    pub answered: u64,
    /// Requests this node sent that a peer never answered.
    pub unanswered_by_peers: u64,
    /// Requests a peer sent that this node never answered.
    pub unanswered_by_us: u64,
}

impl Default for ExchangeStats {
    fn default() -> (stats: Self)
        ensures
            stats == ExchangeStats::zero(),
    {
        ExchangeStats { opened: 0, answered: 0, unanswered_by_peers: 0, unanswered_by_us: 0 }
    }
}

impl ExchangeStats {
    pub open spec fn zero() -> ExchangeStats {
        ExchangeStats { opened: 0, answered: 0, unanswered_by_peers: 0, unanswered_by_us: 0 }
    }

    /// Requests known to have gone without an answer.
    pub open spec fn silent(self) -> u64 {
        latency::capped(self.unanswered_by_peers as int, self.unanswered_by_us as int)
    }

    /// Requests whose fate could not be established.
    pub open spec fn unclear(self) -> u64 {
        if self.opened > self.answered + self.silent() {
            (self.opened - self.answered - self.silent()) as u64
        } else {
            0
        }
    }

    pub fn unanswered(&self) -> (count: u64)
        ensures
            count == self.silent(),
    {
        self.unanswered_by_peers.saturating_add(self.unanswered_by_us)
    }

    /// Requests whose fate could not be established.
    pub fn undetermined(&self) -> (count: u64)
        ensures
            count == self.unclear(),
    {
        self.opened.saturating_sub(self.answered).saturating_sub(self.unanswered())
    }

    pub open spec fn with_opened(self) -> ExchangeStats {
        ExchangeStats { opened: latency::capped(self.opened as int, 1), ..self }
    }

    pub open spec fn with_answered(self) -> ExchangeStats {
        ExchangeStats { answered: latency::capped(self.answered as int, 1), ..self }
    }

    /// The stats with `n` more unanswered. An inbound request is one this node
    /// failed to answer.
    pub open spec fn with_silence(self, inbound: bool, n: int) -> ExchangeStats {
        if inbound {
            ExchangeStats {
                unanswered_by_us: latency::capped(self.unanswered_by_us as int, n),
                ..self
            }
        } else {
            ExchangeStats {
                unanswered_by_peers: latency::capped(self.unanswered_by_peers as int, n),
                ..self
            }
        }
    }
}

/// How often to retire requests whose window has passed.
///
/// The tracker only holds requests that are genuinely in flight, so this is
/// about keeping that true: without it, every connection that dies before
/// its handshake completes leaves an entry behind for the length of the
/// archive. Often enough to bound the table, rarely enough not to matter.
pub const SWEEP_EVERY: u32 = 32_768;

/// The requests and replies of a session.
#[verifier::ext_equal]
pub struct Conversations {
    /// Per-exchange tallies.
    pub stats: Seq<ExchangeStats>,
    /// How long peers took to answer, by exchange.
    pub reply_latency: Seq<Distribution>,
    /// How long this node took to answer, by exchange.
    pub our_reply_latency: Seq<Distribution>,
    /// The requests in flight.
    pub open: OpenRequests,
    /// Messages observed since requests were last retired.
    pub since_sweep: u32,
}

impl Conversations {
    pub open spec fn blank() -> Conversations {
        Conversations {
            stats: Seq::new(EXCHANGE_COUNT as nat, |i: int| ExchangeStats::zero()),
            reply_latency: Seq::new(EXCHANGE_COUNT as nat, |i: int| Distribution::empty()),
            our_reply_latency: Seq::new(EXCHANGE_COUNT as nat, |i: int| Distribution::empty()),
            open: OpenRequests::empty(),
            since_sweep: 0,
        }
    }

    /// The conversations once requests past their window are retired.
    pub open spec fn swept(self, now: u64) -> Conversations {
        Conversations {
            stats: Seq::new(
                EXCHANGE_COUNT as nat,
                |i: int|
                    self.stats[i].with_silence(
                        true,
                        exchange::silent_count(self.open, now, i, true) as int,
                    ).with_silence(
                        false,
                        exchange::silent_count(self.open, now, i, false) as int,
                    ),
            ),
            open: exchange::after_sweep(self.open, now),
            ..self
        }
    }

    /// The tallies once a message has had its effect on them.
    pub open spec fn tallied(
        stats: Seq<ExchangeStats>,
        seen: exchange::Observed,
    ) -> Seq<ExchangeStats> {
        let stats = match seen.opened {
            Some(index) => stats.update(index as int, stats[index as int].with_opened()),
            None => stats,
        };
        let stats = match seen.answered {
            Some(answered) if seen.first_reply => stats.update(
                answered.exchange as int,
                stats[answered.exchange as int].with_answered(),
            ),
            _ => stats,
        };
        match seen.displaced {
            Some(silent) => stats.update(
                silent.exchange as int,
                stats[silent.exchange as int].with_silence(silent.request_inbound, 1),
            ),
            None => stats,
        }
    }

    /// Reply times with the one a message shows, if it is on this side.
    pub open spec fn timed(
        times: Seq<Distribution>,
        seen: exchange::Observed,
        this_side: bool,
    ) -> Seq<Distribution> {
        match seen.answered {
            Some(answered) if this_side => times.update(
                answered.exchange as int,
                times[answered.exchange as int].with(answered.elapsed_ms),
            ),
            _ => times,
        }
    }

    /// The conversations once a message has been observed.
    pub open spec fn with_message(self, timestamp: u64, event: MessageEvent) -> Conversations {
        let message = Message {
            peer: event.meta.peer_id,
            command: event.meta.command@,
            inbound: event.meta.inbound,
            timestamp,
            position: 0,
        };
        let seen = exchange::observed(self.open, message);
        let after = Conversations {
            stats: Conversations::tallied(self.stats, seen),
            // A message coming in answers a request that went out, so it times
            // the peer; one going out times this node.
            reply_latency: Conversations::timed(self.reply_latency, seen, message.inbound),
            our_reply_latency: Conversations::timed(
                self.our_reply_latency,
                seen,
                !message.inbound,
            ),
            open: exchange::after_message(self.open, message),
            since_sweep: (self.since_sweep + 1) as u32,
        };
        if after.since_sweep >= SWEEP_EVERY {
            Conversations { since_sweep: 0, ..after }.swept(timestamp)
        } else {
            after
        }
    }

    pub open spec fn valid(self) -> bool {
        &&& self.stats.len() == EXCHANGE_COUNT
        &&& self.reply_latency.len() == EXCHANGE_COUNT
        &&& self.our_reply_latency.len() == EXCHANGE_COUNT
        &&& exchange::well_keyed(self.open)
        &&& self.since_sweep < SWEEP_EVERY
    }
}

/// Distributions, one for each of some latencies.
pub open spec fn distributions(latencies: Seq<Latencies>) -> Seq<Distribution> {
    Seq::new(latencies.len(), |i: int| latencies[i]@)
}

/// What an event's columns in the store are, apart from its bytes, and how many
/// bytes were dropped from it.
#[derive(Debug, Clone, Copy, PartialEq, Eq)]
pub struct Columns {
    pub timestamp: u64,
    pub kind: u16,
    /// Dense peer index, or [`NO_PEER`].
    pub peer: u32,
    pub flags: u8,
    pub size: u32,
    /// Bytes of raw transaction and block data dropped from the event. If there
    /// are any, its original encoding is not what is to be retained.
    pub dropped: usize,
}

/// Everything aggregated across a session.
#[verifier::ext_equal]
pub struct Findings {
    pub kinds: Seq<EventKind>,
    pub counts: Seq<u64>,
    pub timeline: Timeline,
    pub peers: Directory,
    pub relay: Race,
    pub talk: Conversations,
    pub files: Seq<FileRecord>,
    pub total_events: u64,
    pub decode_errors: u64,
    pub stripped_events: u64,
    pub stripped_bytes: u64,
    pub first: Option<u64>,
    pub last: Option<u64>,
}

/// The peers once a snapshot's first `upto` entries have been heard.
pub open spec fn named_all(peers: Directory, infos: Seq<PeerInfo>, upto: int) -> Directory
    decreases upto,
{
    if upto <= 0 {
        peers
    } else {
        let info = infos[upto - 1];
        named_all(peers, infos, upto - 1).named(
            info.id as u64,
            info.subversion@,
            UserAgentSource::PeerInfo,
        )
    }
}

/// The peer table once an event has been attributed.
///
/// A getpeerinfo snapshot is not an event about one peer, but it does say what
/// each peer calls itself, which is the only source of that in an archive
/// captured without the P2P message tracepoints.
pub open spec fn peers_after(peers: Directory, event: Event, kind: u16) -> Directory {
    match event.peer_observer_event {
        Some(PeerObserverEvent::EbpfExtractor(ebpf)) => match ebpf.ebpf_event {
            Some(EbpfEvent::Message(message)) => peers.with_message(event.timestamp, message, kind),
            Some(EbpfEvent::Connection(connection)) => peers.with_connection(
                event.timestamp,
                connection,
            ),
            _ => peers,
        },
        Some(PeerObserverEvent::RpcExtractor(rpc)) => match rpc.rpc_event {
            Some(RpcEvent::PeerInfos(infos)) => named_all(
                peers,
                infos.infos@,
                infos.infos@.len() as int,
            ),
            _ => peers,
        },
        _ => peers,
    }
}

/// The peer a connection event is about.
pub open spec fn connection_peer(event: ConnectionEvent) -> Option<u64> {
    match event.event {
        Some(inner) => Some(peers::reported(inner).peer_id),
        None => None,
    }
}

/// The peer an event is about, if it is about one. Mempool and validation events
/// carry no peer.
pub open spec fn event_peer(event: Event) -> Option<u64> {
    match event.peer_observer_event {
        Some(PeerObserverEvent::EbpfExtractor(ebpf)) => match ebpf.ebpf_event {
            Some(EbpfEvent::Message(message)) => Some(message.meta.peer_id),
            Some(EbpfEvent::Connection(connection)) => connection_peer(connection),
            _ => None,
        },
        _ => None,
    }
}

/// The columns of an event, given the peer table that has it.
pub open spec fn columns_of(peers: Directory, event: Event, kind: u16) -> Columns {
    let message = strip::message_in(event);
    Columns {
        timestamp: event.timestamp,
        kind,
        peer: match event_peer(event) {
            Some(id) => match peers::place(peers.peers, id) {
                Some(at) => at as u32,
                None => NO_PEER,
            },
            None => NO_PEER,
        },
        flags: match message {
            Some(message) => store::flags::message_flags(message.meta.inbound),
            None => 0,
        },
        size: match message {
            Some(message) => if message.meta.size > u32::MAX {
                u32::MAX
            } else {
                message.meta.size as u32
            },
            None => 0,
        },
        dropped: dropped_from(event),
    }
}

impl Columns {
    /// The event as it is retained, as these bytes.
    pub open spec fn retained(self, bytes: Seq<u8>) -> Retained {
        Retained {
            timestamp: self.timestamp,
            kind: self.kind,
            peer: self.peer,
            flags: self.flags,
            size: self.size,
            bytes,
        }
    }
}

/// How many bytes stripping drops from an event.
pub open spec fn dropped_from(event: Event) -> usize {
    strip::held(
        match strip::message_in(event) {
            Some(message) => strip::weight(message.msg),
            None => 0,
        },
    )
}

/// Counts with one more of a kind. A kind not counted yet is the next one.
pub open spec fn counted(counts: Seq<u64>, kind: u16) -> Seq<u64> {
    if kind < counts.len() {
        counts.update(kind as int, (counts[kind as int] + 1) as u64)
    } else {
        counts.push(1)
    }
}

impl Findings {
    /// Nothing read yet.
    pub open spec fn blank() -> Findings {
        Findings {
            kinds: Seq::empty(),
            counts: Seq::empty(),
            timeline: Timeline::empty(),
            peers: Directory::empty(),
            relay: Race::empty(),
            talk: Conversations::blank(),
            files: Seq::empty(),
            total_events: 0,
            decode_errors: 0,
            stripped_events: 0,
            stripped_bytes: 0,
            first: None,
            last: None,
        }
    }

    /// Whether an event can be taken in: ids are left for its kind and its peer,
    /// and one more event can be counted.
    pub open spec fn accepts(self, event: Event) -> bool {
        &&& self.total_events < u64::MAX
        &&& kind::internable(self.kinds, kind::classified(event))
        &&& event_peer(event) matches Some(id) ==> self.peers.has_room(id)
    }

    /// The id of an event's kind.
    pub open spec fn kind_of(self, event: Event) -> u16 {
        kind::id_of(self.kinds, kind::classified(event))
    }

    /// The findings once an event of a file has been taken in.
    pub open spec fn with_event(self, file: int, event: Event) -> Findings {
        let kind = self.kind_of(event);
        let timestamp = event.timestamp;
        let message = strip::message_in(event);
        let dropped = dropped_from(event);
        Findings {
            kinds: kind::interned(self.kinds, kind::classified(event)),
            counts: counted(self.counts, kind),
            timeline: self.timeline.with(timestamp, kind),
            peers: peers_after(self.peers, event, kind),
            relay: match message {
                Some(message) => self.relay.with_message(timestamp, message),
                None => self.relay,
            },
            talk: match message {
                Some(message) => self.talk.with_message(timestamp, message),
                None => self.talk,
            },
            files: if 0 <= file < self.files.len() {
                self.files.update(
                    file,
                    FileRecord {
                        events: latency::capped(self.files[file].events as int, 1),
                        ..self.files[file]
                    },
                )
            } else {
                self.files
            },
            total_events: (self.total_events + 1) as u64,
            decode_errors: self.decode_errors,
            stripped_events: if dropped > 0 {
                latency::capped(self.stripped_events as int, 1)
            } else {
                self.stripped_events
            },
            stripped_bytes: latency::capped(self.stripped_bytes as int, dropped as int),
            first: match self.first {
                Some(first) => Some(latency::least(first, timestamp)),
                None => Some(timestamp),
            },
            last: match self.last {
                Some(last) => Some(latency::greatest(last, timestamp)),
                None => Some(timestamp),
            },
        }
    }

    /// The findings once a record of a file could not be decoded.
    pub open spec fn with_decode_error(self, file: int) -> Findings {
        Findings {
            decode_errors: latency::capped(self.decode_errors as int, 1),
            files: if 0 <= file < self.files.len() {
                self.files.update(
                    file,
                    FileRecord {
                        decode_errors: latency::capped(self.files[file].decode_errors as int, 1),
                        ..self.files[file]
                    },
                )
            } else {
                self.files
            },
            ..self
        }
    }

    /// The findings once a file's header has been read.
    pub open spec fn with_header(self, file: int, header: ArchiveHeader) -> Findings {
        Findings {
            files: if 0 <= file < self.files.len() {
                self.files.update(
                    file,
                    FileRecord {
                        created: Some(header.created),
                        low_data: header.low_data,
                        ..self.files[file]
                    },
                )
            } else {
                self.files
            },
            ..self
        }
    }

    /// The findings once a file's last record has been taken in. Anything still
    /// waiting at the end of the stream has either timed out -- in which case it
    /// counts -- or is genuinely in flight, in which case it is left alone.
    pub open spec fn settled(self) -> Findings {
        match self.last {
            Some(last) => Findings { talk: self.talk.swept(last), ..self },
            None => self,
        }
    }

    /// What taking events in can build: every event counted once, by its kind and
    /// in time.
    pub open spec fn valid(self) -> bool {
        &&& kind::distinct(self.kinds)
        &&& self.timeline.valid()
        &&& self.peers.valid()
        &&& self.relay.valid()
        &&& self.talk.valid()
        &&& self.counts.len() == self.kinds.len()
        &&& self.timeline.kinds == self.kinds.len()
        &&& self.total_events == self.timeline.events.len()
        &&& forall|k: int|
            0 <= k < self.counts.len() ==> #[trigger] self.counts[k] == histogram::of_kind(
                self.timeline.events,
                k,
            )
    }
}

/// A record waiting to be decoded.
#[derive(Debug, PartialEq, Eq)]
pub struct PendingRecord {
    /// Which file of the session it is from.
    pub file: usize,
    /// 0 for the file's header, 1.. for its events.
    pub index: u64,
    pub bytes: Vec<u8>,
}

impl PendingRecord {
    /// Whether it is the file's header. Record 0 of every file is, not an event.
    pub fn is_header(&self) -> (yes: bool)
        ensures
            yes == (self.index == 0),
    {
        self.index == 0
    }
}

/// An event that has been taken in, and has lost its raw data: an encoding of what
/// is left of it is what is to be retained, with [`Analysis::retain`].
#[derive(Debug, PartialEq, Eq)]
pub struct Stripped {
    pub event: Event,
    pub columns: Columns,
}

/// What taking in the next record came to.
#[derive(Debug, PartialEq, Eq)]
pub enum Step {
    /// None is waiting.
    Idle,
    /// It has been taken in, and what is to be retained of it has been handed to the
    /// store.
    Done,
    /// No id is left for its kind or its peer, or it cannot be counted. Nothing of it
    /// was taken in.
    Refused(PendingRecord),
}

/// What waits to be dealt with: records, and the ends of files.
pub enum Queued {
    Record(PendingRecord),
    EndOfFile,
}

/// What waits to be dealt with.
pub enum Waiting {
    Record(int, u64, Seq<u8>),
    EndOfFile,
}

impl View for Queued {
    type V = Waiting;

    open spec fn view(&self) -> Waiting {
        match self {
            Queued::Record(record) => Waiting::Record(
                record.file as int,
                record.index,
                record.bytes@,
            ),
            Queued::EndOfFile => Waiting::EndOfFile,
        }
    }
}

/// The records a sink was given, waiting as a file's.
pub open spec fn waiting_from(file: int, seen: Seq<(u64, Seq<u8>)>) -> Seq<Waiting> {
    Seq::new(seen.len(), |i: int| Waiting::Record(file, seen[i].0, seen[i].1))
}

/// A sink that lines records up.
struct Arrivals {
    records: VecDeque<(u64, Vec<u8>)>,
}

/// Records as a sink is given them.
spec fn as_seen(records: Seq<(u64, Vec<u8>)>) -> Seq<(u64, Seq<u8>)> {
    Seq::new(records.len(), |i: int| (records[i].0, records[i].1@))
}

impl RecordSink for Arrivals {
    closed spec fn seen(&self) -> Seq<(u64, Seq<u8>)> {
        as_seen(self.records@)
    }

    fn record(&mut self, index: u64, bytes: &[u8]) {
        let mut copy: Vec<u8> = Vec::new();
        copy.extend_from_slice(bytes);
        assert(copy@ =~= bytes@);
        self.records.push_back((index, copy));
        assert(self.seen() =~= old(self).seen().push((index, bytes@)));
    }
}

/// Where a session stands with its files.
#[verifier::ext_equal]
pub struct Reading {
    /// The decoder of the file that is open, which is the last one.
    pub decoder: Option<DecoderState>,
    pub queue: Seq<Waiting>,
}

/// Everything accumulated across the session.
pub struct Analysis {
    pub kinds: KindTable,
    /// Event counts indexed by kind id.
    pub counts: Vec<u64>,
    pub histogram: Histogram,
    pub peers: PeerTable,
    pub store: EventStore,
    /// Transaction relay: who announced what first, and what the duplicates cost.
    pub relay: Relay,
    /// Per-exchange request tallies, indexed the way [`exchange`] numbers them.
    /// Name an index with [`exchange::request_name`].
    pub exchanges: Vec<ExchangeStats>,
    /// How long peers took to answer, split by exchange. A single per-peer
    /// distribution mixes a ping round trip with a `getaddr` that Core answers
    /// on a thirty-second timer; this is what makes the mixture readable.
    pub reply_latency: Vec<Latencies>,
    /// The same, for the requests this node answered.
    pub our_reply_latency: Vec<Latencies>,
    pub files: Vec<FileSummary>,
    pub total_events: u64,
    pub decode_errors: u64,
    /// Events whose raw transaction or block data was dropped before retention.
    pub stripped_events: u64,
    /// Bytes of raw transaction and block data dropped before retention.
    pub stripped_bytes: u64,
    pub first_timestamp: Option<u64>,
    pub last_timestamp: Option<u64>,
    /// The file being read, and the requests in flight.
    pub machinery: Machinery,
}

/// What a session works with between one call and the next.
pub struct Machinery {
    decoder: Option<RecordDecoder>,
    exchange_tracker: Tracker,
    since_sweep: u32,
    queue: VecDeque<Queued>,
}

impl Machinery {
    /// The requests in flight.
    pub closed spec fn in_flight(&self) -> OpenRequests {
        self.exchange_tracker@
    }

    /// Messages observed since requests were last retired.
    pub closed spec fn observed_since(&self) -> u32 {
        self.since_sweep
    }

    /// Where the session stands with its files.
    pub closed spec fn reading(&self) -> Reading {
        Reading {
            decoder: match self.decoder {
                Some(decoder) => Some(decoder@),
                None => None,
            },
            queue: Seq::new(self.queue@.len(), |i: int| self.queue@[i]@),
        }
    }

    pub closed spec fn wf(&self) -> bool {
        &&& self.exchange_tracker.wf()
        &&& self.decoder matches Some(decoder) ==> decoder.wf()
    }
}

/// Whether every retained event is of a kind that has an id, and about a peer that has
/// an index, or about none.
pub open spec fn attributed(events: Seq<Retained>, kinds: int, peers: int) -> bool {
    forall|i: int| 0 <= i < events.len() ==> placed(#[trigger] events[i], kinds, peers)
}

/// Whether an event is of one of so many kinds, and about one of so many peers or none.
pub open spec fn placed(event: Retained, kinds: int, peers: int) -> bool {
    event.kind < kinds && (event.peer == NO_PEER || event.peer < peers)
}

/// The records behind some file summaries.
pub open spec fn file_records(files: Seq<FileSummary>) -> Seq<FileRecord> {
    Seq::new(files.len(), |i: int| files[i]@)
}

impl Analysis {
    /// Everything aggregated so far.
    pub open spec fn findings(&self) -> Findings {
        Findings {
            kinds: self.kinds@,
            counts: self.counts@,
            timeline: self.histogram@,
            peers: self.peers@,
            relay: self.relay@,
            talk: Conversations {
                stats: self.exchanges@,
                reply_latency: distributions(self.reply_latency@),
                our_reply_latency: distributions(self.our_reply_latency@),
                open: self.machinery.in_flight(),
                since_sweep: self.machinery.observed_since(),
            },
            files: file_records(self.files@),
            total_events: self.total_events,
            decode_errors: self.decode_errors,
            stripped_events: self.stripped_events,
            stripped_bytes: self.stripped_bytes,
            first: self.first_timestamp,
            last: self.last_timestamp,
        }
    }

    /// Where the session stands with its files.
    pub open spec fn reading(&self) -> Reading {
        self.machinery.reading()
    }

    pub open spec fn wf(&self) -> bool {
        &&& self.findings().valid()
        &&& self.kinds.wf()
        &&& self.histogram.wf()
        &&& self.peers.wf()
        &&& self.store.wf()
        &&& self.relay.wf()
        &&& self.machinery.wf()
        &&& self.reading().decoder is Some ==> self.files@.len() > 0
        &&& attributed(
            self.store@.events,
            self.kinds@.len() as int,
            self.peers@.peers.len() as int,
        )
    }

    pub fn new(budget_bytes: u64) -> (analysis: Self)
        ensures
            analysis.wf(),
            analysis.findings() == Findings::blank(),
            analysis.store@ == (store::Retention {
                events: Seq::empty(),
                budget: budget_bytes,
                stopped: None,
            }),
            analysis.reading() == (Reading { decoder: None, queue: Seq::empty() }),
    {
        let analysis = Analysis {
            kinds: KindTable::new(),
            counts: Vec::new(),
            histogram: Histogram::new(),
            peers: PeerTable::new(),
            store: EventStore::new(budget_bytes),
            relay: Relay::new(),
            exchanges: vec![ExchangeStats::default(); EXCHANGE_COUNT],
            reply_latency: vec![Latencies::default(); EXCHANGE_COUNT],
            our_reply_latency: vec![Latencies::default(); EXCHANGE_COUNT],
            files: Vec::new(),
            total_events: 0,
            decode_errors: 0,
            stripped_events: 0,
            stripped_bytes: 0,
            first_timestamp: None,
            last_timestamp: None,
            machinery: Machinery {
                decoder: None,
                exchange_tracker: Tracker::new(),
                since_sweep: 0,
                queue: VecDeque::new(),
            },
        };
        proof {
            assert(analysis.findings().talk =~= Conversations::blank());
            assert(analysis.findings() =~= Findings::blank());
            assert(analysis.reading().queue =~= Seq::empty());
        }
        analysis
    }

    /// Whether any file in the session ended mid-stream.
    pub fn truncated(&self) -> (truncated: bool)
        ensures
            truncated == exists|i: int|
                0 <= i < self.files@.len() && (#[trigger] self.files@[i]).truncated,
    {
        let mut i: usize = 0;
        while i < self.files.len()
            invariant
                i <= self.files@.len(),
                forall|j: int| 0 <= j < i ==> !(#[trigger] self.files@[j]).truncated,
            decreases self.files@.len() - i,
        {
            if self.files[i].truncated {
                return true;
            }
            i = i + 1;
        }
        false
    }

    /// Time span covered by the archive, in milliseconds.
    pub fn duration_ms(&self) -> (ms: u64)
        ensures
            ms == (match (self.first_timestamp, self.last_timestamp) {
                (Some(first), Some(last)) => exchange::since(last, first),
                _ => 0,
            }),
    {
        match (self.first_timestamp, self.last_timestamp) {
            (Some(first), Some(last)) => last.saturating_sub(first),
            _ => 0,
        }
    }
}

/// Group of a kind id, for callers that only have the id.
pub fn group_of(kinds: &KindTable, kind: u16) -> (group: Option<Group>)
    ensures
        group == (if kind < kinds@.len() {
            Some(kinds@[kind as int].group)
        } else {
            None
        }),
{
    match kinds.get(kind) {
        Some(info) => Some(info.group),
        None => None,
    }
}

/// Count a request that went unanswered.
fn note_unanswered(stats: &mut Vec<ExchangeStats>, exchange: usize, inbound: bool, n: u64)
    requires
        exchange < old(stats)@.len(),
    ensures
        final(stats)@ == old(stats)@.update(
            exchange as int,
            old(stats)@[exchange as int].with_silence(inbound, n as int),
        ),
{
    let held: ExchangeStats = stats[exchange];
    stats[exchange] = if inbound {
        ExchangeStats { unanswered_by_us: held.unanswered_by_us.saturating_add(n), ..held }
    } else {
        ExchangeStats { unanswered_by_peers: held.unanswered_by_peers.saturating_add(n), ..held }
    };
}

/// Retire requests that have waited past their window.
fn sweep_exchanges(stats: &mut Vec<ExchangeStats>, tracker: &mut Tracker, now: u64)
    requires
        old(stats)@.len() == EXCHANGE_COUNT,
        old(tracker).wf(),
    ensures
        final(tracker).wf(),
        final(tracker)@ == exchange::after_sweep(old(tracker)@, now),
        final(stats)@ == Seq::new(
            EXCHANGE_COUNT as nat,
            |i: int|
                old(stats)@[i].with_silence(
                    true,
                    exchange::silent_count(old(tracker)@, now, i, true) as int,
                ).with_silence(
                    false,
                    exchange::silent_count(old(tracker)@, now, i, false) as int,
                ),
        ),
{
    let ghost before = stats@;
    let ghost open = tracker@;
    let silence = tracker.sweep(now);
    let mut index: usize = 0;
    while index < EXCHANGE_COUNT
        invariant
            index <= EXCHANGE_COUNT,
            silence@.len() == EXCHANGE_COUNT,
            stats@.len() == EXCHANGE_COUNT,
            before.len() == EXCHANGE_COUNT,
            forall|i: int|
                0 <= i < EXCHANGE_COUNT ==> {
                    &&& (#[trigger] silence@[i]).by_us == exchange::silent_count(open, now, i, true)
                    &&& silence@[i].by_peers == exchange::silent_count(open, now, i, false)
                },
            forall|i: int|
                0 <= i < index ==> #[trigger] stats@[i] == before[i].with_silence(
                    true,
                    exchange::silent_count(open, now, i, true) as int,
                ).with_silence(false, exchange::silent_count(open, now, i, false) as int),
            forall|i: int| index <= i < EXCHANGE_COUNT ==> #[trigger] stats@[i] == before[i],
        decreases EXCHANGE_COUNT - index,
    {
        let silent: Silence = silence[index];
        note_unanswered(stats, index, true, silent.by_us as u64);
        note_unanswered(stats, index, false, silent.by_peers as u64);
        index = index + 1;
    }
    assert(stats@ =~= Seq::new(
        EXCHANGE_COUNT as nat,
        |i: int|
            before[i].with_silence(
                true,
                exchange::silent_count(open, now, i, true) as int,
            ).with_silence(false, exchange::silent_count(open, now, i, false) as int),
    ));
}

/// Add one reply time.
fn add_time(times: &mut Vec<Latencies>, exchange: usize, ms: u64)
    requires
        exchange < old(times)@.len(),
    ensures
        distributions(final(times)@) == distributions(old(times)@).update(
            exchange as int,
            distributions(old(times)@)[exchange as int].with(ms),
        ),
{
    let mut held: Latencies = times[exchange];
    held.add(ms);
    times[exchange] = held;
    assert(distributions(times@) =~= distributions(old(times)@).update(
        exchange as int,
        distributions(old(times)@)[exchange as int].with(ms),
    ));
}

impl Analysis {
    /// Feed one P2P message to the request/reply tracker and record what it
    /// says about the peer.
    fn observe_exchange(&mut self, timestamp: u64, message: &MessageEvent)
        requires
            old(self).wf(),
        ensures
            final(self).wf(),
            final(self).findings() == (Findings {
                talk: old(self).findings().talk.with_message(timestamp, *message),
                ..old(self).findings()
            }),
            final(self).store == old(self).store,
            final(self).reading() == old(self).reading(),
            final(self).kinds == old(self).kinds,
            final(self).peers == old(self).peers,
            final(self).counts == old(self).counts,
    {
        let ghost was = self.findings().talk;
        let meta = &message.meta;
        let seen = self.machinery.exchange_tracker.observe(
            meta.peer_id,
            meta.command.as_str(),
            meta.inbound,
            timestamp,
            0,
        );
        if let Some(index) = seen.opened {
            let held: ExchangeStats = self.exchanges[index];
            self.exchanges[index] = ExchangeStats { opened: held.opened.saturating_add(1), ..held };
        }
        if let Some(answered) = seen.answered {
            if seen.first_reply {
                let held: ExchangeStats = self.exchanges[answered.exchange];
                self.exchanges[answered.exchange] =
                ExchangeStats { answered: held.answered.saturating_add(1), ..held };
            }
            // Which side this times depends on who replied. A message coming
            // in answers a request that went out, so it times the peer; one
            // going out times this node.
            if meta.inbound {
                add_time(&mut self.reply_latency, answered.exchange, answered.elapsed_ms);
            } else {
                add_time(&mut self.our_reply_latency, answered.exchange, answered.elapsed_ms);
            }
        }
        if let Some(unanswered) = seen.displaced {
            note_unanswered(
                &mut self.exchanges,
                unanswered.exchange,
                unanswered.request_inbound,
                1,
            );
        }
        self.machinery.since_sweep = self.machinery.since_sweep + 1;
        if self.machinery.since_sweep >= SWEEP_EVERY {
            self.machinery.since_sweep = 0;
            sweep_exchanges(
                &mut self.exchanges,
                &mut self.machinery.exchange_tracker,
                timestamp,
            );
        }
        assert(self.findings().talk =~= was.with_message(timestamp, *message));
        assert(self.findings() =~= (Findings {
            talk: was.with_message(timestamp, *message),
            ..old(self).findings()
        }));
        proof {
            exchange::lemma_tracker_is_well_keyed(self.machinery.exchange_tracker);
        }
    }
}

/// The peer a connection event is about.
fn connection_peer_id(event: &ConnectionEvent) -> (peer_id: Option<u64>)
    ensures
        peer_id == connection_peer(*event),
{
    match &event.event {
        Some(ConnEvent::Closed(c)) => Some(c.conn.peer_id),
        Some(ConnEvent::InboundEvicted(c)) => Some(c.conn.peer_id),
        Some(ConnEvent::Inbound(c)) => Some(c.conn.peer_id),
        Some(ConnEvent::Outbound(c)) => Some(c.conn.peer_id),
        // Carries a bare peer id rather than a Connection.
        Some(ConnEvent::Misbehaving(m)) => Some(m.id),
        None => None,
    }
}

/// The peer an event is about, if it is about one.
fn peer_of(event: &Event) -> (peer_id: Option<u64>)
    ensures
        peer_id == event_peer(*event),
{
    match &event.peer_observer_event {
        Some(PeerObserverEvent::EbpfExtractor(ebpf)) => match &ebpf.ebpf_event {
            Some(EbpfEvent::Message(message)) => Some(message.meta.peer_id),
            Some(EbpfEvent::Connection(connection)) => connection_peer_id(connection),
            _ => None,
        },
        _ => None,
    }
}

impl Analysis {
    /// Whether an event can be taken in: there are ids left for its kind and its
    /// peer, and one more event can be counted. No archive that is one runs out.
    pub fn accepts(&self, event: &Event) -> (accepted: bool)
        requires
            self.wf(),
        ensures
            accepted == self.findings().accepts(*event),
    {
        let (group, name) = kind::classify(event);
        let peer = match peer_of(event) {
            Some(id) => self.peers.has_room_for(id),
            None => true,
        };
        self.total_events < u64::MAX && self.kinds.has_room_for(group, name) && peer
    }

    /// Count an event of a kind.
    fn count_kind(&mut self, kind: u16)
        requires
            kind <= old(self).counts@.len(),
            kind < old(self).counts@.len() ==> old(self).counts@[kind as int] < u64::MAX,
        ensures
            final(self).counts@ == counted(old(self).counts@, kind),
            *final(self) == (Analysis { counts: final(self).counts, ..*old(self) }),
    {
        if (kind as usize) < self.counts.len() {
            let held: u64 = self.counts[kind as usize];
            self.counts[kind as usize] = held + 1;
        } else {
            self.counts.push(1);
        }
    }

    /// Count an event, by its kind, in time and in its file, and say which kind
    /// it is of.
    fn count_event(&mut self, file: usize, event: &Event) -> (kind: u16)
        requires
            old(self).wf(),
            old(self).findings().accepts(*event),
        ensures
            kind == old(self).findings().kind_of(*event),
            final(self).wf(),
            final(self).findings() == (Findings {
                peers: old(self).findings().peers,
                relay: old(self).findings().relay,
                talk: old(self).findings().talk,
                stripped_events: old(self).findings().stripped_events,
                stripped_bytes: old(self).findings().stripped_bytes,
                ..old(self).findings().with_event(file as int, *event)
            }),
            final(self).peers == old(self).peers,
            final(self).store == old(self).store,
            final(self).reading() == old(self).reading(),
    {
        let ghost was = *self;
        let timestamp: u64 = event.timestamp;
        let (group, name) = kind::classify(event);
        let kind: u16 = self.kinds.intern(group, name);
        proof {
            lemma_count_fits(was.findings(), kind);
        }
        self.total_events = self.total_events + 1;
        if file < self.files.len() {
            let counted: u64 = self.files[file].events.saturating_add(1);
            self.files[file].events = counted;
        }
        self.count_kind(kind);
        self.histogram.add(timestamp, kind);
        self.first_timestamp = match self.first_timestamp {
            Some(first) if first <= timestamp => Some(first),
            _ => Some(timestamp),
        };
        self.last_timestamp = match self.last_timestamp {
            Some(last) if last >= timestamp => Some(last),
            _ => Some(timestamp),
        };
        proof {
            histogram::law_a_histogram_is_valid(self.histogram);
            lemma_counted_valid(was.findings(), self.findings(), *event);
        }
        assert(self.findings().files =~= was.findings().with_event(file as int, *event).files);
        kind
    }

    /// Take in one event: count it, attribute it to its peer, and strip it of the
    /// raw data that is not retained.
    ///
    /// What is to be retained of it is then its original encoding if nothing was
    /// dropped, or an encoding of what is left of it; see [`Self::retain`].
    pub fn ingest_event(&mut self, file: usize, event: &mut Event) -> (columns: Columns)
        requires
            old(self).wf(),
            old(self).findings().accepts(*old(event)),
        ensures
            final(self).wf(),
            final(self).findings() == old(self).findings().with_event(file as int, *old(event)),
            final(self).store == old(self).store,
            final(self).reading() == old(self).reading(),
            strip::stripped(*old(event), *final(event)),
            columns == columns_of(
                final(self).peers@,
                *old(event),
                old(self).findings().kind_of(*old(event)),
            ),
    {
        let ghost was = self.findings();
        let ghost whole = *event;
        let timestamp: u64 = event.timestamp;
        let kind: u16 = self.count_event(file, event);
        let (peer, flags, size) = self.attribute_to_peer(event, timestamp, kind);

        // Retain a copy without raw transaction and block data. Those bytes are
        // most of a full-data archive and nothing here reads them, so keeping
        // them would spend the retention budget -- and the browser's memory --
        // on payloads no view displays. Everything above saw the whole event.
        let dropped: usize = strip::strip_raw_payloads(event);
        if dropped > 0 {
            self.stripped_events = self.stripped_events.saturating_add(1);
            self.stripped_bytes = self.stripped_bytes.saturating_add(dropped as u64);
        }
        assert(self.findings() =~= was.with_event(file as int, whole));
        Columns { timestamp, kind, peer, flags, size, dropped }
    }

    /// Update the peer table and return the columns describing this event's peer.
    fn attribute_to_peer(&mut self, event: &Event, timestamp: u64, kind: u16) -> (columns: (
        u32,
        u8,
        u32,
    ))
        requires
            old(self).wf(),
            event_peer(*event) matches Some(id) ==> old(self).peers@.has_room(id),
            timestamp == event.timestamp,
        ensures
            final(self).wf(),
            final(self).findings() == (Findings {
                peers: peers_after(old(self).peers@, *event, kind),
                relay: match strip::message_in(*event) {
                    Some(message) => old(self).relay@.with_message(timestamp, message),
                    None => old(self).relay@,
                },
                talk: match strip::message_in(*event) {
                    Some(message) => old(self).findings().talk.with_message(timestamp, message),
                    None => old(self).findings().talk,
                },
                ..old(self).findings()
            }),
            final(self).store == old(self).store,
            final(self).reading() == old(self).reading(),
            ({
                let described = columns_of(final(self).peers@, *event, kind);
                columns == (described.peer, described.flags, described.size)
            }),
    {
        match &event.peer_observer_event {
            Some(PeerObserverEvent::EbpfExtractor(ebpf)) => self.attribute_ebpf(
                ebpf,
                timestamp,
                kind,
                Ghost(*event),
            ),
            Some(PeerObserverEvent::RpcExtractor(rpc)) => {
                if let Some(RpcEvent::PeerInfos(infos)) = &rpc.rpc_event {
                    self.name_peers(&infos.infos);
                }
                (NO_PEER, 0, 0)
            },
            _ => (NO_PEER, 0, 0),
        }
    }

    /// Note what a snapshot says peers call themselves.
    fn name_peers(&mut self, infos: &Vec<PeerInfo>)
        requires
            old(self).wf(),
        ensures
            final(self).wf(),
            final(self).findings() == (Findings {
                peers: named_all(old(self).peers@, infos@, infos@.len() as int),
                ..old(self).findings()
            }),
            final(self).store == old(self).store,
            final(self).reading() == old(self).reading(),
    {
        let ghost was = *self;
        let mut i: usize = 0;
        while i < infos.len()
            invariant
                i <= infos@.len(),
                self.wf(),
                self.peers@ == named_all(was.peers@, infos@, i as int),
                *self == (Analysis { peers: self.peers, ..was }),
            decreases infos@.len() - i,
        {
            let info = &infos[i];
            self.peers.record_user_agent(
                info.id as u64,
                info.subversion.as_str(),
                UserAgentSource::PeerInfo,
            );
            proof {
                peers::law_a_peer_table_is_valid(self.peers);
            }
            i = i + 1;
        }
        assert(self.findings() =~= (Findings {
            peers: named_all(was.peers@, infos@, infos@.len() as int),
            ..was.findings()
        }));
    }

    fn attribute_ebpf(
        &mut self,
        ebpf: &Ebpf,
        timestamp: u64,
        kind: u16,
        whole: Ghost<Event>,
    ) -> (columns: (u32, u8, u32))
        requires
            old(self).wf(),
            event_peer(whole@) matches Some(id) ==> old(self).peers@.has_room(id),
            timestamp == whole@.timestamp,
            whole@.peer_observer_event == Some(PeerObserverEvent::EbpfExtractor(*ebpf)),
        ensures
            final(self).wf(),
            final(self).findings() == (Findings {
                peers: peers_after(old(self).peers@, whole@, kind),
                relay: match strip::message_in(whole@) {
                    Some(message) => old(self).relay@.with_message(timestamp, message),
                    None => old(self).relay@,
                },
                talk: match strip::message_in(whole@) {
                    Some(message) => old(self).findings().talk.with_message(timestamp, message),
                    None => old(self).findings().talk,
                },
                ..old(self).findings()
            }),
            final(self).store == old(self).store,
            final(self).reading() == old(self).reading(),
            ({
                let described = columns_of(final(self).peers@, whole@, kind);
                columns == (described.peer, described.flags, described.size)
            }),
    {
        let ghost was = *self;
        match &ebpf.ebpf_event {
            Some(EbpfEvent::Message(message)) => {
                self.peers.record_message(timestamp, message, kind);
                self.relay.record(timestamp, message);
                proof {
                    peers::lemma_no_peer_is_lost(
                        was.peers@,
                        timestamp,
                        *message,
                        kind,
                        ConnectionEvent { event: None },
                    );
                    peers::law_a_peer_table_is_valid(self.peers);
                    crate::relay::law_a_relay_table_is_valid(self.relay);
                }
                let ghost mid = *self;
                self.observe_exchange(timestamp, message);
                assert(self.findings() =~= (Findings {
                    peers: peers_after(was.peers@, whole@, kind),
                    relay: was.relay@.with_message(timestamp, *message),
                    talk: was.findings().talk.with_message(timestamp, *message),
                    ..was.findings()
                }));
                let meta = &message.meta;
                let size: u32 = if meta.size > u32::MAX as u64 {
                    u32::MAX
                } else {
                    meta.size as u32
                };
                (self.index_of(meta.peer_id), store::flags::of_message(meta.inbound), size)
            },
            Some(EbpfEvent::Connection(connection)) => {
                self.peers.record_connection(timestamp, connection);
                proof {
                    peers::lemma_no_peer_is_lost(
                        was.peers@,
                        timestamp,
                        arbitrary(),
                        kind,
                        *connection,
                    );
                    peers::law_a_peer_table_is_valid(self.peers);
                }
                assert(self.findings() =~= (Findings {
                    peers: peers_after(was.peers@, whole@, kind),
                    ..was.findings()
                }));
                let index: u32 = match connection_peer_id(connection) {
                    Some(id) => self.index_of(id),
                    None => NO_PEER,
                };
                (index, 0, 0)
            },
            _ => (NO_PEER, 0, 0),
        }
    }

    /// The dense index of a peer, or [`NO_PEER`].
    fn index_of(&self, peer_id: u64) -> (index: u32)
        requires
            self.wf(),
        ensures
            index == (match peers::place(self.peers@.peers, peer_id) {
                Some(at) => at as u32,
                None => NO_PEER,
            }),
    {
        match self.peers.get(peer_id) {
            Some(peer) => {
                proof {
                    let at = peers::place(self.peers@.peers, peer_id)->0;
                    assert(peers::stands_at(self.peers@.peers, peer_id, at));
                    assert(self.peers@.peers[at].index == at);
                }
                peer.index
            },
            None => NO_PEER,
        }
    }

    /// Retain an event that has been taken in, as these bytes.
    pub fn retain(&mut self, columns: &Columns, bytes: &[u8]) -> (kept: bool)
        requires
            old(self).wf(),
            placed(
                columns.retained(bytes@),
                old(self).kinds@.len() as int,
                old(self).peers@.peers.len() as int,
            ),
        ensures
            final(self).wf(),
            final(self).findings() == old(self).findings(),
            final(self).reading() == old(self).reading(),
            store::pushed(
                old(self).store@,
                final(self).store@,
                columns.retained(bytes@),
                kept,
            ),
    {
        self.store.push(
            columns.timestamp,
            columns.kind,
            columns.peer,
            columns.flags,
            columns.size,
            bytes,
        )
    }

    /// Note a record that could not be decoded. One unreadable record must not
    /// abandon the rest of the archive.
    pub fn note_decode_error(&mut self, file: usize)
        requires
            old(self).wf(),
        ensures
            final(self).wf(),
            final(self).findings() == old(self).findings().with_decode_error(file as int),
            final(self).store == old(self).store,
            final(self).reading() == old(self).reading(),
    {
        self.decode_errors = self.decode_errors.saturating_add(1);
        if file < self.files.len() {
            let errors: u64 = self.files[file].decode_errors.saturating_add(1);
            self.files[file].decode_errors = errors;
        }
        assert(self.findings() =~= old(self).findings().with_decode_error(file as int));
    }

    /// Take in a file's header, or note that it could not be decoded.
    pub fn ingest_header(&mut self, file: usize, header: Option<ArchiveHeader>)
        requires
            old(self).wf(),
        ensures
            final(self).wf(),
            final(self).findings() == (match header {
                Some(header) => old(self).findings().with_header(file as int, header),
                None => old(self).findings().with_decode_error(file as int),
            }),
            final(self).store == old(self).store,
            final(self).reading() == old(self).reading(),
    {
        match header {
            Some(header) => {
                if file < self.files.len() {
                    self.files[file].created = Some(header.created);
                    self.files[file].low_data = header.low_data;
                }
                assert(self.findings() =~= old(self).findings().with_header(file as int, header));
            },
            None => self.note_decode_error(file),
        }
    }

    /// Take in one record, given what it turned out to hold.
    ///
    /// An event that lost nothing is retained as the bytes it came in. One that did
    /// is handed back, to be encoded anew.
    pub fn record(&mut self, record: &PendingRecord, decoded: Decoded) -> (left: Option<Stripped>)
        requires
            old(self).wf(),
            decoded matches Decoded::Event(event) ==> old(self).findings().accepts(event),
        ensures
            final(self).wf(),
            final(self).reading() == old(self).reading(),
            final(self).findings() == recorded(
                old(self).findings(),
                record.file as int,
                record.index,
                decoded,
            ),
            match event_in(record.index, decoded) {
                Some(event) => {
                    let columns = columns_of(
                        final(self).peers@,
                        event,
                        old(self).findings().kind_of(event),
                    );
                    match left {
                        None => columns.dropped == 0 && exists|kept: bool| #[trigger]
                            store::pushed(
                                old(self).store@,
                                final(self).store@,
                                columns.retained(record.bytes@),
                                kept,
                            ),
                        Some(left) => {
                            &&& columns.dropped > 0
                            &&& left.columns == columns
                            &&& strip::stripped(event, left.event)
                            &&& final(self).store == old(self).store
                        },
                    }
                },
                None => left is None && final(self).store == old(self).store,
            },
    {
        match decoded {
            Decoded::Header(header) if record.is_header() => {
                self.ingest_header(record.file, Some(header));
                None
            },
            Decoded::Event(event) if !record.is_header() => {
                let mut event = event;
                let columns = self.ingest_event(record.file, &mut event);
                if columns.dropped == 0 {
                    self.retain(&columns, record.bytes.as_slice());
                    None
                } else {
                    Some(Stripped { event, columns })
                }
            },
            _ => {
                self.note_decode_error(record.file);
                None
            },
        }
    }
}

impl PendingRecord {
    /// As it waits.
    pub open spec fn waiting(&self) -> Waiting {
        Waiting::Record(self.file as int, self.index, self.bytes@)
    }
}

/// Whether an event is retained as an encoding of what stripping left of it.
pub open spec fn retained_lighter(
    event: Event,
    left: Event,
    encoding: Seq<u8>,
    set: Seq<u8>,
    before: store::Retention,
    columns: Columns,
    after: store::Retention,
    room: bool,
) -> bool {
    &&& strip::stripped(event, left)
    &&& messages::holds(Decoded::Event(left), set, 1, encoding)
    &&& store::pushed(before, after, columns.retained(encoding), room)
}

/// What the record that has waited longest comes to, given what it holds by a
/// descriptor set.
pub open spec fn took(
    record: Waiting,
    decoded: Decoded,
    set: Seq<u8>,
    before: Findings,
    store: store::Retention,
    step: Step,
    after: Findings,
    kept: store::Retention,
) -> bool {
    match record {
        Waiting::Record(file, index, bytes) => match event_in(index, decoded) {
            Some(event) => {
                let columns = columns_of(after.peers, event, before.kind_of(event));
                if !before.accepts(event) {
                    &&& step matches Step::Refused(left)
                    &&& left.waiting() == record
                    &&& after == before
                    &&& kept == store
                } else if columns.dropped == 0 {
                    &&& step is Done
                    &&& after == recorded(before, file, index, decoded)
                    &&& exists|room: bool| #[trigger]
                        store::pushed(store, kept, columns.retained(bytes), room)
                } else {
                    &&& step is Done
                    &&& after == recorded(before, file, index, decoded)
                    &&& exists|left: Event, encoding: Seq<u8>, room: bool| #[trigger]
                        retained_lighter(event, left, encoding, set, store, columns, kept, room)
                }
            },
            None => {
                &&& step is Done
                &&& after == recorded(before, file, index, decoded)
                &&& kept == store
            },
        },
        Waiting::EndOfFile => false,
    }
}

impl Analysis {
    /// Take in the record that has waited longest: decode it, count what it holds,
    /// and retain it.
    pub fn take_in(&mut self, messages: &Messages) -> (step: Step)
        requires
            old(self).wf(),
            messages.wf(),
        ensures
            final(self).wf(),
            ({
                let (findings, first, rest) = taken(
                    old(self).findings(),
                    old(self).reading().queue,
                );
                &&& final(self).reading() == (Reading { queue: rest, ..old(self).reading() })
                &&& match first {
                    Some(record) => exists|decoded: Decoded|
                        {
                            &&& #[trigger] held_in(record, decoded, messages.source())
                            &&& took(
                                record,
                                decoded,
                                messages.source(),
                                findings,
                                old(self).store@,
                                step,
                                final(self).findings(),
                                final(self).store@,
                            )
                        },
                    None => {
                        &&& step is Idle
                        &&& final(self).findings() == findings
                        &&& final(self).store == old(self).store
                    },
                }
            }),
    {
        let record = match self.next_record() {
            Some(record) => record,
            None => {
                return Step::Idle;
            },
        };
        let decoded = messages.decode(record.index, record.bytes.as_slice());
        let ghost holds = decoded;
        assert(held_in(record.waiting(), holds, messages.source()));
        if let Decoded::Event(event) = &decoded {
            if !self.accepts(event) {
                return Step::Refused(record);
            }
        }
        match self.record(&record, decoded) {
            None => {},
            Some(left) => {
                assert(messages::holds(holds, messages.source(), 1, record.bytes@));
                assert(strip::stripped(holds->Event_0, left.event));
                let kept = encode_stripped(messages, record.bytes.as_slice(), &left.event);
                let ghost was = self.store@;
                let room = self.retain(&left.columns, kept.as_slice());
                assert(retained_lighter(
                    holds->Event_0,
                    left.event,
                    kept@,
                    messages.source(),
                    was,
                    left.columns,
                    self.store@,
                    room,
                ));
            },
        }
        Step::Done
    }
}

/// Whether a waiting record held this, and taking it in came to that.
pub open spec fn taken_as(
    record: Waiting,
    decoded: Decoded,
    set: Seq<u8>,
    before: Findings,
    store: store::Retention,
    step: Step,
    after: Findings,
    kept: store::Retention,
) -> bool {
    &&& held_in(record, decoded, set)
    &&& took(record, decoded, set, before, store, step, after, kept)
}

/// What taking in all that waits comes to, one after the other, until nothing does. A
/// record that is refused stays where it is, and so does everything behind it.
pub open spec fn drained(
    findings: Findings,
    queue: Seq<Waiting>,
    store: store::Retention,
    set: Seq<u8>,
    findings_after: Findings,
    queue_after: Seq<Waiting>,
    store_after: store::Retention,
) -> bool
    decreases queue.len(),
{
    let (settled, first, rest) = taken(findings, queue);
    match first {
        None => findings_after == settled && queue_after == rest && store_after == store,
        Some(record) => exists|
            decoded: Decoded,
            step: Step,
            after: Findings,
            kept: store::Retention,
        |
            {
                &&& #[trigger] taken_as(record, decoded, set, settled, store, step, after, kept)
                &&& if step is Refused {
                    &&& findings_after == after
                    &&& queue_after == seq![record] + rest
                    &&& store_after == kept
                } else {
                    &&& rest.len() < queue.len()
                    &&& drained(after, rest, kept, set, findings_after, queue_after, store_after)
                }
            },
    }
}

proof fn lemma_taken(findings: Findings, queue: Seq<Waiting>)
    ensures
        ({
            let (_, first, rest) = taken(findings, queue);
            &&& first is Some ==> rest.len() < queue.len()
            &&& first is None ==> rest.len() == 0
        }),
    decreases queue.len(),
{
    if queue.len() > 0 && queue[0] is EndOfFile {
        lemma_taken(findings.settled(), queue.skip(1));
    }
}

/// Whether a record holds an event that cannot be taken in.
pub open spec fn refused(record: Waiting, decoded: Decoded, set: Seq<u8>, findings: Findings) -> bool {
    &&& held_in(record, decoded, set)
    &&& record matches Waiting::Record(_, index, _) && (event_in(index, decoded) matches Some(event)
        && !findings.accepts(event))
}

/// Once all that waits has been taken in, nothing waits any more, unless it is behind a
/// record that is refused.
pub proof fn law_nothing_waits_but_behind_a_refusal(
    findings: Findings,
    queue: Seq<Waiting>,
    store: store::Retention,
    set: Seq<u8>,
    findings_after: Findings,
    queue_after: Seq<Waiting>,
    store_after: store::Retention,
)
    requires
        drained(findings, queue, store, set, findings_after, queue_after, store_after),
    ensures
        queue_after.len() == 0 || exists|decoded: Decoded| #[trigger]
            refused(queue_after[0], decoded, set, findings_after),
    decreases queue.len(),
{
    let (settled, first, rest) = taken(findings, queue);
    lemma_taken(findings, queue);
    if let Some(record) = first {
        let (decoded, step, after, kept) = choose|
            decoded: Decoded,
            step: Step,
            after: Findings,
            kept: store::Retention,
        |
            {
                &&& #[trigger] taken_as(record, decoded, set, settled, store, step, after, kept)
                &&& if step is Refused {
                    &&& findings_after == after
                    &&& queue_after == seq![record] + rest
                    &&& store_after == kept
                } else {
                    &&& rest.len() < queue.len()
                    &&& drained(after, rest, kept, set, findings_after, queue_after, store_after)
                }
            };
        if step is Refused {
            assert(queue_after[0] == record);
            assert(refused(queue_after[0], decoded, set, findings_after));
        } else {
            law_nothing_waits_but_behind_a_refusal(
                after,
                rest,
                kept,
                set,
                findings_after,
                queue_after,
                store_after,
            );
        }
    }
}

/// Taking in one record, and then all that waits behind it, is taking in all.
proof fn lemma_one_then_the_rest(
    findings: Findings,
    queue: Seq<Waiting>,
    store: store::Retention,
    set: Seq<u8>,
    decoded: Decoded,
    after: Findings,
    kept: store::Retention,
    findings_after: Findings,
    queue_after: Seq<Waiting>,
    store_after: store::Retention,
)
    requires
        ({
            let (settled, first, rest) = taken(findings, queue);
            &&& first matches Some(record) && taken_as(
                record,
                decoded,
                set,
                settled,
                store,
                Step::Done,
                after,
                kept,
            )
            &&& drained(after, rest, kept, set, findings_after, queue_after, store_after)
        }),
    ensures
        drained(findings, queue, store, set, findings_after, queue_after, store_after),
{
    lemma_taken(findings, queue);
}

/// Whether this is what a waiting record holds, by a descriptor set.
pub open spec fn held_in(record: Waiting, decoded: Decoded, set: Seq<u8>) -> bool {
    match record {
        Waiting::Record(_, index, bytes) => messages::holds(decoded, set, index, bytes),
        Waiting::EndOfFile => false,
    }
}

/// The event a record holds, if it is to hold one and does.
pub open spec fn event_in(index: u64, decoded: Decoded) -> Option<Event> {
    match decoded {
        Decoded::Event(event) if index != 0 => Some(event),
        _ => None,
    }
}

/// The findings once a record has been taken in: a file's first is its header, and
/// what does not hold what it should is an error of the file.
pub open spec fn recorded(
    findings: Findings,
    file: int,
    index: u64,
    decoded: Decoded,
) -> Findings {
    match decoded {
        Decoded::Header(header) if index == 0 => findings.with_header(file, header),
        Decoded::Event(event) if index != 0 => findings.with_event(file, event),
        _ => findings.with_decode_error(file),
    }
}

/// The findings with the last file's record replaced.
pub open spec fn with_last_file(findings: Findings, file: FileRecord) -> Findings {
    Findings { files: findings.files.update(findings.files.len() - 1, file), ..findings }
}

/// A file once its decoder has been pumped.
pub open spec fn read_on(
    file: FileRecord,
    after: DecoderState,
    result: Result<(), DecodeError>,
) -> FileRecord {
    match result {
        Ok(_) => file.progressed(after),
        Err(error) => file.progressed(after).failed(error),
    }
}

/// A file once its decoder has been finished.
pub open spec fn wound_up(
    file: FileRecord,
    after: DecoderState,
    result: Result<Completion, DecodeError>,
) -> FileRecord {
    match result {
        Ok(completion) => file.progressed(after).completed(completion),
        Err(error) => file.progressed(after).failed(error),
    }
}

/// What feeding a chunk to the file that is open comes to: its decoder is pumped,
/// the records that turn up wait behind the others, and the file says how far it
/// has got. A stream that cannot be read on cannot be resynchronised either, so
/// its file is closed with the error.
pub open spec fn fed(
    findings: Findings,
    reading: Reading,
    chunk: Seq<u8>,
    result: Result<(), DecodeError>,
    findings_after: Findings,
    reading_after: Reading,
) -> bool {
    match reading.decoder {
        None => result is Ok && findings_after == findings && reading_after == reading,
        Some(before) => exists|after: DecoderState, seen: Seq<(u64, Seq<u8>)>|
            {
                &&& #[trigger] decode::pumped(
                    before.with_chunk(chunk),
                    after,
                    false,
                    Seq::empty(),
                    seen,
                    result,
                )
                &&& findings_after == with_last_file(
                    findings,
                    read_on(findings.files.last(), after, result),
                )
                &&& reading_after == (Reading {
                    decoder: match result {
                        Ok(_) => Some(after),
                        Err(_) => None,
                    },
                    queue: reading.queue + waiting_from(findings.files.len() - 1, seen),
                })
            },
    }
}

/// What finishing the file that is open comes to: its decoder is finished, the
/// last records wait behind the others with the end of the file behind them, and
/// the file says how it ended.
pub open spec fn ended(
    findings: Findings,
    reading: Reading,
    completion: Option<Completion>,
    findings_after: Findings,
    reading_after: Reading,
) -> bool {
    match reading.decoder {
        None => completion is None && findings_after == findings && reading_after == reading,
        Some(before) => exists|
            after: DecoderState,
            seen: Seq<(u64, Seq<u8>)>,
            result: Result<Completion, DecodeError>,
        |
            {
                &&& #[trigger] decode::finished(before, after, Seq::empty(), seen, result)
                &&& completion == (match result {
                    Ok(completion) => Some(completion),
                    Err(_) => None,
                })
                &&& findings_after == with_last_file(
                    findings,
                    wound_up(findings.files.last(), after, result),
                )
                &&& reading_after == (Reading {
                    decoder: None,
                    queue: (reading.queue + waiting_from(findings.files.len() - 1, seen)).push(
                        Waiting::EndOfFile,
                    ),
                })
            },
    }
}

/// What the extension of a file's name suggests.
pub open spec fn suggested(name: Seq<char>) -> Option<Compression> {
    if text::has_suffix(name, ".zst"@) {
        Some(Compression::Zstd)
    } else {
        None
    }
}

/// What is first in a queue once the ends of files in front of it have been dealt
/// with: the findings by then, what is first, and what is behind it.
pub open spec fn taken(findings: Findings, queue: Seq<Waiting>) -> (
    Findings,
    Option<Waiting>,
    Seq<Waiting>,
)
    decreases queue.len(),
{
    if queue.len() == 0 {
        (findings, None, queue)
    } else {
        match queue[0] {
            Waiting::Record(..) => (findings, Some(queue[0]), queue.skip(1)),
            Waiting::EndOfFile => taken(findings.settled(), queue.skip(1)),
        }
    }
}

/// What finishing the file that is open comes to, once its last records have been taken
/// in.
pub open spec fn finished_file(
    findings: Findings,
    reading: Reading,
    store: store::Retention,
    set: Seq<u8>,
    completion: Option<Completion>,
    findings_after: Findings,
    reading_after: Reading,
    store_after: store::Retention,
) -> bool {
    exists|closed: Findings, left: Reading|
        {
            &&& #[trigger] ended(findings, reading, completion, closed, left)
            &&& drained(
                closed,
                left.queue,
                store,
                set,
                findings_after,
                reading_after.queue,
                store_after,
            )
            &&& reading_after.decoder == left.decoder
        }
}

impl Analysis {
    /// Take in every record that waits. One for which there is no id left, or which cannot
    /// be counted, goes on waiting.
    pub fn take_in_all(&mut self, messages: &Messages)
        requires
            old(self).wf(),
            messages.wf(),
        ensures
            final(self).wf(),
            final(self).reading().decoder == old(self).reading().decoder,
            drained(
                old(self).findings(),
                old(self).reading().queue,
                old(self).store@,
                messages.source(),
                final(self).findings(),
                final(self).reading().queue,
                final(self).store@,
            ),
    {
        let ghost set = messages.source();
        loop
            invariant
                self.wf(),
                messages.wf(),
                set == messages.source(),
                self.reading().decoder == old(self).reading().decoder,
                forall|f: Findings, q: Seq<Waiting>, r: store::Retention| #[trigger]
                    drained(self.findings(), self.reading().queue, self.store@, set, f, q, r)
                        ==> drained(
                        old(self).findings(),
                        old(self).reading().queue,
                        old(self).store@,
                        set,
                        f,
                        q,
                        r,
                    ),
            decreases self.reading().queue.len(),
        {
            let ghost was = *self;
            let ghost (settled, first, rest) = taken(was.findings(), was.reading().queue);
            proof {
                lemma_taken(was.findings(), was.reading().queue);
            }
            match self.take_in(messages) {
                Step::Idle => {
                    proof {
                        assert(first is None);
                        assert(drained(
                            was.findings(),
                            was.reading().queue,
                            was.store@,
                            set,
                            self.findings(),
                            self.reading().queue,
                            self.store@,
                        ));
                    }
                    return ;
                },
                Step::Done => {
                    proof {
                        let record = first->0;
                        let decoded = choose|decoded: Decoded|
                            {
                                &&& #[trigger] held_in(record, decoded, set)
                                &&& took(
                                    record,
                                    decoded,
                                    set,
                                    settled,
                                    was.store@,
                                    Step::Done,
                                    self.findings(),
                                    self.store@,
                                )
                            };
                        assert(taken_as(
                            record,
                            decoded,
                            set,
                            settled,
                            was.store@,
                            Step::Done,
                            self.findings(),
                            self.store@,
                        ));
                        assert forall|f: Findings, q: Seq<Waiting>, r: store::Retention| #[trigger]
                            drained(
                                self.findings(),
                                self.reading().queue,
                                self.store@,
                                set,
                                f,
                                q,
                                r,
                            ) implies drained(
                            old(self).findings(),
                            old(self).reading().queue,
                            old(self).store@,
                            set,
                            f,
                            q,
                            r,
                        ) by {
                            lemma_one_then_the_rest(
                                was.findings(),
                                was.reading().queue,
                                was.store@,
                                set,
                                decoded,
                                self.findings(),
                                self.store@,
                                f,
                                q,
                                r,
                            );
                        }
                    }
                },
                Step::Refused(record) => {
                    let ghost step = Step::Refused(record);
                    let ghost mid = *self;
                    self.machinery.queue.push_front(Queued::Record(record));
                    proof {
                        let waiting = first->0;
                        let decoded = choose|decoded: Decoded|
                            {
                                &&& #[trigger] held_in(waiting, decoded, set)
                                &&& took(
                                    waiting,
                                    decoded,
                                    set,
                                    settled,
                                    was.store@,
                                    step,
                                    mid.findings(),
                                    mid.store@,
                                )
                            };
                        assert(taken_as(
                            waiting,
                            decoded,
                            set,
                            settled,
                            was.store@,
                            step,
                            mid.findings(),
                            mid.store@,
                        ));
                        assert(self.findings() == mid.findings());
                        assert(self.reading().queue =~= seq![waiting] + rest);
                        assert(drained(
                            was.findings(),
                            was.reading().queue,
                            was.store@,
                            set,
                            self.findings(),
                            self.reading().queue,
                            self.store@,
                        ));
                    }
                    return ;
                },
            }
        }
    }

    /// Whether a record waits to be taken in, or the end of a file to be dealt with.
    pub fn is_waiting(&self) -> (waiting: bool)
        ensures
            waiting == (self.reading().queue.len() > 0),
    {
        self.machinery.queue.len() > 0
    }

    /// Start a new file. Any file already open is finished first.
    pub fn begin_file(&mut self, messages: &Messages, name: String, declared_bytes: u64)
        requires
            old(self).wf(),
            messages.wf(),
        ensures
            final(self).wf(),
            exists|completion: Option<Completion>, findings: Findings, reading: Reading|
                {
                    &&& #[trigger] finished_file(
                        old(self).findings(),
                        old(self).reading(),
                        old(self).store@,
                        messages.source(),
                        completion,
                        findings,
                        reading,
                        final(self).store@,
                    )
                    &&& final(self).findings() == (Findings {
                        files: findings.files.push(FileRecord::fresh(name@, declared_bytes)),
                        ..findings
                    })
                    &&& final(self).reading() == (Reading {
                        decoder: Some(DecoderState::initial(suggested(name@))),
                        ..reading
                    })
                },
    {
        let completion = self.end_file(messages);
        let ghost mid = *self;
        self.open_file(name, declared_bytes);
        assert(finished_file(
            old(self).findings(),
            old(self).reading(),
            old(self).store@,
            messages.source(),
            completion,
            mid.findings(),
            mid.reading(),
            self.store@,
        ));
    }

    /// Feed the next chunk of the current file, and take in what is in it.
    pub fn push(&mut self, messages: &Messages, chunk: &[u8]) -> (result: Result<(), DecodeError>)
        requires
            old(self).wf(),
            messages.wf(),
        ensures
            final(self).wf(),
            exists|findings: Findings, reading: Reading|
                {
                    &&& #[trigger] fed(
                        old(self).findings(),
                        old(self).reading(),
                        chunk@,
                        result,
                        findings,
                        reading,
                    )
                    &&& drained(
                        findings,
                        reading.queue,
                        old(self).store@,
                        messages.source(),
                        final(self).findings(),
                        final(self).reading().queue,
                        final(self).store@,
                    )
                    &&& final(self).reading().decoder == reading.decoder
                },
    {
        let result = self.feed(chunk);
        let ghost mid = *self;
        self.take_in_all(messages);
        assert(fed(
            old(self).findings(),
            old(self).reading(),
            chunk@,
            result,
            mid.findings(),
            mid.reading(),
        ));
        result
    }

    /// Finish the current file, take in the last of it, and report how its stream ended.
    pub fn end_file(&mut self, messages: &Messages) -> (completion: Option<Completion>)
        requires
            old(self).wf(),
            messages.wf(),
        ensures
            final(self).wf(),
            final(self).reading().decoder is None,
            finished_file(
                old(self).findings(),
                old(self).reading(),
                old(self).store@,
                messages.source(),
                completion,
                final(self).findings(),
                final(self).reading(),
                final(self).store@,
            ),
    {
        let completion = self.close_file();
        let ghost mid = *self;
        self.take_in_all(messages);
        assert(ended(
            old(self).findings(),
            old(self).reading(),
            completion,
            mid.findings(),
            mid.reading(),
        ));
        completion
    }

    /// Start a new file. Any file already open is closed first.
    pub fn open_file(&mut self, name: String, declared_bytes: u64)
        requires
            old(self).wf(),
        ensures
            final(self).wf(),
            final(self).store == old(self).store,
            exists|completion: Option<Completion>, findings: Findings, reading: Reading|
                {
                    &&& #[trigger] ended(
                        old(self).findings(),
                        old(self).reading(),
                        completion,
                        findings,
                        reading,
                    )
                    &&& final(self).findings() == (Findings {
                        files: findings.files.push(FileRecord::fresh(name@, declared_bytes)),
                        ..findings
                    })
                    &&& final(self).reading() == (Reading {
                        decoder: Some(DecoderState::initial(suggested(name@))),
                        ..reading
                    })
                },
    {
        let completion = self.close_file();
        let ghost mid = *self;
        let hint: Option<Compression> = if text::ends_with(name.as_str(), ".zst") {
            Some(Compression::Zstd)
        } else {
            None
        };
        self.files.push(
            FileSummary {
                name,
                declared_bytes,
                compressed_bytes: 0,
                decompressed_bytes: 0,
                created: None,
                low_data: None,
                events: 0,
                decode_errors: 0,
                compression: None,
                truncated: false,
                incomplete_frame: false,
                trailing_bytes: 0,
                error: None,
            },
        );
        self.machinery.decoder = Some(RecordDecoder::new(hint));
        proof {
            let fresh = FileRecord::fresh(name@, declared_bytes);
            assert(self.findings().files =~= mid.findings().files.push(fresh));
            assert(ended(
                old(self).findings(),
                old(self).reading(),
                completion,
                mid.findings(),
                mid.reading(),
            ));
            assert(self.reading() =~= (Reading {
                decoder: Some(DecoderState::initial(suggested(name@))),
                ..mid.reading()
            }));
        }
    }

    /// Feed the next chunk of the current file. The records in it wait to be taken in.
    pub fn feed(&mut self, chunk: &[u8]) -> (result: Result<(), DecodeError>)
        requires
            old(self).wf(),
        ensures
            final(self).wf(),
            final(self).store == old(self).store,
            fed(
                old(self).findings(),
                old(self).reading(),
                chunk@,
                result,
                final(self).findings(),
                final(self).reading(),
            ),
    {
        let mut decoder = match self.machinery.decoder.take() {
            Some(decoder) => decoder,
            None => {
                return Ok(());
            },
        };
        let file: usize = self.files.len() - 1;
        let mut sink = Arrivals { records: VecDeque::new() };
        let ghost start = sink.seen();
        assert(start =~= Seq::empty());
        let result = decoder.push(chunk, &mut sink);
        let ghost after = decoder@;
        self.record_progress(&decoder, file);
        let ghost seen = sink.seen();
        self.line_up(file, sink);
        match &result {
            Ok(_) => {
                self.machinery.decoder = Some(decoder);
            },
            Err(error) => {
                self.fail_file(error, file);
            },
        }
        proof {
            let queue = old(self).reading().queue + waiting_from(file as int, seen);
            assert(self.reading().queue =~= queue);
            let was = old(self).findings();
            let now = read_on(was.files.last(), after, result);
            assert(self.findings().files =~= with_last_file(was, now).files);
            assert(self.findings() =~= with_last_file(was, now));
        }
        result
    }

    /// Close the current file and report how its stream ended. Its last records wait to
    /// be taken in.
    pub fn close_file(&mut self) -> (completion: Option<Completion>)
        requires
            old(self).wf(),
        ensures
            final(self).wf(),
            final(self).store == old(self).store,
            final(self).reading().decoder is None,
            ended(
                old(self).findings(),
                old(self).reading(),
                completion,
                final(self).findings(),
                final(self).reading(),
            ),
    {
        let mut decoder = match self.machinery.decoder.take() {
            Some(decoder) => decoder,
            None => {
                return None;
            },
        };
        let file: usize = self.files.len() - 1;
        let mut sink = Arrivals { records: VecDeque::new() };
        let ghost start = sink.seen();
        assert(start =~= Seq::empty());
        let result = decoder.finish(&mut sink);
        let ghost after = decoder@;
        self.record_progress(&decoder, file);
        let ghost seen = sink.seen();
        self.line_up(file, sink);
        self.machinery.queue.push_back(Queued::EndOfFile);
        let completion: Option<Completion> = match &result {
            Ok(completion) => {
                self.complete_file(completion, file);
                Some(*completion)
            },
            Err(error) => {
                self.fail_file(error, file);
                None
            },
        };
        proof {
            let queue = (old(self).reading().queue + waiting_from(file as int, seen)).push(
                Waiting::EndOfFile,
            );
            assert(self.reading().queue =~= queue);
            let was = old(self).findings();
            let now = wound_up(was.files.last(), after, result);
            assert(self.findings().files =~= with_last_file(was, now).files);
            assert(self.findings() =~= with_last_file(was, now));
        }
        completion
    }

    /// Put the records of a file behind those that wait.
    fn line_up(&mut self, file: usize, sink: Arrivals)
        ensures
            *final(self) == (Analysis { machinery: final(self).machinery, ..*old(self) }),
            final(self).machinery == (Machinery {
                queue: final(self).machinery.queue,
                ..old(self).machinery
            }),
            final(self).reading().queue == old(self).reading().queue + waiting_from(
                file as int,
                sink.seen(),
            ),
    {
        let mut records = sink.records;
        let ghost all = records@;
        let ghost mut done: int = 0;
        assert(waiting_from(file as int, as_seen(all.take(0))) =~= Seq::empty());
        assert(self.reading().queue =~= old(self).reading().queue + waiting_from(
            file as int,
            as_seen(all.take(0)),
        ));
        while records.len() > 0
            invariant
                0 <= done <= all.len(),
                records@ == all.skip(done),
                *self == (Analysis { machinery: self.machinery, ..*old(self) }),
                self.machinery == (Machinery {
                    queue: self.machinery.queue,
                    ..old(self).machinery
                }),
                self.reading().queue == old(self).reading().queue + waiting_from(
                    file as int,
                    as_seen(all.take(done)),
                ),
            decreases records@.len(),
        {
            let ghost was = *self;
            if let Some((index, bytes)) = records.pop_front() {
                assert((index, bytes) == all[done]);
                self.machinery.queue.push_back(
                    Queued::Record(PendingRecord { file, index, bytes }),
                );
                assert(records@ =~= all.skip(done + 1));
                assert(self.reading().queue =~= was.reading().queue.push(
                    Waiting::Record(file as int, index, bytes@),
                ));
                assert(self.reading().queue =~= old(self).reading().queue + waiting_from(
                    file as int,
                    as_seen(all.take(done + 1)),
                ));
                proof {
                    done = done + 1;
                }
            }
        }
        assert(all.take(done) =~= all);
    }

    /// Note how far a file's decoder has got.
    fn record_progress(&mut self, decoder: &RecordDecoder, file: usize)
        requires
            decoder.wf(),
            file < old(self).files@.len(),
        ensures
            *final(self) == (Analysis { files: final(self).files, ..*old(self) }),
            final(self).files@.len() == old(self).files@.len(),
            file_records(final(self).files@) == file_records(old(self).files@).update(
                file as int,
                file_records(old(self).files@)[file as int].progressed(decoder@),
            ),
    {
        self.files[file].compressed_bytes = decoder.compressed_bytes();
        self.files[file].decompressed_bytes = decoder.decompressed_bytes();
        self.files[file].compression = match decoder.compression() {
            Some(Compression::Zstd) => Some("zstd"),
            Some(Compression::Uncompressed) => Some("none"),
            None => None,
        };
        assert(file_records(self.files@) =~= file_records(old(self).files@).update(
            file as int,
            file_records(old(self).files@)[file as int].progressed(decoder@),
        ));
    }

    /// Note how a file ended.
    fn complete_file(&mut self, completion: &Completion, file: usize)
        requires
            file < old(self).files@.len(),
        ensures
            *final(self) == (Analysis { files: final(self).files, ..*old(self) }),
            final(self).files@.len() == old(self).files@.len(),
            file_records(final(self).files@) == file_records(old(self).files@).update(
                file as int,
                file_records(old(self).files@)[file as int].completed(*completion),
            ),
    {
        self.files[file].truncated = completion.truncated;
        self.files[file].incomplete_frame = completion.incomplete_frame;
        self.files[file].trailing_bytes = completion.trailing_bytes;
        assert(file_records(self.files@) =~= file_records(old(self).files@).update(
            file as int,
            file_records(old(self).files@)[file as int].completed(*completion),
        ));
    }

    /// Note why a file cannot be read on.
    fn fail_file(&mut self, error: &DecodeError, file: usize)
        requires
            file < old(self).files@.len(),
        ensures
            *final(self) == (Analysis { files: final(self).files, ..*old(self) }),
            final(self).files@.len() == old(self).files@.len(),
            file_records(final(self).files@) == file_records(old(self).files@).update(
                file as int,
                file_records(old(self).files@)[file as int].failed(*error),
            ),
    {
        self.files[file].error = Some(error.message());
        assert(file_records(self.files@) =~= file_records(old(self).files@).update(
            file as int,
            file_records(old(self).files@)[file as int].failed(*error),
        ));
    }

    /// Take the record that has waited longest. A file's requests are settled once
    /// the last of its records has been taken and the next one is asked for.
    pub fn next_record(&mut self) -> (record: Option<PendingRecord>)
        requires
            old(self).wf(),
        ensures
            final(self).wf(),
            final(self).store == old(self).store,
            ({
                let (findings, first, rest) = taken(
                    old(self).findings(),
                    old(self).reading().queue,
                );
                &&& final(self).findings() == findings
                &&& final(self).reading() == (Reading { queue: rest, ..old(self).reading() })
                &&& first == (match record {
                    Some(record) => Some(
                        Waiting::Record(record.file as int, record.index, record.bytes@),
                    ),
                    None => None,
                })
            }),
    {
        let ghost target = taken(self.findings(), self.reading().queue);
        loop
            invariant
                self.wf(),
                self.store == old(self).store,
                self.reading().decoder == old(self).reading().decoder,
                target == taken(self.findings(), self.reading().queue),
                target == taken(old(self).findings(), old(self).reading().queue),
            decreases self.machinery.queue@.len(),
        {
            let ghost was = *self;
            match self.machinery.queue.pop_front() {
                None => {
                    return None;
                },
                Some(Queued::Record(record)) => {
                    assert(self.reading().queue =~= was.reading().queue.skip(1));
                    assert(was.reading().queue[0] == was.machinery.queue@[0]@);
                    return Some(record);
                },
                Some(Queued::EndOfFile) => {
                    assert(self.reading().queue =~= was.reading().queue.skip(1));
                    assert(was.reading().queue[0] == was.machinery.queue@[0]@);
                    assert(self.findings() == was.findings());
                    self.settle();
                },
            }
        }
    }

    /// Retire the requests that have waited past their window by the latest
    /// timestamp.
    fn settle(&mut self)
        requires
            old(self).wf(),
        ensures
            final(self).wf(),
            final(self).findings() == old(self).findings().settled(),
            final(self).store == old(self).store,
            final(self).reading() == old(self).reading(),
            final(self).machinery.queue == old(self).machinery.queue,
    {
        let ghost was = self.findings();
        if let Some(last) = self.last_timestamp {
            sweep_exchanges(&mut self.exchanges, &mut self.machinery.exchange_tracker, last);
            assert(self.findings().talk =~= was.talk.swept(last));
        }
        proof {
            exchange::lemma_tracker_is_well_keyed(self.machinery.exchange_tracker);
        }
        assert(self.findings() =~= was.settled());
    }
}

/// A kind is counted no more often than there are events.
proof fn lemma_of_kind(events: Seq<(u64, u16)>, kind: int)
    ensures
        histogram::of_kind(events, kind) <= events.len(),
    decreases events.len(),
{
    if events.len() > 0 {
        lemma_of_kind(events.drop_last(), kind);
    }
}

/// A kind that is no event's is not counted.
proof fn lemma_none_of_kind(events: Seq<(u64, u16)>, kind: int)
    requires
        forall|i: int| 0 <= i < events.len() ==> (#[trigger] events[i]).1 != kind,
    ensures
        histogram::of_kind(events, kind) == 0,
    decreases events.len(),
{
    if events.len() > 0 {
        lemma_none_of_kind(events.drop_last(), kind);
    }
}

proof fn lemma_count_fits(findings: Findings, kind: u16)
    requires
        findings.valid(),
        findings.total_events < u64::MAX,
    ensures
        kind < findings.counts.len() ==> findings.counts[kind as int] < u64::MAX,
{
    lemma_of_kind(findings.timeline.events, kind as int);
}

/// Counting an event keeps the counts in step with the timeline.
proof fn lemma_counted_valid(before: Findings, after: Findings, event: Event)
    requires
        before.valid(),
        before.accepts(event),
        after.kinds == kind::interned(before.kinds, kind::classified(event)),
        after.counts == counted(before.counts, before.kind_of(event)),
        after.timeline == before.timeline.with(event.timestamp, before.kind_of(event)),
        after.total_events == before.total_events + 1,
        after.timeline.valid(),
        after.peers == before.peers,
        after.relay == before.relay,
        after.talk == before.talk,
    ensures
        after.valid(),
{
    let kind = before.kind_of(event);
    kind::law_interning_is_stable_and_dense(
        before.kinds,
        kind::classified(event),
        kind::classified(event),
    );
    let events = before.timeline.events;
    let more = after.timeline.events;
    assert(more.drop_last() =~= events);
    assert forall|k: int| 0 <= k < after.counts.len() implies #[trigger] after.counts[k]
        == histogram::of_kind(more, k) by {
        if k < before.counts.len() {
            assert(before.counts[k] == histogram::of_kind(events, k));
            lemma_of_kind(events, k);
        } else {
            lemma_none_of_kind(events, k);
        }
    }
}

/// What some counts come to.
pub open spec fn sum_of(counts: Seq<u64>) -> nat
    decreases counts.len(),
{
    if counts.len() == 0 {
        0
    } else {
        sum_of(counts.drop_last()) + counts.last() as nat
    }
}

proof fn lemma_sum(counts: Seq<u64>, events: Seq<(u64, u16)>)
    requires
        forall|k: int|
            0 <= k < counts.len() ==> #[trigger] counts[k] == histogram::of_kind(events, k),
    ensures
        sum_of(counts) == histogram::kinds_total(events, counts.len() as int),
    decreases counts.len(),
{
    if counts.len() > 0 {
        let rest = counts.drop_last();
        assert forall|k: int| 0 <= k < rest.len() implies #[trigger] rest[k] == histogram::of_kind(
            events,
            k,
        ) by {
            assert(rest[k] == counts[k]);
        }
        assert(counts[counts.len() - 1] == histogram::of_kind(events, counts.len() - 1));
        lemma_sum(rest, events);
    }
}

/// Every event is counted, and counted once: the counts of all kinds add up to
/// the number of events, whatever was retained of them.
pub proof fn law_every_event_is_counted_once(findings: Findings)
    requires
        findings.valid(),
    ensures
        sum_of(findings.counts) == findings.total_events,
{
    lemma_sum(findings.counts, findings.timeline.events);
    assert forall|i: int| 0 <= i < findings.timeline.events.len() implies (
    #[trigger] findings.timeline.events[i]).1 < findings.counts.len() by {
    }
    histogram::law_the_kinds_add_up(findings.timeline.events, findings.counts.len() as int);
}

/// A record, by its file and its place in it, and what it turned out to hold.
pub struct Taken {
    pub file: int,
    pub index: u64,
    pub decoded: Decoded,
}

/// The findings once records have been taken in.
pub open spec fn after_records(findings: Findings, records: Seq<Taken>) -> Findings
    decreases records.len(),
{
    if records.len() == 0 {
        findings
    } else {
        let last = records.last();
        recorded(
            after_records(findings, records.drop_last()),
            last.file,
            last.index,
            last.decoded,
        )
    }
}

/// Whether each of the records can be taken in when its turn comes.
pub open spec fn all_accepted(findings: Findings, records: Seq<Taken>) -> bool
    decreases records.len(),
{
    if records.len() == 0 {
        true
    } else {
        let last = records.last();
        let before = after_records(findings, records.drop_last());
        &&& all_accepted(findings, records.drop_last())
        &&& last.decoded matches Decoded::Event(event) ==> before.accepts(event)
    }
}

/// The times of the events among records.
pub open spec fn times_among(records: Seq<Taken>) -> Seq<u64>
    decreases records.len(),
{
    if records.len() == 0 {
        Seq::empty()
    } else {
        let last = records.last();
        let before = times_among(records.drop_last());
        match event_in(last.index, last.decoded) {
            Some(event) => before.push(event.timestamp),
            None => before,
        }
    }
}

/// Aggregates cover every event, whatever is retained: taking records in counts
/// each event among them and puts it on the timeline at its time, and no more than
/// those. What there is room for in the store does not come into it.
pub proof fn law_aggregates_cover_every_event(findings: Findings, records: Seq<Taken>)
    requires
        all_accepted(findings, records),
    ensures
        ({
            let after = after_records(findings, records);
            &&& after.total_events == findings.total_events + times_among(records).len()
            &&& after.timeline.events.map_values(|event: (u64, u16)| event.0)
                == findings.timeline.events.map_values(|event: (u64, u16)| event.0)
                + times_among(records)
        }),
    decreases records.len(),
{
    let time = |event: (u64, u16)| event.0;
    let start = findings.timeline.events.map_values(time);
    if records.len() == 0 {
        assert(start + times_among(records) =~= start);
    } else {
        let rest = records.drop_last();
        law_aggregates_cover_every_event(findings, rest);
        let before = after_records(findings, rest);
        let after = after_records(findings, records);
        match event_in(records.last().index, records.last().decoded) {
            Some(event) => {
                assert(after.timeline.events.map_values(time)
                    =~= before.timeline.events.map_values(time).push(event.timestamp));
                assert(start + times_among(records) =~= (start + times_among(rest)).push(
                    event.timestamp,
                ));
            },
            None => {
                assert(after.timeline == before.timeline);
            },
        }
    }
}

/// Whether no request has two fates: those answered, those that went unanswered and
/// those still waiting are no more than were opened.
pub open spec fn accounted_for(talk: Conversations) -> bool {
    forall|i: int|
        0 <= i < EXCHANGE_COUNT ==> (#[trigger] talk.stats[i]).answered
            + talk.stats[i].unanswered_by_peers + talk.stats[i].unanswered_by_us
            + exchange::waiting(talk.open, i).len() <= talk.stats[i].opened
}

proof fn lemma_sweep_accounts(talk: Conversations, now: u64)
    requires
        talk.valid(),
        accounted_for(talk),
    ensures
        accounted_for(talk.swept(now)),
{
    let after = talk.swept(now);
    assert forall|i: int| 0 <= i < EXCHANGE_COUNT implies (#[trigger] after.stats[i]).answered
        + after.stats[i].unanswered_by_peers + after.stats[i].unanswered_by_us
        + exchange::waiting(after.open, i).len() <= after.stats[i].opened by {
        exchange::lemma_a_sweep_ends_the_waits_it_counts(talk.open, now, i);
        assert(talk.stats[i].answered <= talk.stats[i].opened);
    }
}

/// Every request has one fate: answered, unanswered, or undetermined. Messages and
/// sweeps keep it so, as long as the requests can be counted, and the three then add
/// up to the requests there were.
pub proof fn law_every_request_has_one_fate(
    talk: Conversations,
    timestamp: u64,
    event: MessageEvent,
    index: int,
)
    requires
        talk.valid(),
        accounted_for(talk),
        forall|i: int| 0 <= i < EXCHANGE_COUNT ==> (#[trigger] talk.stats[i]).opened < u64::MAX,
        0 <= index < EXCHANGE_COUNT,
    ensures
        accounted_for(Conversations::blank()),
        accounted_for(talk.with_message(timestamp, event)),
        accounted_for(talk.swept(timestamp)),
        talk.stats[index].answered + talk.stats[index].silent() + talk.stats[index].unclear()
            == talk.stats[index].opened,
{
    let blank = Conversations::blank();
    assert forall|i: int| 0 <= i < EXCHANGE_COUNT implies (#[trigger] blank.stats[i]).answered
        + blank.stats[i].unanswered_by_peers + blank.stats[i].unanswered_by_us
        + exchange::waiting(blank.open, i).len() <= blank.stats[i].opened by {
        assert(exchange::waiting(blank.open, i) =~= Set::empty());
    }
    lemma_sweep_accounts(talk, timestamp);
    let message = Message {
        peer: event.meta.peer_id,
        command: event.meta.command@,
        inbound: event.meta.inbound,
        timestamp,
        position: 0,
    };
    let seen = exchange::observed(talk.open, message);
    let after = Conversations {
        stats: Conversations::tallied(talk.stats, seen),
        reply_latency: Conversations::timed(talk.reply_latency, seen, message.inbound),
        our_reply_latency: Conversations::timed(talk.our_reply_latency, seen, !message.inbound),
        open: exchange::after_message(talk.open, message),
        since_sweep: 0,
    };
    exchange::lemma_a_request_starts_one_wait(talk.open, message, 0);
    exchange::lemma_indices(talk.open, message);
    assert forall|i: int| 0 <= i < EXCHANGE_COUNT implies (#[trigger] after.stats[i]).answered
        + after.stats[i].unanswered_by_peers + after.stats[i].unanswered_by_us
        + exchange::waiting(after.open, i).len() <= after.stats[i].opened by {
        exchange::lemma_a_reply_ends_one_wait(talk.open, message, i);
        exchange::lemma_a_request_starts_one_wait(talk.open, message, i);
        assert(talk.stats[i].opened < u64::MAX);
    }
    assert(after.valid());
    lemma_sweep_accounts(after, timestamp);
    assert(talk.stats[index].answered <= talk.stats[index].opened);
}

/// An announcement is not a request: what is announced and not acted on is never
/// counted as unanswered, by a message that comes after it or by a sweep.
pub proof fn law_an_announcement_is_never_unanswered(
    talk: Conversations,
    timestamp: u64,
    event: MessageEvent,
    index: int,
)
    requires
        talk.valid(),
        0 <= index < EXCHANGE_COUNT,
        exchange::is_announcement(index),
    ensures
        ({
            let after = talk.with_message(timestamp, event).stats[index];
            &&& after.unanswered_by_peers == talk.stats[index].unanswered_by_peers
            &&& after.unanswered_by_us == talk.stats[index].unanswered_by_us
        }),
        ({
            let after = talk.swept(timestamp).stats[index];
            &&& after.unanswered_by_peers == talk.stats[index].unanswered_by_peers
            &&& after.unanswered_by_us == talk.stats[index].unanswered_by_us
        }),
{
    let message = Message {
        peer: event.meta.peer_id,
        command: event.meta.command@,
        inbound: event.meta.inbound,
        timestamp,
        position: 0,
    };
    exchange::lemma_indices(talk.open, message);
    lemma_no_silence(talk.open, timestamp, index);
    lemma_no_silence(exchange::after_message(talk.open, message), timestamp, index);
}

proof fn lemma_no_silence(open: OpenRequests, now: u64, index: int)
    requires
        exchange::is_announcement(index),
    ensures
        exchange::silent_count(open, now, index, true) == 0,
        exchange::silent_count(open, now, index, false) == 0,
{
    assert(open.dom().filter(|key: u128| exchange::timed_out(open, now, key, index, true))
        =~= Set::empty());
    assert(open.dom().filter(|key: u128| exchange::timed_out(open, now, key, index, false))
        =~= Set::empty());
}

/// Pipelining makes silence unreadable: a later request says nothing of an earlier
/// one where several may be in flight, so taking its place does not count as going
/// unanswered.
pub proof fn law_a_pipelined_request_is_not_given_up(
    talk: Conversations,
    message: Message,
)
    requires
        talk.valid(),
        exchange::opens(message.command) matches Some(index) && exchange::is_pipelined(index),
    ensures
        exchange::observed(talk.open, message).displaced is None,
{
}

/// Rotated files read as one archive: which file an event is from changes nothing but
/// the count of that file.
pub proof fn law_files_read_as_one_archive(findings: Findings, event: Event, a: int, b: int)
    ensures
        (Findings { files: findings.files, ..findings.with_event(a, event) }) == (Findings {
            files: findings.files,
            ..findings.with_event(b, event)
        }),
        forall|i: int|
            0 <= i < findings.files.len() && i != a ==> #[trigger] findings.with_event(
                a,
                event,
            ).files[i] == findings.files[i],
{
}

/// A message is tallied where it belongs: the exchange it opens has one more, the one it is
/// the first to answer has one more answered, and the request it takes the place of counts
/// against whoever left it unanswered, which is this node where it came in. A reply that
/// came in times the peer, one that went out times this node, and nothing else is timed.
pub proof fn law_a_message_is_tallied_where_it_belongs(
    talk: Conversations,
    timestamp: u64,
    event: MessageEvent,
    index: int,
)
    requires
        talk.valid(),
        talk.since_sweep + 1 < 32_768,
        0 <= index < 13,
    ensures
        ({
            let message = Message {
                peer: event.meta.peer_id,
                command: event.meta.command@,
                inbound: event.meta.inbound,
                timestamp,
                position: 0,
            };
            let seen = exchange::observed(talk.open, message);
            let after = talk.with_message(timestamp, event);
            let (was, now) = (talk.stats[index], after.stats[index]);
            let answered = seen.answered is Some && seen.answered->0.exchange == index;
            let silent = seen.displaced is Some && seen.displaced->0.exchange == index;
            let ms = seen.answered->0.elapsed_ms;
            &&& was.opened < u64::MAX ==> now.opened - was.opened == (if exchange::opens(
                event.meta.command@,
            ) == Some(index) {
                1int
            } else {
                0
            })
            &&& was.answered < u64::MAX ==> now.answered - was.answered == (if answered
                && seen.first_reply {
                1int
            } else {
                0
            })
            &&& was.unanswered_by_us < u64::MAX ==> now.unanswered_by_us - was.unanswered_by_us == (
            if silent && event.meta.inbound {
                1int
            } else {
                0
            })
            &&& was.unanswered_by_peers < u64::MAX ==> now.unanswered_by_peers
                - was.unanswered_by_peers == (if silent && !event.meta.inbound {
                1int
            } else {
                0
            })
            &&& after.reply_latency[index] == (if answered && event.meta.inbound {
                talk.reply_latency[index].with(ms)
            } else {
                talk.reply_latency[index]
            })
            &&& after.our_reply_latency[index] == (if answered && !event.meta.inbound {
                talk.our_reply_latency[index].with(ms)
            } else {
                talk.our_reply_latency[index]
            })
            &&& after.open == exchange::after_message(talk.open, message)
            &&& after.since_sweep == talk.since_sweep + 1
        }),
{
    let message = Message {
        peer: event.meta.peer_id,
        command: event.meta.command@,
        inbound: event.meta.inbound,
        timestamp,
        position: 0,
    };
    exchange::lemma_indices(talk.open, message);
}

/// A sweep retires what is past its time and counts what had no answer: a request stays open
/// as long as its window lasts; of those that do not, the ones that never had a reply and
/// announced nothing count against this node where they came in, and against the peers where
/// they went out. It times nothing, and opens and answers nothing.
pub proof fn law_a_sweep_counts_what_ran_out(
    talk: Conversations,
    now: u64,
    index: int,
    key: u128,
)
    requires
        talk.valid(),
        0 <= index < 13,
    ensures
        ({
            let after = talk.swept(now);
            let (was, is) = (talk.stats[index], after.stats[index]);
            let late = |inbound: bool|
                talk.open.dom().filter(
                    |key: u128|
                        {
                            &&& key as int % 32 / 2 == index
                            &&& (key as int % 2 == 1) == inbound
                            &&& now - talk.open[key].timestamp > exchange::window_of(index)
                            &&& !talk.open[key].answered
                            &&& !exchange::is_announcement(index)
                        },
                ).len();
            &&& was.unanswered_by_us + late(true) <= u64::MAX ==> is.unanswered_by_us
                == was.unanswered_by_us + late(true)
            &&& was.unanswered_by_peers + late(false) <= u64::MAX ==> is.unanswered_by_peers
                == was.unanswered_by_peers + late(false)
            &&& is.opened == was.opened
            &&& is.answered == was.answered
            &&& after.reply_latency == talk.reply_latency
            &&& after.our_reply_latency == talk.our_reply_latency
            &&& after.open.dom().contains(key) <==> talk.open.dom().contains(key) && now
                - talk.open[key].timestamp <= exchange::window_of(key as int % 32 / 2)
            &&& after.open.dom().contains(key) ==> after.open[key] == talk.open[key]
        }),
{
    let open = talk.open;
    assert forall|inbound: bool| #[trigger]
        exchange::silent_count(open, now, index, inbound) == open.dom().filter(
            |key: u128|
                {
                    &&& key as int % 32 / 2 == index
                    &&& (key as int % 2 == 1) == inbound
                    &&& now - open[key].timestamp > exchange::window_of(index)
                    &&& !open[key].answered
                    &&& !exchange::is_announcement(index)
                },
        ).len() by {
        assert(open.dom().filter(|key: u128| exchange::timed_out(open, now, key, index, inbound))
            =~= open.dom().filter(
            |key: u128|
                {
                    &&& key as int % 32 / 2 == index
                    &&& (key as int % 2 == 1) == inbound
                    &&& now - open[key].timestamp > exchange::window_of(index)
                    &&& !open[key].answered
                    &&& !exchange::is_announcement(index)
                },
        ));
    }
    assert(exchange::silent_count(open, now, index, true) >= 0);
    assert(exchange::silent_count(open, now, index, false) >= 0);
}

/// A session spans its events: it starts with the earliest of them and ends with the latest,
/// whatever order they came in, and has neither if there are none.
pub proof fn law_a_session_spans_its_events(records: Seq<Taken>)
    ensures
        ({
            let after = after_records(Findings::blank(), records);
            let times = times_among(records);
            &&& times.len() == 0 ==> after.first is None && after.last is None
            &&& times.len() > 0 ==> {
                &&& after.first is Some && times.contains(after.first->0)
                &&& after.last is Some && times.contains(after.last->0)
                &&& forall|i: int|
                    0 <= i < times.len() ==> after.first->0 <= #[trigger] times[i] <= after.last->0
            }
        }),
    decreases records.len(),
{
    if records.len() > 0 {
        let rest = records.drop_last();
        law_a_session_spans_its_events(rest);
        let before = after_records(Findings::blank(), rest);
        let after = after_records(Findings::blank(), records);
        let (times, more) = (times_among(rest), times_among(records));
        if let Some(event) = event_in(records.last().index, records.last().decoded) {
            assert(more == times.push(event.timestamp));
            assert(more[times.len() as int] == event.timestamp);
            if times.len() > 0 {
                let low = choose|i: int| 0 <= i < times.len() && times[i] == before.first->0;
                let high = choose|i: int| 0 <= i < times.len() && times[i] == before.last->0;
                assert(more[low] == before.first->0 && more[high] == before.last->0);
            }
            assert forall|i: int| 0 <= i < more.len() implies after.first->0 <= #[trigger] more[i]
                <= after.last->0 by {
                if i < times.len() {
                    assert(more[i] == times[i]);
                }
            }
        }
    }
}

/// A record is what its place says it is: the first of a file is its header, and the others
/// are events. What holds something else is an error of its file. Each counts once, for the
/// session and for its file, and no other file changes.
pub proof fn law_a_record_counts_for_its_file(
    findings: Findings,
    file: int,
    index: u64,
    decoded: Decoded,
    other: int,
)
    requires
        0 <= file < findings.files.len(),
        0 <= other < findings.files.len(),
        findings.total_events < u64::MAX,
        findings.decode_errors < u64::MAX,
        findings.files[file].events < u64::MAX,
        findings.files[file].decode_errors < u64::MAX,
    ensures
        ({
            let after = recorded(findings, file, index, decoded);
            let (was, is) = (findings.files[file], after.files[file]);
            let header = index == 0 && decoded is Header;
            let event = index > 0 && decoded is Event;
            &&& after.total_events - findings.total_events == (if event {
                1int
            } else {
                0
            })
            &&& is.events - was.events == (if event {
                1int
            } else {
                0
            })
            &&& after.decode_errors - findings.decode_errors == (if header || event {
                0int
            } else {
                1
            })
            &&& is.decode_errors - was.decode_errors == (if header || event {
                0int
            } else {
                1
            })
            &&& header ==> (decoded matches Decoded::Header(said) && is.created == Some(
                said.created,
            ) && is.low_data == said.low_data)
            &&& !header ==> is.created == was.created && is.low_data == was.low_data
            &&& after.files.len() == findings.files.len()
            &&& other != file ==> after.files[other] == findings.files[other]
        }),
{
}

/// The columns of an event say when it was, of which kind, which peer it is about, which way
/// it went and how large it was on the wire, as far as a column holds that. Only a message
/// goes some way and has a size, and an event about no peer has none.
pub proof fn law_columns_say_what_the_event_was(peers: Directory, event: Event, kind: u16)
    requires
        peers.valid(),
    ensures
        ({
            let columns = columns_of(peers, event, kind);
            &&& columns.timestamp == event.timestamp
            &&& columns.kind == kind
            &&& match strip::message_in(event) {
                Some(message) => {
                    &&& columns.flags & 2 != 0
                    &&& (columns.flags & 1 != 0) == message.meta.inbound
                    &&& message.meta.size <= u32::MAX ==> columns.size == message.meta.size
                    &&& message.meta.size > u32::MAX ==> columns.size == u32::MAX
                    &&& event_peer(event) == Some(message.meta.peer_id)
                },
                None => columns.flags == 0 && columns.size == 0,
            }
            &&& match event_peer(event) {
                Some(id) => (columns.peer < peers.peers.len() && peers.peers[columns.peer as int].peer_id
                    == id) || (columns.peer == u32::MAX && forall|at: int|
                    0 <= at < peers.peers.len() ==> (#[trigger] peers.peers[at]).peer_id != id),
                None => columns.peer == u32::MAX,
            }
        }),
{
    if let Some(message) = strip::message_in(event) {
        store::flags::law_flags_say_which_way_a_message_went(0, message.meta.inbound);
    }
    if let Some(id) = event_peer(event) {
        if let Some(at) = peers::place(peers.peers, id) {
            assert(peers::stands_at(peers.peers, id, at));
        } else {
            assert forall|at: int| 0 <= at < peers.peers.len() implies (
            #[trigger] peers.peers[at]).peer_id != id by {
                assert(!peers::stands_at(peers.peers, id, at));
            }
        }
    }
}

/// Requests that went unanswered did so on one side or the other, and what is neither that
/// nor answered is undetermined.
pub proof fn law_silence_is_on_one_side_or_the_other(stats: ExchangeStats)
    ensures
        stats.unanswered_by_peers + stats.unanswered_by_us <= u64::MAX ==> stats.silent()
            == stats.unanswered_by_peers + stats.unanswered_by_us,
        stats.answered + stats.unanswered_by_peers + stats.unanswered_by_us <= stats.opened
            ==> stats.unclear() == stats.opened - stats.answered - stats.unanswered_by_peers
            - stats.unanswered_by_us,
{
}

/// A snapshot names the peers it lists: one that is known and goes by nothing yet is called
/// what the first entry that calls it anything says, as long as there are ids for all the
/// names.
pub proof fn law_a_snapshot_names_the_peers_it_lists(
    directory: Directory,
    infos: Seq<PeerInfo>,
    at: int,
)
    requires
        directory.valid(),
        0 <= at < infos.len(),
        directory.agents.len() + infos.len() <= 65536,
        peers::place(directory.peers, infos[at].id as u64) is Some,
        peers::agent_of(directory, infos[at].id as u64) is None,
        infos[at].subversion@.len() > 0,
        forall|i: int|
            0 <= i < at && (#[trigger] infos[i]).id as u64 == infos[at].id as u64
                ==> infos[i].subversion@.len() == 0,
    ensures
        ({
            let after = named_all(directory, infos, infos.len() as int);
            &&& peers::agent_of(after, infos[at].id as u64) == Some(infos[at].subversion@)
            &&& peers::agent_source(after, infos[at].id as u64) == Some(UserAgentSource::PeerInfo)
        }),
{
    lemma_snapshot(directory, infos, at, infos.len() as int);
}

proof fn lemma_snapshot(directory: Directory, infos: Seq<PeerInfo>, at: int, upto: int)
    requires
        directory.valid(),
        0 <= at < infos.len(),
        0 <= upto <= infos.len(),
        directory.agents.len() + infos.len() <= 65536,
        peers::place(directory.peers, infos[at].id as u64) is Some,
        peers::agent_of(directory, infos[at].id as u64) is None,
        infos[at].subversion@.len() > 0,
        forall|i: int|
            0 <= i < at && (#[trigger] infos[i]).id as u64 == infos[at].id as u64
                ==> infos[i].subversion@.len() == 0,
    ensures
        ({
            let after = named_all(directory, infos, upto);
            let id = infos[at].id as u64;
            &&& after.valid()
            &&& after.agents.len() <= directory.agents.len() + upto
            &&& peers::place(after.peers, id) is Some
            &&& upto <= at ==> peers::agent_of(after, id) is None
            &&& upto > at ==> peers::agent_of(after, id) == Some(infos[at].subversion@)
                && peers::agent_source(after, id) == Some(UserAgentSource::PeerInfo)
        }),
    decreases upto,
{
    if upto > 0 {
        lemma_snapshot(directory, infos, at, upto - 1);
        let info = infos[upto - 1];
        peers::law_a_name_is_one_peers(
            named_all(directory, infos, upto - 1),
            info.id as u64,
            info.subversion@,
            UserAgentSource::PeerInfo,
            infos[at].id as u64,
        );
    }
}

} // verus!
