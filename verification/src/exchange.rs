//! Pairing P2P requests with the replies they most likely caused.
//!
//! The archive records a message's command, direction, size and time. It does
//! not record the txids, block hashes, locators or ping nonces *inside* the
//! message, and those are exactly what would make this exact. So a tie here is
//! a likely pairing, not a proven one: the oldest unanswered request of a
//! matching kind, on the same peer, in the opposite direction, inside a window
//! sized to what Bitcoin Core actually does.
//!
//! That is reliable for the handshake, for pings and for the BIP157 filter
//! messages, which are only ever sent in answer to something. It can mislink
//! where a reply command is also sent unsolicited: `inv`, `headers`, `addr` and
//! `cmpctblock` are all announced without being asked for. Views built on this
//! must say so rather than presenting a tie as fact.

use crate::store::NO_PEER;
use crate::text;
use std::collections::HashMap;
use vstd::prelude::*;

verus! {

broadcast use vstd::std_specs::hash::group_hash_axioms;

/// One message on the wire, as the sequence diagram sees it.
#[derive(Debug, Clone, Copy)]
pub struct Turn<'a> {
    /// Store peer index, or [`NO_PEER`].
    pub peer: u32,
    /// The wire command, e.g. `getdata`.
    pub command: &'a str,
    /// `None` for events that are not directed messages.
    pub inbound: Option<bool>,
    pub timestamp: u64,
}

/// A request and the reply it most likely caused, as positions in the slice
/// passed to [`match_turns`].
#[derive(Debug, Clone, Copy, PartialEq, Eq)]
pub struct Tie {
    pub request: usize,
    pub reply: usize,
    pub elapsed_ms: u64,
}

const SECOND: u64 = 1_000;

const MINUTE: u64 = 60 * SECOND;

/// How many kinds of exchange there are.
pub const EXCHANGE_COUNT: usize = 13;

/// The command that opens exchange `index`.
pub open spec fn request_text(index: int) -> Seq<char> {
    if index == 0 {
        // The handshake. Both sides send `version` and both answer with
        // `verack`, so the two halves have to be tracked separately.
        "version"@
    } else if index == 1 {
        "ping"@
    } else if index == 2 {
        "getaddr"@
    } else if index == 3 {
        // Announcement, then the request for what was announced...
        "inv"@
    } else if index == 4 {
        // ...and then the items themselves.
        "getdata"@
    } else if index == 5 {
        "getheaders"@
    } else if index == 6 {
        "getblocks"@
    } else if index == 7 {
        // BIP152: a compact block, the request for the transactions it was
        // missing, and those transactions.
        "cmpctblock"@
    } else if index == 8 {
        "getblocktxn"@
    } else if index == 9 {
        "mempool"@
    } else if index == 10 {
        // BIP157 compact block filters. These are never sent unsolicited, so
        // these three ties are as good as certain.
        "getcfilters"@
    } else if index == 11 {
        "getcfheaders"@
    } else {
        "getcfcheckpt"@
    }
}

/// The commands that answer exchange `index`.
pub open spec fn reply_texts(index: int) -> Seq<Seq<char>> {
    if index == 0 {
        seq!["verack"@]
    } else if index == 1 {
        seq!["pong"@]
    } else if index == 2 {
        seq!["addr"@, "addrv2"@]
    } else if index == 3 {
        seq!["getdata"@]
    } else if index == 4 {
        seq!["tx"@, "block"@, "merkleblock"@, "cmpctblock"@, "notfound"@]
    } else if index == 5 {
        seq!["headers"@]
    } else if index == 6 {
        seq!["inv"@]
    } else if index == 7 {
        seq!["getblocktxn"@]
    } else if index == 8 {
        seq!["blocktxn"@, "notfound"@]
    } else if index == 9 {
        seq!["inv"@]
    } else if index == 10 {
        seq!["cfilter"@]
    } else if index == 11 {
        seq!["cfheaders"@]
    } else {
        seq!["cfcheckpt"@]
    }
}

/// Whether one request of exchange `index` can be answered by more than one
/// message.
pub open spec fn is_multi(index: int) -> bool {
    index == 2 || index == 4 || index == 9 || index == 10
}

/// How long a request of exchange `index` stays open before it is assumed
/// unanswered.
///
/// Windows come from Bitcoin Core's own timeouts where it has one, and are
/// otherwise generous: a window that is too long costs a wrong tie on an idle
/// peer, while one that is too short silently drops a real exchange.
pub open spec fn window_of(index: int) -> u64 {
    if index == 1 {
        // Core pings every two minutes and disconnects after twenty without a
        // pong.
        1_200_000
    } else if index == 2 {
        // Core answers `getaddr` out of a cache on its next scheduled address
        // send, a Poisson timer averaging thirty seconds.
        180_000
    } else if index == 4 {
        // Core's transaction request timeout is a minute; a block download is
        // given ten.
        600_000
    } else {
        120_000
    }
}

/// Whether exchange `index` is opened by an announcement. A node asks for a
/// fraction of what it is told about, so silence there is a choice, not a
/// failure.
pub open spec fn is_announcement(index: int) -> bool {
    index == 3 || index == 7
}

/// Whether several requests of exchange `index` are kept in flight at once, so
/// that a later one says nothing about an earlier one.
pub open spec fn is_pipelined(index: int) -> bool {
    index == 4
}

/// How many kinds of exchange there are.
pub fn exchange_count() -> (count: usize)
    ensures
        count == EXCHANGE_COUNT,
{
    EXCHANGE_COUNT
}

/// The command that opens an exchange.
pub fn request_name(index: usize) -> (name: &'static str)
    requires
        index < EXCHANGE_COUNT,
    ensures
        name@ == request_text(index as int),
{
    if index == 0 {
        "version"
    } else if index == 1 {
        "ping"
    } else if index == 2 {
        "getaddr"
    } else if index == 3 {
        "inv"
    } else if index == 4 {
        "getdata"
    } else if index == 5 {
        "getheaders"
    } else if index == 6 {
        "getblocks"
    } else if index == 7 {
        "cmpctblock"
    } else if index == 8 {
        "getblocktxn"
    } else if index == 9 {
        "mempool"
    } else if index == 10 {
        "getcfilters"
    } else if index == 11 {
        "getcfheaders"
    } else {
        "getcfcheckpt"
    }
}

/// The commands that answer an exchange.
pub fn reply_names(index: usize) -> (names: Vec<&'static str>)
    requires
        index < EXCHANGE_COUNT,
    ensures
        names@.map_values(|name: &str| name@) == reply_texts(index as int),
{
    let mut names: Vec<&'static str> = Vec::new();
    if index == 0 {
        names.push("verack");
    } else if index == 1 {
        names.push("pong");
    } else if index == 2 {
        names.push("addr");
        names.push("addrv2");
    } else if index == 3 {
        names.push("getdata");
    } else if index == 4 {
        names.push("tx");
        names.push("block");
        names.push("merkleblock");
        names.push("cmpctblock");
        names.push("notfound");
    } else if index == 5 {
        names.push("headers");
    } else if index == 6 {
        names.push("inv");
    } else if index == 7 {
        names.push("getblocktxn");
    } else if index == 8 {
        names.push("blocktxn");
        names.push("notfound");
    } else if index == 9 {
        names.push("inv");
    } else if index == 10 {
        names.push("cfilter");
    } else if index == 11 {
        names.push("cfheaders");
    } else {
        names.push("cfcheckpt");
    }
    assert(names@.map_values(|name: &str| name@) =~= reply_texts(index as int));
    names
}

/// Whether an exchange is opened by an announcement, whose silence is a choice.
pub fn is_optional(index: usize) -> (optional: bool)
    ensures
        optional == is_announcement(index as int),
{
    index == 3 || index == 7
}

fn pipelined(index: usize) -> (pipelined: bool)
    ensures
        pipelined == is_pipelined(index as int),
{
    index == 4
}

fn multi(index: usize) -> (multi: bool)
    ensures
        multi == is_multi(index as int),
{
    index == 2 || index == 4 || index == 9 || index == 10
}

fn window_ms(index: usize) -> (ms: u64)
    ensures
        ms == window_of(index as int),
{
    if index == 1 {
        20 * MINUTE
    } else if index == 2 {
        3 * MINUTE
    } else if index == 4 {
        10 * MINUTE
    } else {
        2 * MINUTE
    }
}

/// Whether `command` answers exchange `index`.
pub open spec fn answers(index: int, command: Seq<char>) -> bool {
    reply_texts(index).contains(command)
}

fn is_answer(index: usize, command: &str) -> (yes: bool)
    requires
        index < EXCHANGE_COUNT,
    ensures
        yes == answers(index as int, command@),
{
    let names = reply_names(index);
    let mut i: usize = 0;
    while i < names.len()
        invariant
            i <= names@.len(),
            names@.map_values(|name: &str| name@) == reply_texts(index as int),
            forall|j: int| 0 <= j < i ==> reply_texts(index as int)[j] != command@,
        decreases names@.len() - i,
    {
        assert(reply_texts(index as int)[i as int] == names@[i as int]@);
        if text::same(names[i], command) {
            return true;
        }
        i = i + 1;
    }
    false
}

/// The first exchange, from `index` on, that `command` opens.
pub open spec fn opens_from(command: Seq<char>, index: int) -> Option<int>
    decreases EXCHANGE_COUNT - index,
{
    if index >= EXCHANGE_COUNT {
        None
    } else if request_text(index) == command {
        Some(index)
    } else {
        opens_from(command, index + 1)
    }
}

/// The exchange a command opens, if any.
pub open spec fn opens(command: Seq<char>) -> Option<int> {
    opens_from(command, 0)
}

fn opened_by(command: &str) -> (index: Option<usize>)
    ensures
        match index {
            Some(index) => index < EXCHANGE_COUNT && opens(command@) == Some(index as int),
            None => opens(command@) is None,
        },
{
    let mut index: usize = 0;
    while index < EXCHANGE_COUNT
        invariant
            index <= EXCHANGE_COUNT,
            opens(command@) == opens_from(command@, index as int),
        decreases EXCHANGE_COUNT - index,
    {
        if text::same(request_name(index), command) {
            return Some(index);
        }
        index = index + 1;
    }
    None
}

/// A request still waiting for its reply.
#[derive(Debug, Clone, Copy)]
pub struct Open {
    /// Where it stands among the messages it came with.
    pub position: usize,
    pub timestamp: u64,
    /// Whether it has had a reply already.
    pub answered: bool,
}

/// Which peer, which exchange, and which way the *request* went, as one number.
/// Direction is part of it because both ends of a connection send `version` and
/// `ping`, and those two conversations must not be confused for one another.
pub open spec fn key_of(peer: u64, index: int, inbound: bool) -> u128 {
    (peer * 32 + index * 2 + if inbound {
        1int
    } else {
        0int
    }) as u128
}

/// The exchange in a key.
pub open spec fn key_exchange(key: u128) -> int {
    (key as int % 32) / 2
}

/// The direction in a key.
pub open spec fn key_inbound(key: u128) -> bool {
    key as int % 2 == 1
}

/// A key stands for one peer, exchange and direction only.
pub proof fn lemma_key(peer: u64, index: int, inbound: bool)
    requires
        0 <= index < EXCHANGE_COUNT,
    ensures
        key_of(peer, index, inbound) == peer * 32 + index * 2 + if inbound {
            1int
        } else {
            0int
        },
        key_of(peer, index, inbound) as int / 32 == peer,
        key_exchange(key_of(peer, index, inbound)) == index,
        key_inbound(key_of(peer, index, inbound)) == inbound,
{
}

fn make_key(peer: u64, index: usize, inbound: bool) -> (key: u128)
    requires
        index < EXCHANGE_COUNT,
    ensures
        key == key_of(peer, index as int, inbound),
{
    peer as u128 * 32 + index as u128 * 2 + if inbound {
        1u128
    } else {
        0u128
    }
}

/// How far `now` is past `then`, or nothing if it is not.
pub open spec fn since(now: u64, then: u64) -> u64 {
    if now >= then {
        (now - then) as u64
    } else {
        0
    }
}

/// A message, as pairing sees it.
pub struct Message {
    pub peer: u64,
    pub command: Seq<char>,
    pub inbound: bool,
    pub timestamp: u64,
    pub position: usize,
}

/// The requests waiting for a reply.
pub type OpenRequests = Map<u128, Open>;

/// Whether a message can be the reply to the request open on exchange `index`.
pub open spec fn fits(open: OpenRequests, message: Message, index: int) -> bool {
    let key = key_of(message.peer, index, !message.inbound);
    &&& answers(index, message.command)
    &&& open.dom().contains(key)
    &&& since(message.timestamp, open[key].timestamp) <= window_of(index)
}

/// The exchange, among the first `upto`, whose request a message most likely
/// answers: the oldest one it fits, so pipelined requests are answered in order.
pub open spec fn answered_among(open: OpenRequests, message: Message, upto: int) -> Option<int>
    decreases upto,
{
    if upto <= 0 {
        None
    } else {
        let best = answered_among(open, message, upto - 1);
        let index = upto - 1;
        let older = match best {
            None => true,
            Some(other) => open[key_of(message.peer, index, !message.inbound)].timestamp
                < open[key_of(message.peer, other, !message.inbound)].timestamp,
        };
        if fits(open, message, index) && older {
            Some(index)
        } else {
            best
        }
    }
}

/// The exchange whose request a message most likely answers.
pub open spec fn answered_by(open: OpenRequests, message: Message) -> Option<int> {
    answered_among(open, message, EXCHANGE_COUNT as int)
}

/// The requests open once a message has had its effect as a reply.
pub open spec fn after_reply(open: OpenRequests, message: Message) -> OpenRequests {
    match answered_by(open, message) {
        None => open,
        Some(index) => {
            let key = key_of(message.peer, index, !message.inbound);
            if is_multi(index) {
                open.insert(key, Open { answered: true, ..open[key] })
            } else {
                open.remove(key)
            }
        },
    }
}

/// The requests open once a message has had its effect as a reply and as a
/// request. `getdata` both answers an `inv` and asks for a `tx`, and must not
/// answer itself, so it is matched as a reply first.
///
/// At most one request per peer, exchange and direction is left open: once a
/// peer has sent a second `getdata`, the first one's items are on the wire
/// already, and keeping it open would let it absorb the second one's replies.
pub open spec fn after_message(open: OpenRequests, message: Message) -> OpenRequests {
    let open = after_reply(open, message);
    match opens(message.command) {
        None => open,
        Some(index) => open.insert(
            key_of(message.peer, index, message.inbound),
            Open { position: message.position, timestamp: message.timestamp, answered: false },
        ),
    }
}

/// A reply and the request it answers.
#[derive(Debug, Clone, Copy, PartialEq, Eq)]
pub struct Answered {
    pub exchange: usize,
    /// Where the request stood.
    pub position: usize,
    pub elapsed_ms: u64,
}

/// A request that went without a reply. `request_inbound` says whose silence it
/// was: an inbound request is one this node failed to answer.
#[derive(Debug, Clone, Copy, PartialEq, Eq)]
pub struct Unanswered {
    pub exchange: usize,
    pub request_inbound: bool,
}

/// What one message says about the exchanges it is part of.
#[derive(Debug, Clone, Copy, PartialEq, Eq)]
pub struct Observed {
    /// The exchange it opened.
    pub opened: Option<usize>,
    /// The request it answered.
    pub answered: Option<Answered>,
    /// Whether it is the first answer to that request.
    pub first_reply: bool,
    /// The request it took the place of, where that one's silence means
    /// something.
    pub displaced: Option<Unanswered>,
}

/// What a message says, given the requests open before it.
pub open spec fn observed(open: OpenRequests, message: Message) -> Observed {
    let mid = after_reply(open, message);
    Observed {
        opened: match opens(message.command) {
            Some(index) => Some(index as usize),
            None => None,
        },
        answered: match answered_by(open, message) {
            Some(index) => {
                let request = open[key_of(message.peer, index, !message.inbound)];
                Some(
                    Answered {
                        exchange: index as usize,
                        position: request.position,
                        elapsed_ms: since(message.timestamp, request.timestamp),
                    },
                )
            },
            None => None,
        },
        first_reply: match answered_by(open, message) {
            Some(index) => !open[key_of(message.peer, index, !message.inbound)].answered,
            None => false,
        },
        displaced: match opens(message.command) {
            Some(index) => {
                let key = key_of(message.peer, index, message.inbound);
                if mid.dom().contains(key) && !mid[key].answered && !is_announcement(index)
                    && !is_pipelined(index) {
                    Some(Unanswered { exchange: index as usize, request_inbound: message.inbound })
                } else {
                    None
                }
            },
            None => None,
        },
    }
}

/// Whether a request has waited past its window.
pub open spec fn expired(key: u128, request: Open, now: u64) -> bool {
    since(now, request.timestamp) > window_of(key_exchange(key))
}

/// The requests open once those past their window are gone.
pub open spec fn after_sweep(open: OpenRequests, now: u64) -> OpenRequests {
    open.restrict(open.dom().filter(|key: u128| !expired(key, open[key], now)))
}

/// Whether a request is past its window, of this exchange and direction, and
/// never had the reply it was owed.
pub open spec fn timed_out(
    open: OpenRequests,
    now: u64,
    key: u128,
    index: int,
    inbound: bool,
) -> bool {
    &&& expired(key, open[key], now)
    &&& !open[key].answered
    &&& !is_announcement(index)
    &&& key_exchange(key) == index
    &&& key_inbound(key) == inbound
}

/// How many requests of this exchange and direction time out.
pub open spec fn silent_count(open: OpenRequests, now: u64, index: int, inbound: bool) -> nat {
    open.dom().filter(|key: u128| timed_out(open, now, key, index, inbound)).len()
}

/// How many requests of one exchange timed out, by whose silence it was.
#[derive(Debug, Clone, Copy, PartialEq, Eq)]
pub struct Silence {
    /// Inbound requests this node never answered.
    pub by_us: usize,
    /// Outbound requests a peer never answered.
    pub by_peers: usize,
}

/// Follows requests and replies through a stream of messages.
pub struct Tracker {
    open: HashMap<u128, Open>,
}

impl View for Tracker {
    type V = OpenRequests;

    closed spec fn view(&self) -> OpenRequests {
        self.open@
    }
}

/// Every open request is of one of the exchanges there are.
pub open spec fn well_keyed(open: OpenRequests) -> bool {
    &&& open.dom().finite()
    &&& forall|key: u128| #[trigger] open.dom().contains(key) ==> key_exchange(key) < EXCHANGE_COUNT
}

impl Tracker {
    pub closed spec fn wf(&self) -> bool {
        well_keyed(self.open@)
    }

    pub fn new() -> (tracker: Self)
        ensures
            tracker.wf(),
            tracker@ == OpenRequests::empty(),
    {
        Tracker { open: HashMap::new() }
    }

    /// Feed one message in.
    pub fn observe(
        &mut self,
        peer: u64,
        command: &str,
        inbound: bool,
        timestamp: u64,
        position: usize,
    ) -> (seen: Observed)
        requires
            old(self).wf(),
        ensures
            final(self).wf(),
            ({
                let message = Message { peer, command: command@, inbound, timestamp, position };
                &&& seen == observed(old(self)@, message)
                &&& final(self)@ == after_message(old(self)@, message)
            }),
            seen.opened matches Some(index) ==> index < EXCHANGE_COUNT,
            seen.answered matches Some(answered) ==> answered.exchange < EXCHANGE_COUNT,
            seen.displaced matches Some(displaced) ==> displaced.exchange < EXCHANGE_COUNT,
    {
        let ghost message = Message { peer, command: command@, inbound, timestamp, position };
        let ghost before = self@;
        let (answered, first_reply) = self.reply(peer, command, inbound, timestamp, position);
        let opened = opened_by(command);
        let mut displaced: Option<Unanswered> = None;
        if let Some(index) = opened {
            proof {
                lemma_key(peer, index as int, inbound);
            }
            let key = make_key(peer, index, inbound);
            let previous = self.open.insert(key, Open { position, timestamp, answered: false });
            if let Some(request) = previous {
                if !request.answered && !is_optional(index) && !pipelined(index) {
                    displaced = Some(Unanswered { exchange: index, request_inbound: inbound });
                }
            }
        }
        Observed { opened, answered, first_reply, displaced }
    }

    /// Match a message as a reply.
    fn reply(
        &mut self,
        peer: u64,
        command: &str,
        inbound: bool,
        timestamp: u64,
        position: usize,
    ) -> (found: (Option<Answered>, bool))
        requires
            old(self).wf(),
        ensures
            final(self).wf(),
            ({
                let message = Message { peer, command: command@, inbound, timestamp, position };
                &&& final(self)@ == after_reply(old(self)@, message)
                &&& found.0 == observed(old(self)@, message).answered
                &&& found.1 == observed(old(self)@, message).first_reply
            }),
            found.0 matches Some(answered) ==> answered.exchange < EXCHANGE_COUNT,
    {
        let ghost message = Message { peer, command: command@, inbound, timestamp, position };
        let mut best: Option<(usize, Open)> = None;
        let mut index: usize = 0;
        while index < EXCHANGE_COUNT
            invariant
                index <= EXCHANGE_COUNT,
                message == (Message { peer, command: command@, inbound, timestamp, position }),
                match best {
                    Some((at, request)) => {
                        &&& at < index
                        &&& answered_among(self@, message, index as int) == Some(at as int)
                        &&& self@.dom().contains(key_of(peer, at as int, !inbound))
                        &&& request == self@[key_of(peer, at as int, !inbound)]
                    },
                    None => answered_among(self@, message, index as int) is None,
                },
            decreases EXCHANGE_COUNT - index,
        {
            if is_answer(index, command) {
                let key = make_key(peer, index, !inbound);
                if let Some(request) = self.open.get(&key) {
                    let elapsed: u64 = timestamp.saturating_sub(request.timestamp);
                    if elapsed <= window_ms(index) {
                        let older = match best {
                            None => true,
                            Some((_, other)) => request.timestamp < other.timestamp,
                        };
                        if older {
                            best = Some((index, *request));
                        }
                    }
                }
            }
            index = index + 1;
        }
        match best {
            None => (None, false),
            Some((at, request)) => {
                let key = make_key(peer, at, !inbound);
                proof {
                    lemma_key(peer, at as int, !inbound);
                }
                if multi(at) {
                    self.open.insert(key, Open { answered: true, ..request });
                } else {
                    self.open.remove(&key);
                }
                (
                    Some(
                        Answered {
                            exchange: at,
                            position: request.position,
                            elapsed_ms: timestamp.saturating_sub(request.timestamp),
                        },
                    ),
                    !request.answered,
                )
            },
        }
    }
}

/// A tracker only ever holds requests of the exchanges there are.
pub proof fn lemma_tracker_is_well_keyed(tracker: Tracker)
    requires
        tracker.wf(),
    ensures
        well_keyed(tracker@),
{
}

/// The keys of a map, each once, in no particular order.
fn open_keys(open: &HashMap<u128, Open>) -> (keys: Vec<u128>)
    ensures
        keys@.no_duplicates(),
        keys@.to_set() == open@.dom(),
{
    let mut keys: Vec<u128> = Vec::new();
    for key in iter: open.keys()
        invariant
            keys@ == iter.seq().unref().take(iter.index()),
            iter.seq().unref().to_set() == open@.dom(),
            iter.seq().no_duplicates(),
            iter.index() == iter.seq().len() ==> keys@ == iter.seq().unref(),
    {
        keys.push(*key);
        assert(keys@ =~= iter.seq().unref().take(iter.index() + 1));
        assert(iter.index() + 1 == iter.seq().len() ==> keys@ =~= iter.seq().unref());
    }
    keys
}

/// How many of these requests time out, of one exchange and direction.
spec fn hits(open: OpenRequests, now: u64, keys: Seq<u128>, index: int, inbound: bool) -> nat
    decreases keys.len(),
{
    if keys.len() == 0 {
        0
    } else {
        hits(open, now, keys.drop_last(), index, inbound) + if timed_out(
            open,
            now,
            keys.last(),
            index,
            inbound,
        ) {
            1nat
        } else {
            0nat
        }
    }
}

proof fn lemma_hits(open: OpenRequests, now: u64, keys: Seq<u128>, index: int, inbound: bool)
    requires
        keys.no_duplicates(),
    ensures
        hits(open, now, keys, index, inbound) == keys.to_set().filter(
            |key: u128| timed_out(open, now, key, index, inbound),
        ).len(),
        hits(open, now, keys, index, inbound) <= keys.len(),
    decreases keys.len(),
{
    let late = |key: u128| timed_out(open, now, key, index, inbound);
    if keys.len() == 0 {
        assert(keys.to_set().filter(late) =~= Set::empty());
    } else {
        let rest = keys.drop_last();
        lemma_hits(open, now, rest, index, inbound);
        assert(rest.to_set().finite());
        assert(!rest.to_set().contains(keys.last())) by {
            if rest.contains(keys.last()) {
                let i = choose|i: int| 0 <= i < rest.len() && rest[i] == keys.last();
                assert(keys[i] == keys[keys.len() - 1]);
            }
        }
        assert(keys.to_set() =~= rest.to_set().insert(keys.last())) by {
            assert forall|key: u128| keys.contains(key) implies rest.contains(key) || key
                == keys.last() by {
                let i = choose|i: int| 0 <= i < keys.len() && keys[i] == key;
                if i < rest.len() {
                    assert(rest[i] == key);
                }
            }
            assert forall|key: u128| rest.contains(key) implies keys.contains(key) by {
                let i = choose|i: int| 0 <= i < rest.len() && rest[i] == key;
                assert(keys[i] == key);
            }
            assert(keys.contains(keys.last()));
        }
        if late(keys.last()) {
            assert(keys.to_set().filter(late) =~= rest.to_set().filter(late).insert(keys.last()));
        } else {
            assert(keys.to_set().filter(late) =~= rest.to_set().filter(late));
        }
    }
}

impl Tracker {
    /// Retire requests that have waited past their window, and say how many of
    /// them never had the reply they were owed, by exchange.
    ///
    /// Anything still inside its window is genuinely in flight, and is left
    /// alone.
    pub fn sweep(&mut self, now: u64) -> (silence: Vec<Silence>)
        requires
            old(self).wf(),
        ensures
            final(self).wf(),
            final(self)@ == after_sweep(old(self)@, now),
            silence@.len() == EXCHANGE_COUNT,
            forall|index: int|
                0 <= index < EXCHANGE_COUNT ==> {
                    &&& (#[trigger] silence@[index]).by_us == silent_count(
                        old(self)@,
                        now,
                        index,
                        true,
                    )
                    &&& silence@[index].by_peers == silent_count(old(self)@, now, index, false)
                },
    {
        let ghost before = self@;
        let keys = open_keys(&self.open);
        let mut silence: Vec<Silence> = Vec::new();
        while silence.len() < EXCHANGE_COUNT
            invariant
                silence@.len() <= EXCHANGE_COUNT,
                forall|index: int|
                    0 <= index < silence@.len() ==> #[trigger] silence@[index] == (Silence {
                        by_us: 0,
                        by_peers: 0,
                    }),
            decreases EXCHANGE_COUNT - silence.len(),
        {
            silence.push(Silence { by_us: 0, by_peers: 0 });
        }
        let mut at: usize = 0;
        assert(keys@.take(0).to_set() =~= Set::empty());
        while at < keys.len()
            invariant
                at <= keys@.len(),
                keys@.no_duplicates(),
                keys@.to_set() == before.dom(),
                well_keyed(before),
                silence@.len() == EXCHANGE_COUNT,
                forall|key: u128| #[trigger] self@.dom().contains(key) ==> before.dom().contains(key),
                forall|key: u128|
                    before.dom().contains(key) ==> (#[trigger] self@.dom().contains(key) == !(
                    keys@.take(at as int).contains(key) && expired(key, before[key], now))),
                forall|key: u128| #[trigger]
                    self@.dom().contains(key) ==> self@[key] == before[key],
                forall|index: int|
                    0 <= index < EXCHANGE_COUNT ==> {
                        &&& (#[trigger] silence@[index]).by_us == hits(
                            before,
                            now,
                            keys@.take(at as int),
                            index,
                            true,
                        )
                        &&& silence@[index].by_peers == hits(
                            before,
                            now,
                            keys@.take(at as int),
                            index,
                            false,
                        )
                    },
            decreases keys@.len() - at,
        {
            let key: u128 = keys[at];
            let ghost done = keys@.take(at as int);
            let ghost more = keys@.take(at + 1);
            proof {
                assert(more.drop_last() =~= done);
                assert(more.last() == key);
                assert(keys@.to_set().contains(key));
                assert(!done.contains(key)) by {
                    if done.contains(key) {
                        let i = choose|i: int| 0 <= i < done.len() && done[i] == key;
                        assert(keys@[i] == keys@[at as int]);
                    }
                }
                assert(self@.dom().contains(key));
                assert forall|k: u128| more.contains(k) == (done.contains(k) || k == key) by {
                    if done.contains(k) {
                        let i = choose|i: int| 0 <= i < done.len() && done[i] == k;
                        assert(more[i] == k);
                    }
                    if more.contains(k) {
                        let i = choose|i: int| 0 <= i < more.len() && more[i] == k;
                        if i < at {
                            assert(done[i] == k);
                        }
                    }
                    assert(more[at as int] == key);
                }
            }
            let exchange: usize = ((key % 32) / 2) as usize;
            let inbound: bool = key % 2 == 1;
            let request: Open = match self.open.get(&key) {
                Some(request) => *request,
                None => Open { position: 0, timestamp: 0, answered: true },
            };
            if now.saturating_sub(request.timestamp) > window_ms(exchange) {
                if !request.answered && !is_optional(exchange) {
                    proof {
                        lemma_take_no_duplicates(keys@, at as int);
                        lemma_hits(before, now, done, exchange as int, inbound);
                    }
                    let counted: Silence = silence[exchange];
                    silence[exchange] = if inbound {
                        Silence { by_us: counted.by_us + 1, ..counted }
                    } else {
                        Silence { by_peers: counted.by_peers + 1, ..counted }
                    };
                }
                self.open.remove(&key);
            }
            at = at + 1;
        }
        proof {
            assert(keys@.take(keys@.len() as int) =~= keys@);
            assert forall|index: int| 0 <= index < EXCHANGE_COUNT implies {
                &&& (#[trigger] silence@[index]).by_us == silent_count(before, now, index, true)
                &&& silence@[index].by_peers == silent_count(before, now, index, false)
            } by {
                lemma_hits(before, now, keys@, index, true);
                lemma_hits(before, now, keys@, index, false);
            }
            assert forall|key: u128| before.dom().contains(key) implies keys@.contains(key) by {
                assert(keys@.to_set().contains(key));
            }
            assert(self@ =~= after_sweep(before, now));
        }
        silence
    }
}

proof fn lemma_take_no_duplicates(keys: Seq<u128>, at: int)
    requires
        keys.no_duplicates(),
        0 <= at <= keys.len(),
    ensures
        keys.take(at).no_duplicates(),
{
}

/// A turn, as pairing sees it.
pub open spec fn turn_message(turn: Turn<'_>, position: int) -> Message {
    Message {
        peer: turn.peer as u64,
        command: turn.command@,
        inbound: turn.inbound == Some(true),
        timestamp: turn.timestamp,
        position: position as usize,
    }
}

/// Whether a turn is a directed message of a known peer.
pub open spec fn is_directed(turn: Turn<'_>) -> bool {
    turn.inbound is Some && turn.peer != NO_PEER
}

/// The requests open after the first `upto` turns.
pub open spec fn open_after(turns: Seq<Turn<'_>>, upto: int) -> OpenRequests
    decreases upto,
{
    if upto <= 0 {
        OpenRequests::empty()
    } else {
        let open = open_after(turns, upto - 1);
        let turn = turns[upto - 1];
        if is_directed(turn) {
            after_message(open, turn_message(turn, upto - 1))
        } else {
            open
        }
    }
}

/// The ties among the first `upto` turns.
pub open spec fn ties_among(turns: Seq<Turn<'_>>, upto: int) -> Seq<Tie>
    decreases upto,
{
    if upto <= 0 {
        Seq::empty()
    } else {
        let ties = ties_among(turns, upto - 1);
        let turn = turns[upto - 1];
        let seen = observed(open_after(turns, upto - 1), turn_message(turn, upto - 1));
        match seen.answered {
            Some(answered) if is_directed(turn) => ties.push(
                Tie {
                    request: answered.position,
                    reply: (upto - 1) as usize,
                    elapsed_ms: answered.elapsed_ms,
                },
            ),
            _ => ties,
        }
    }
}

/// Tie up requests and replies in one window of the archive.
///
/// Turns must be in archive order. Only this window is considered, so an
/// exchange straddling the edge of the window is reported as neither a tie nor
/// an error -- it simply does not appear.
pub fn match_turns(turns: &[Turn<'_>]) -> (ties: Vec<Tie>)
    ensures
        ties@ == ties_among(turns@, turns@.len() as int),
{
    let mut tracker = Tracker::new();
    let mut ties: Vec<Tie> = Vec::new();
    let mut position: usize = 0;
    while position < turns.len()
        invariant
            position <= turns@.len(),
            tracker.wf(),
            tracker@ == open_after(turns@, position as int),
            ties@ == ties_among(turns@, position as int),
        decreases turns@.len() - position,
    {
        let turn: Turn<'_> = turns[position];
        if turn.peer != NO_PEER {
            if let Some(inbound) = turn.inbound {
                let seen = tracker.observe(
                    turn.peer as u64,
                    turn.command,
                    inbound,
                    turn.timestamp,
                    position,
                );
                if let Some(answered) = seen.answered {
                    ties.push(
                        Tie {
                            request: answered.position,
                            reply: position,
                            elapsed_ms: answered.elapsed_ms,
                        },
                    );
                }
            }
        }
        position = position + 1;
    }
    ties
}

/// Whether an open request is one of the first `upto` turns: a directed message
/// of that peer and direction whose command opens that exchange.
spec fn stands_for(turns: Seq<Turn<'_>>, upto: int, key: u128, request: Open) -> bool {
    let position = request.position as int;
    let turn = turns[position];
    &&& 0 <= position < upto
    &&& is_directed(turn)
    &&& 0 <= key_exchange(key) < EXCHANGE_COUNT
    &&& turn.command@ == request_text(key_exchange(key))
    &&& turn.timestamp == request.timestamp
    &&& key == key_of(turn.peer as u64, key_exchange(key), turn.inbound == Some(true))
}

/// Whether a tie joins a request to a message that can be its reply.
pub open spec fn pairs_up(turns: Seq<Turn<'_>>, tie: Tie) -> bool {
    let request = turns[tie.request as int];
    let reply = turns[tie.reply as int];
    &&& tie.request < tie.reply < turns.len()
    &&& is_directed(request)
    &&& is_directed(reply)
    &&& request.peer == reply.peer
    &&& request.inbound != reply.inbound
    &&& exists|index: int|
        {
            &&& 0 <= index < EXCHANGE_COUNT
            &&& #[trigger] request_text(index) == request.command@
            &&& answers(index, reply.command@)
            &&& tie.elapsed_ms <= window_of(index)
        }
    &&& tie.elapsed_ms == since(reply.timestamp, request.timestamp)
}

proof fn lemma_opens(command: Seq<char>, from: int)
    requires
        0 <= from,
    ensures
        opens_from(command, from) matches Some(index) ==> from <= index < EXCHANGE_COUNT
            && request_text(index) == command,
    decreases EXCHANGE_COUNT - from,
{
    if from < EXCHANGE_COUNT {
        lemma_opens(command, from + 1);
    }
}

proof fn lemma_answered(open: OpenRequests, message: Message, upto: int)
    requires
        0 <= upto <= EXCHANGE_COUNT,
    ensures
        answered_among(open, message, upto) matches Some(index) ==> 0 <= index < upto && fits(
            open,
            message,
            index,
        ),
    decreases upto,
{
    if upto > 0 {
        lemma_answered(open, message, upto - 1);
    }
}

proof fn lemma_open_stands(turns: Seq<Turn<'_>>, upto: int)
    requires
        0 <= upto <= turns.len() <= usize::MAX,
    ensures
        forall|key: u128| #[trigger]
            open_after(turns, upto).dom().contains(key) ==> stands_for(
                turns,
                upto,
                key,
                open_after(turns, upto)[key],
            ),
    decreases upto,
{
    if upto > 0 {
        lemma_open_stands(turns, upto - 1);
        let open = open_after(turns, upto - 1);
        let turn = turns[upto - 1];
        if is_directed(turn) {
            let message = turn_message(turn, upto - 1);
            lemma_answered(open, message, EXCHANGE_COUNT as int);
            lemma_opens(message.command, 0);
            if let Some(index) = answered_by(open, message) {
                lemma_key(message.peer, index, !message.inbound);
            }
            if let Some(index) = opens(message.command) {
                lemma_key(message.peer, index, message.inbound);
            }
            assert forall|key: u128| #[trigger]
                open_after(turns, upto).dom().contains(key) implies stands_for(
                turns,
                upto,
                key,
                open_after(turns, upto)[key],
            ) by {
                if open.dom().contains(key) {
                    assert(stands_for(turns, upto - 1, key, open[key]));
                }
            }
        } else {
            assert forall|key: u128| #[trigger]
                open_after(turns, upto).dom().contains(key) implies stands_for(
                turns,
                upto,
                key,
                open_after(turns, upto)[key],
            ) by {
                assert(stands_for(turns, upto - 1, key, open[key]));
            }
        }
    }
}

/// Every tie joins a request to a later message of the same peer, sent the other
/// way, whose command answers it, inside the window; and it says how long that
/// took.
pub proof fn law_every_tie_pairs_up(turns: Seq<Turn<'_>>, upto: int)
    requires
        0 <= upto <= turns.len() <= usize::MAX,
    ensures
        forall|i: int|
            0 <= i < ties_among(turns, upto).len() ==> pairs_up(
                turns,
                #[trigger] ties_among(turns, upto)[i],
            ),
    decreases upto,
{
    if upto > 0 {
        law_every_tie_pairs_up(turns, upto - 1);
        lemma_open_stands(turns, upto - 1);
        let open = open_after(turns, upto - 1);
        let turn = turns[upto - 1];
        let message = turn_message(turn, upto - 1);
        lemma_answered(open, message, EXCHANGE_COUNT as int);
        let seen = observed(open, message);
        if is_directed(turn) && seen.answered is Some {
            let index = answered_by(open, message)->0;
            let key = key_of(message.peer, index, !message.inbound);
            lemma_key(message.peer, index, !message.inbound);
            assert(stands_for(turns, upto - 1, key, open[key]));
            let request = turns[open[key].position as int];
            lemma_key(request.peer as u64, index, request.inbound == Some(true));
            let ties = ties_among(turns, upto);
            let tie = ties[ties.len() - 1];
            assert(request_text(index) == request.command@);
            assert(pairs_up(turns, tie));
            assert forall|i: int| 0 <= i < ties.len() implies pairs_up(turns, #[trigger] ties[i]) by {
                if i < ties.len() - 1 {
                    assert(ties[i] == ties_among(turns, upto - 1)[i]);
                }
            }
        } else {
            assert(ties_among(turns, upto) == ties_among(turns, upto - 1));
        }
    }
}

/// A message answers one request at most, and ties come in the order of the
/// replies.
pub proof fn law_a_reply_is_tied_once(turns: Seq<Turn<'_>>, upto: int)
    requires
        0 <= upto <= turns.len() <= usize::MAX,
    ensures
        forall|i: int, j: int|
            #![trigger ties_among(turns, upto)[i], ties_among(turns, upto)[j]]
            0 <= i < j < ties_among(turns, upto).len() ==> ties_among(turns, upto)[i].reply
                < ties_among(turns, upto)[j].reply,
        forall|i: int|
            0 <= i < ties_among(turns, upto).len() ==> (#[trigger] ties_among(turns, upto)[i]).reply
                < upto,
    decreases upto,
{
    if upto > 0 {
        law_a_reply_is_tied_once(turns, upto - 1);
        let rest = ties_among(turns, upto - 1);
        let ties = ties_among(turns, upto);
        assert forall|i: int| 0 <= i < ties.len() implies (#[trigger] ties[i]).reply < upto by {
            if i < rest.len() {
                assert(ties[i] == rest[i]);
            }
        }
        assert forall|i: int, j: int|
            #![trigger ties[i], ties[j]]
            0 <= i < j < ties.len() implies ties[i].reply < ties[j].reply by {
            assert(ties[i] == rest[i]);
            if j < rest.len() {
                assert(ties[j] == rest[j]);
            }
        }
    }
}

/// A request that one message answers is tied to one message at most.
pub proof fn law_a_single_reply_exchange_is_answered_once(
    turns: Seq<Turn<'_>>,
    upto: int,
    i: int,
    j: int,
)
    requires
        0 <= upto <= turns.len() <= usize::MAX,
        0 <= i < j < ties_among(turns, upto).len(),
        opens(turns[ties_among(turns, upto)[i].request as int].command@) matches Some(index)
            && !is_multi(index),
    ensures
        ties_among(turns, upto)[i].request != ties_among(turns, upto)[j].request,
{
    lemma_single_replies(turns, upto);
}

/// Whether the request at `position` is of a kind one message answers.
spec fn is_single(turns: Seq<Turn<'_>>, position: int) -> bool {
    opens(turns[position].command@) matches Some(index) && !is_multi(index)
}

/// Requests have different commands, so a command that is a request opens the
/// exchange it is the request of.
proof fn lemma_requests_differ(a: int, b: int)
    requires
        0 <= a < EXCHANGE_COUNT,
        0 <= b < EXCHANGE_COUNT,
        request_text(a) == request_text(b),
    ensures
        a == b,
{
    reveal_strlit("version");
    reveal_strlit("ping");
    reveal_strlit("getaddr");
    reveal_strlit("inv");
    reveal_strlit("getdata");
    reveal_strlit("getheaders");
    reveal_strlit("getblocks");
    reveal_strlit("cmpctblock");
    reveal_strlit("getblocktxn");
    reveal_strlit("mempool");
    reveal_strlit("getcfilters");
    reveal_strlit("getcfheaders");
    reveal_strlit("getcfcheckpt");
    let x = request_text(a);
    let y = request_text(b);
    assert("version"@.len() == 7 && "getaddr"@.len() == 7 && "getdata"@.len() == 7);
    assert("mempool"@.len() == 7 && "ping"@.len() == 4 && "inv"@.len() == 3);
    assert("getheaders"@.len() == 10 && "cmpctblock"@.len() == 10 && "getblocks"@.len() == 9);
    assert("getblocktxn"@.len() == 11 && "getcfilters"@.len() == 11);
    assert("getcfheaders"@.len() == 12 && "getcfcheckpt"@.len() == 12);
    assert("getaddr"@[3] == 'a' && "getdata"@[3] == 'd');
    assert("getblocktxn"@[3] == 'b' && "getcfilters"@[3] == 'c');
    assert("getcfheaders"@[5] == 'h' && "getcfcheckpt"@[5] == 'c');
    assert("version"@[0] == 'v' && "getaddr"@[0] == 'g' && "mempool"@[0] == 'm');
    assert("getdata"@[0] == 'g');
    assert("getheaders"@[0] == 'g' && "cmpctblock"@[0] == 'c');
    assert(x.len() == y.len());
    assert(x[0] == y[0] && x[3] == y[3] && x[5] == y[5]);
}

proof fn lemma_single_replies(turns: Seq<Turn<'_>>, upto: int)
    requires
        0 <= upto <= turns.len() <= usize::MAX,
    ensures
        forall|i: int, j: int|
            #![trigger ties_among(turns, upto)[i], ties_among(turns, upto)[j]]
            0 <= i < j < ties_among(turns, upto).len() && is_single(
                turns,
                ties_among(turns, upto)[i].request as int,
            ) ==> ties_among(turns, upto)[i].request != ties_among(turns, upto)[j].request,
        forall|key: u128, i: int|
            #![trigger open_after(turns, upto).dom().contains(key), ties_among(turns, upto)[i]]
            open_after(turns, upto).dom().contains(key) && 0 <= i < ties_among(turns, upto).len()
                && is_single(turns, ties_among(turns, upto)[i].request as int) ==> ties_among(
                turns,
                upto,
            )[i].request != open_after(turns, upto)[key].position,
    decreases upto,
{
    if upto > 0 {
        lemma_single_replies(turns, upto - 1);
        lemma_open_stands(turns, upto - 1);
        law_every_tie_pairs_up(turns, upto - 1);
        law_a_reply_is_tied_once(turns, upto - 1);
        let open = open_after(turns, upto - 1);
        let rest = ties_among(turns, upto - 1);
        let ties = ties_among(turns, upto);
        let after = open_after(turns, upto);
        let turn = turns[upto - 1];
        let message = turn_message(turn, upto - 1);
        lemma_answered(open, message, EXCHANGE_COUNT as int);
        lemma_opens(message.command, 0);
        if is_directed(turn) {
            if let Some(index) = answered_by(open, message) {
                let key = key_of(message.peer, index, !message.inbound);
                lemma_key(message.peer, index, !message.inbound);
                assert(stands_for(turns, upto - 1, key, open[key]));
                let request = turns[open[key].position as int].command@;
                lemma_opens(request, 0);
                if let Some(opened) = opens(request) {
                    lemma_requests_differ(index, opened);
                }
                assert(ties.len() == rest.len() + 1);
                assert(ties[ties.len() - 1].request == open[key].position);
            }
            if let Some(index) = opens(message.command) {
                lemma_key(message.peer, index, message.inbound);
            }
            assert forall|i: int, j: int|
                #![trigger ties[i], ties[j]]
                0 <= i < j < ties.len() && is_single(turns, ties[i].request as int) implies ties[i].request
                != ties[j].request by {
                assert(ties[i] == rest[i]);
                if j < rest.len() {
                    assert(ties[j] == rest[j]);
                } else {
                    let index = answered_by(open, message)->0;
                    let key = key_of(message.peer, index, !message.inbound);
                    assert(open.dom().contains(key));
                }
            }
            assert forall|key: u128, i: int|
                #![trigger after.dom().contains(key), ties[i]]
                after.dom().contains(key) && 0 <= i < ties.len() && is_single(
                    turns,
                    ties[i].request as int,
                ) implies ties[i].request != after[key].position by {
                if i < rest.len() {
                    assert(ties[i] == rest[i]);
                    assert(pairs_up(turns, rest[i]));
                    if open.dom().contains(key) {
                        assert(rest[i].request != open[key].position);
                    }
                } else {
                    let index = answered_by(open, message)->0;
                    let answered = key_of(message.peer, index, !message.inbound);
                    assert(stands_for(turns, upto - 1, answered, open[answered]));
                    assert(!is_multi(index));
                    assert(!after_reply(open, message).dom().contains(answered));
                    if open.dom().contains(key) {
                        assert(stands_for(turns, upto - 1, key, open[key]));
                        if open[key].position == open[answered].position {
                            lemma_requests_differ(key_exchange(key), key_exchange(answered));
                            assert(key == answered);
                        }
                    }
                }
            }
        } else {
            assert(ties =~= rest);
        }
    }
}

/// Whether a message with the command `reply`, `ms` after one with the command
/// `request`, can be its reply.
pub open spec fn replies_in_time(request: Seq<char>, reply: Seq<char>, ms: int) -> bool {
    exists|index: int|
        {
            &&& 0 <= index < EXCHANGE_COUNT
            &&& #[trigger] request_text(index) == request
            &&& answers(index, reply)
            &&& ms <= window_of(index)
        }
}

/// Whether more than one message can be the reply to one with this command.
pub open spec fn has_many_replies(request: Seq<char>) -> bool {
    opens(request) matches Some(index) && is_multi(index)
}

/// Which command answers which on the wire, and for how long: a `ping` waits twenty
/// minutes for its `pong`, a `getaddr` three for addresses, a `getdata` ten for the items
/// it asked for or for `notfound`, and everything else two for its own reply.
pub proof fn law_a_request_is_answered_by_its_own_replies(
    request: Seq<char>,
    reply: Seq<char>,
    ms: int,
)
    ensures
        replies_in_time(request, reply, ms) <==> {
            ||| request == "version"@ && reply == "verack"@ && ms <= 120_000
            ||| request == "ping"@ && reply == "pong"@ && ms <= 1_200_000
            ||| request == "getaddr"@ && (reply == "addr"@ || reply == "addrv2"@) && ms <= 180_000
            ||| request == "inv"@ && reply == "getdata"@ && ms <= 120_000
            ||| request == "getdata"@ && (reply == "tx"@ || reply == "block"@ || reply
                == "merkleblock"@ || reply == "cmpctblock"@ || reply == "notfound"@) && ms
                <= 600_000
            ||| request == "getheaders"@ && reply == "headers"@ && ms <= 120_000
            ||| request == "getblocks"@ && reply == "inv"@ && ms <= 120_000
            ||| request == "cmpctblock"@ && reply == "getblocktxn"@ && ms <= 120_000
            ||| request == "getblocktxn"@ && (reply == "blocktxn"@ || reply == "notfound"@) && ms
                <= 120_000
            ||| request == "mempool"@ && reply == "inv"@ && ms <= 120_000
            ||| request == "getcfilters"@ && reply == "cfilter"@ && ms <= 120_000
            ||| request == "getcfheaders"@ && reply == "cfheaders"@ && ms <= 120_000
            ||| request == "getcfcheckpt"@ && reply == "cfcheckpt"@ && ms <= 120_000
        },
{
    lemma_answers(reply);
    assert(request_text(0) == "version"@ && request_text(1) == "ping"@);
    assert(request_text(2) == "getaddr"@ && request_text(3) == "inv"@);
    assert(request_text(4) == "getdata"@ && request_text(5) == "getheaders"@);
    assert(request_text(6) == "getblocks"@ && request_text(7) == "cmpctblock"@);
    assert(request_text(8) == "getblocktxn"@ && request_text(9) == "mempool"@);
    assert(request_text(10) == "getcfilters"@ && request_text(11) == "getcfheaders"@);
    assert(request_text(12) == "getcfcheckpt"@);
}

/// The replies of each exchange, one by one.
proof fn lemma_answers(reply: Seq<char>)
    ensures
        answers(0, reply) <==> reply == "verack"@,
        answers(1, reply) <==> reply == "pong"@,
        answers(2, reply) <==> reply == "addr"@ || reply == "addrv2"@,
        answers(3, reply) <==> reply == "getdata"@,
        answers(4, reply) <==> reply == "tx"@ || reply == "block"@ || reply == "merkleblock"@
            || reply == "cmpctblock"@ || reply == "notfound"@,
        answers(5, reply) <==> reply == "headers"@,
        answers(6, reply) <==> reply == "inv"@,
        answers(7, reply) <==> reply == "getblocktxn"@,
        answers(8, reply) <==> reply == "blocktxn"@ || reply == "notfound"@,
        answers(9, reply) <==> reply == "inv"@,
        answers(10, reply) <==> reply == "cfilter"@,
        answers(11, reply) <==> reply == "cfheaders"@,
        answers(12, reply) <==> reply == "cfcheckpt"@,
{
    assert(reply_texts(0)[0] == "verack"@);
    assert(reply_texts(1)[0] == "pong"@);
    assert(reply_texts(2)[0] == "addr"@ && reply_texts(2)[1] == "addrv2"@);
    assert(reply_texts(3)[0] == "getdata"@);
    assert(reply_texts(4)[0] == "tx"@ && reply_texts(4)[1] == "block"@);
    assert(reply_texts(4)[2] == "merkleblock"@ && reply_texts(4)[3] == "cmpctblock"@);
    assert(reply_texts(4)[4] == "notfound"@);
    assert(reply_texts(5)[0] == "headers"@);
    assert(reply_texts(6)[0] == "inv"@);
    assert(reply_texts(7)[0] == "getblocktxn"@);
    assert(reply_texts(8)[0] == "blocktxn"@ && reply_texts(8)[1] == "notfound"@);
    assert(reply_texts(9)[0] == "inv"@);
    assert(reply_texts(10)[0] == "cfilter"@);
    assert(reply_texts(11)[0] == "cfheaders"@);
    assert(reply_texts(12)[0] == "cfcheckpt"@);
}

/// What kind of request a command is: whether it opens an exchange at all, whether many
/// messages can answer it, whether it announces something, so that silence says nothing,
/// and whether several are in flight at once.
pub proof fn law_commands_open_their_exchanges(command: Seq<char>)
    ensures
        opens(command) is Some <==> {
            ||| command == "version"@ || command == "ping"@ || command == "getaddr"@
            ||| command == "inv"@ || command == "getdata"@ || command == "getheaders"@
            ||| command == "getblocks"@ || command == "cmpctblock"@ || command == "getblocktxn"@
            ||| command == "mempool"@ || command == "getcfilters"@
            ||| command == "getcfheaders"@ || command == "getcfcheckpt"@
        },
        opens(command) matches Some(index) ==> {
            &&& 0 <= index < EXCHANGE_COUNT
            &&& request_text(index) == command
            &&& is_multi(index) <==> {
                ||| command == "getaddr"@ || command == "getdata"@
                ||| command == "mempool"@ || command == "getcfilters"@
            }
            &&& is_announcement(index) <==> command == "inv"@ || command == "cmpctblock"@
            &&& is_pipelined(index) <==> command == "getdata"@
            &&& window_of(index) == (if command == "ping"@ {
                1_200_000u64
            } else if command == "getaddr"@ {
                180_000u64
            } else if command == "getdata"@ {
                600_000u64
            } else {
                120_000u64
            })
        },
        has_many_replies(command) <==> {
            ||| command == "getaddr"@ || command == "getdata"@
            ||| command == "mempool"@ || command == "getcfilters"@
        },
{
    lemma_opens(command, 0);
    assert forall|index: int| 0 <= index < EXCHANGE_COUNT implies opens(
        #[trigger] request_text(index),
    ) == Some(index) by {
        lemma_opens_itself(index, 0);
    }
    assert(request_text(0) == "version"@ && request_text(1) == "ping"@);
    assert(request_text(2) == "getaddr"@ && request_text(3) == "inv"@);
    assert(request_text(4) == "getdata"@ && request_text(5) == "getheaders"@);
    assert(request_text(6) == "getblocks"@ && request_text(7) == "cmpctblock"@);
    assert(request_text(8) == "getblocktxn"@ && request_text(9) == "mempool"@);
    assert(request_text(10) == "getcfilters"@ && request_text(11) == "getcfheaders"@);
    assert(request_text(12) == "getcfcheckpt"@);
}

/// The command of an exchange opens that exchange.
proof fn lemma_opens_itself(index: int, from: int)
    requires
        0 <= from <= index < EXCHANGE_COUNT,
    ensures
        opens_from(request_text(index), from) == Some(index),
    decreases index - from,
{
    if request_text(from) == request_text(index) {
        lemma_requests_differ(from, index);
    } else {
        lemma_opens_itself(index, from + 1);
    }
}

/// Two exchanges that share a reply: `notfound` answers a `getdata` or a `getblocktxn`,
/// and `inv` a `getblocks` or a `mempool`.
proof fn lemma_shared_replies(a: int, b: int, reply: Seq<char>)
    requires
        0 <= a < b < EXCHANGE_COUNT,
        answers(a, reply),
        answers(b, reply),
    ensures
        a == 4 && b == 8 && reply == "notfound"@ || a == 6 && b == 9 && reply == "inv"@,
{
    lemma_answers(reply);
    lemma_replies_differ();
}

/// Replies have different commands: two that are as long differ in their first letter or
/// in their third.
proof fn lemma_replies_differ()
    ensures
        "tx"@.len() == 2 && "inv"@.len() == 3 && "block"@.len() == 5 && "cmpctblock"@.len() == 10,
        "pong"@.len() == 4 && "pong"@[0] == 'p',
        "addr"@.len() == 4 && "addr"@[0] == 'a',
        "verack"@.len() == 6 && "verack"@[0] == 'v',
        "addrv2"@.len() == 6 && "addrv2"@[0] == 'a',
        "getdata"@.len() == 7 && "getdata"@[0] == 'g',
        "headers"@.len() == 7 && "headers"@[0] == 'h',
        "cfilter"@.len() == 7 && "cfilter"@[0] == 'c',
        "notfound"@.len() == 8 && "notfound"@[0] == 'n',
        "blocktxn"@.len() == 8 && "blocktxn"@[0] == 'b',
        "cfheaders"@.len() == 9 && "cfheaders"@[2] == 'h',
        "cfcheckpt"@.len() == 9 && "cfcheckpt"@[2] == 'c',
        "merkleblock"@.len() == 11 && "merkleblock"@[0] == 'm',
        "getblocktxn"@.len() == 11 && "getblocktxn"@[0] == 'g',
{
    reveal_strlit("verack");
    reveal_strlit("pong");
    reveal_strlit("addr");
    reveal_strlit("addrv2");
    reveal_strlit("getdata");
    reveal_strlit("tx");
    reveal_strlit("block");
    reveal_strlit("merkleblock");
    reveal_strlit("cmpctblock");
    reveal_strlit("notfound");
    reveal_strlit("headers");
    reveal_strlit("inv");
    reveal_strlit("getblocktxn");
    reveal_strlit("blocktxn");
    reveal_strlit("cfilter");
    reveal_strlit("cfheaders");
    reveal_strlit("cfcheckpt");
}

/// The request a message answers is the oldest of those it fits.
proof fn lemma_oldest(open: OpenRequests, message: Message, upto: int, index: int)
    requires
        0 <= index < upto <= EXCHANGE_COUNT,
        fits(open, message, index),
    ensures
        answered_among(open, message, upto) matches Some(best) && {
            let chosen = open[key_of(message.peer, best, !message.inbound)].timestamp;
            let other = open[key_of(message.peer, index, !message.inbound)].timestamp;
            chosen < other || chosen == other && best <= index
        },
    decreases upto,
{
    lemma_answered(open, message, upto - 1);
    if index < upto - 1 {
        lemma_oldest(open, message, upto - 1, index);
    }
}

/// A request stays open until another takes its place, and one that a single message
/// answers until it is tied to one.
proof fn lemma_stays_open(turns: Seq<Turn<'_>>, request: int, index: int, upto: int)
    requires
        0 <= request < upto <= turns.len() <= usize::MAX,
        0 <= index < EXCHANGE_COUNT,
        is_directed(turns[request]),
        turns[request].command@ == request_text(index),
        forall|i: int|
            request < i < upto ==> !({
                &&& (#[trigger] turns[i]).peer == turns[request].peer
                &&& turns[i].inbound == turns[request].inbound
                &&& turns[i].command@ == turns[request].command@
            }),
        is_multi(index) || forall|i: int|
            0 <= i < ties_among(turns, upto).len() ==> (#[trigger] ties_among(
                turns,
                upto,
            )[i]).request != request,
    ensures
        ({
            let key = key_of(
                turns[request].peer as u64,
                index,
                turns[request].inbound == Some(true),
            );
            let open = open_after(turns, upto);
            &&& open.dom().contains(key)
            &&& open[key].position == request
            &&& open[key].timestamp == turns[request].timestamp
        }),
    decreases upto - request,
{
    let key = key_of(turns[request].peer as u64, index, turns[request].inbound == Some(true));
    lemma_key(turns[request].peer as u64, index, turns[request].inbound == Some(true));
    let open = open_after(turns, upto - 1);
    let turn = turns[upto - 1];
    let message = turn_message(turn, upto - 1);
    lemma_opens(message.command, 0);
    lemma_answered(open, message, EXCHANGE_COUNT as int);
    if upto == request + 1 {
        lemma_opens_itself(index, 0);
    } else {
        let ties = ties_among(turns, upto);
        let rest = ties_among(turns, upto - 1);
        assert forall|i: int| 0 <= i < rest.len() implies #[trigger] rest[i] == ties[i] by {}
        lemma_stays_open(turns, request, index, upto - 1);
        if is_directed(turn) {
            if let Some(answered) = answered_by(open, message) {
                lemma_key(message.peer, answered, !message.inbound);
                if key_of(message.peer, answered, !message.inbound) == key {
                    assert(answered == index);
                    assert(ties[ties.len() - 1].request == request);
                }
            }
            if let Some(opened) = opens(message.command) {
                lemma_key(message.peer, opened, message.inbound);
                if key_of(message.peer, opened, message.inbound) == key {
                    assert(opened == index);
                    assert(turns[upto - 1].command@ == turns[request].command@);
                    assert(turns[upto - 1].inbound == turns[request].inbound);
                }
            }
        }
    }
}

/// The ties among fewer turns are the first of those among more.
proof fn lemma_ties_stay(turns: Seq<Turn<'_>>, few: int, many: int)
    requires
        few <= many,
    ensures
        ties_among(turns, few).len() <= ties_among(turns, many).len(),
        forall|i: int|
            0 <= i < ties_among(turns, few).len() ==> #[trigger] ties_among(turns, few)[i]
                == ties_among(turns, many)[i],
    decreases many - few,
{
    if few < many {
        lemma_ties_stay(turns, few, many - 1);
        let some = ties_among(turns, few);
        let most = ties_among(turns, many - 1);
        let all = ties_among(turns, many);
        assert forall|i: int| 0 <= i < some.len() implies #[trigger] some[i] == all[i] by {
            assert(some[i] == most[i]);
            assert(most[i] == all[i]);
        }
    }
}

/// What does not go the one way goes the other.
proof fn lemma_either_way(a: Turn<'_>, b: Turn<'_>, reply: Turn<'_>)
    requires
        a.inbound is Some && b.inbound is Some && reply.inbound is Some,
        a.inbound != reply.inbound,
        b.inbound != reply.inbound,
    ensures
        a.inbound == b.inbound,
        (a.inbound == Some(true)) == !(reply.inbound == Some(true)),
{
    let (x, y, z) = (a.inbound->0, b.inbound->0, reply.inbound->0);
    assert(x == y && x == !z);
}

/// A message that fits an open request gets a tie. The request at `request` is open when
/// the message at `reply` comes, the other way on the same peer and in time, if it is the
/// latest of its command and direction and many messages can answer it or none has. Then
/// that message is tied to it, or to an older open one of another command. Two of the same
/// age are answered in one order: `getdata` before `getblocktxn`, `getblocks` before
/// `mempool`.
pub proof fn law_a_fitting_reply_is_tied(turns: Seq<Turn<'_>>, request: int, reply: int)
    requires
        0 <= request < reply < turns.len() <= usize::MAX,
        turns[request].inbound is Some,
        turns[reply].inbound is Some,
        turns[request].inbound != turns[reply].inbound,
        turns[request].peer == turns[reply].peer,
        turns[reply].peer != u32::MAX,
        replies_in_time(
            turns[request].command@,
            turns[reply].command@,
            turns[reply].timestamp - turns[request].timestamp,
        ),
        forall|i: int|
            request < i < reply ==> !({
                &&& (#[trigger] turns[i]).peer == turns[request].peer
                &&& turns[i].inbound == turns[request].inbound
                &&& turns[i].command@ == turns[request].command@
            }),
        has_many_replies(turns[request].command@) || forall|i: int|
            0 <= i < ties_among(turns, reply).len() ==> (#[trigger] ties_among(
                turns,
                reply,
            )[i]).request != request,
    ensures
        exists|i: int|
            0 <= i < ties_among(turns, turns.len() as int).len() && {
                let tie = #[trigger] ties_among(turns, turns.len() as int)[i];
                let (asked, tied) = (turns[request], turns[tie.request as int]);
                &&& tie.reply == reply
                &&& tie.request < reply
                &&& tie.request == request || tied.command@ != asked.command@ && (tied.timestamp
                    < asked.timestamp || tied.timestamp == asked.timestamp && (asked.command@
                    == "getblocktxn"@ && tied.command@ == "getdata"@ || asked.command@
                    == "mempool"@ && tied.command@ == "getblocks"@))
            },
{
    let asked = turns[request];
    let index = choose|index: int|
        {
            &&& 0 <= index < EXCHANGE_COUNT
            &&& #[trigger] request_text(index) == asked.command@
            &&& answers(index, turns[reply].command@)
            &&& turns[reply].timestamp - asked.timestamp <= window_of(index)
        };
    lemma_opens_itself(index, 0);
    lemma_stays_open(turns, request, index, reply);
    let open = open_after(turns, reply);
    let message = turn_message(turns[reply], reply);
    lemma_either_way(asked, asked, turns[reply]);
    assert(fits(open, message, index));
    lemma_oldest(open, message, EXCHANGE_COUNT as int, index);
    lemma_answered(open, message, EXCHANGE_COUNT as int);
    lemma_open_stands(turns, reply);
    let best = answered_by(open, message)->0;
    let key = key_of(message.peer, best, !message.inbound);
    lemma_key(message.peer, best, !message.inbound);
    lemma_key(message.peer, index, !message.inbound);
    assert(stands_for(turns, reply, key, open[key]));
    let ties = ties_among(turns, reply + 1);
    let last = ties.len() - 1;
    let tie = ties[last];
    assert(tie.reply == reply && tie.request == open[key].position);
    lemma_ties_stay(turns, reply + 1, turns.len() as int);
    let tied = turns[tie.request as int];
    if best != index {
        if tied.command@ == asked.command@ {
            lemma_requests_differ(best, index);
        }
        if best < index {
            lemma_shared_replies(best, index, message.command);
        }
    }
    assert(ties_among(turns, turns.len() as int)[last] == tie);
}

/// What a `getdata` asked for is tied to it: a `tx`, `block`, `merkleblock` or
/// `cmpctblock` that comes the other way on the same peer, ten minutes after it at most
/// and with no other `getdata` between, and a `notfound`, unless an older `getblocktxn`
/// could have been what it answers. The tie says how many milliseconds later it came.
pub proof fn law_a_getdata_is_tied_to_what_it_asked_for(
    turns: Seq<Turn<'_>>,
    request: int,
    reply: int,
)
    requires
        0 <= request < reply < turns.len() <= usize::MAX,
        turns[request].inbound is Some,
        turns[reply].inbound is Some,
        turns[request].inbound != turns[reply].inbound,
        turns[request].peer == turns[reply].peer,
        turns[reply].peer != u32::MAX,
        turns[request].command@ == "getdata"@,
        turns[reply].command@ == "tx"@ || turns[reply].command@ == "block"@
            || turns[reply].command@ == "merkleblock"@ || turns[reply].command@ == "cmpctblock"@
            || turns[reply].command@ == "notfound"@,
        turns[reply].timestamp - turns[request].timestamp <= 600_000,
        forall|i: int|
            request < i < reply ==> !({
                &&& (#[trigger] turns[i]).peer == turns[request].peer
                &&& turns[i].inbound == turns[request].inbound
                &&& turns[i].command@ == "getdata"@
            }),
        turns[reply].command@ == "notfound"@ ==> forall|i: int|
            0 <= i < reply && (#[trigger] turns[i]).peer == turns[request].peer && turns[i].inbound
                == turns[request].inbound && turns[i].command@ == "getblocktxn"@
                ==> turns[i].timestamp >= turns[request].timestamp,
    ensures
        exists|i: int|
            0 <= i < ties_among(turns, turns.len() as int).len() && {
                let tie = #[trigger] ties_among(turns, turns.len() as int)[i];
                let ms = turns[reply].timestamp - turns[request].timestamp;
                &&& tie.reply == reply
                &&& tie.request == request
                &&& tie.elapsed_ms == (if ms >= 0 {
                    ms
                } else {
                    0
                })
            },
{
    let ms = turns[reply].timestamp - turns[request].timestamp;
    let sent = turns[reply].command@;
    law_a_request_is_answered_by_its_own_replies("getdata"@, sent, ms);
    law_commands_open_their_exchanges("getdata"@);
    law_a_fitting_reply_is_tied(turns, request, reply);
    law_every_tie_pairs_up(turns, turns.len() as int);
    let ties = ties_among(turns, turns.len() as int);
    let i = choose|i: int|
        0 <= i < ties.len() && {
            let tie = #[trigger] ties[i];
            let (asked, tied) = (turns[request], turns[tie.request as int]);
            &&& tie.reply == reply
            &&& tie.request < reply
            &&& tie.request == request || tied.command@ != asked.command@ && (tied.timestamp
                < asked.timestamp || tied.timestamp == asked.timestamp && (asked.command@
                == "getblocktxn"@ && tied.command@ == "getdata"@ || asked.command@ == "mempool"@
                && tied.command@ == "getblocks"@))
        };
    let tie = ties[i];
    assert(pairs_up(turns, tie));
    let tied = turns[tie.request as int];
    lemma_replies_differ();
    assert("getdata"@ != "getblocktxn"@ && "getdata"@ != "mempool"@) by {
        reveal_strlit("getdata");
        reveal_strlit("getblocktxn");
        reveal_strlit("mempool");
        assert("getdata"@[0] == 'g' && "mempool"@[0] == 'm');
    }
    if tie.request != request {
        law_a_request_is_answered_by_its_own_replies(
            tied.command@,
            sent,
            tie.elapsed_ms as int,
        );
        assert(replies_in_time(tied.command@, sent, tie.elapsed_ms as int));
        assert(sent == "notfound"@ && tied.command@ == "getblocktxn"@);
        assert(tied.inbound == turns[request].inbound) by {
            lemma_either_way(tied, turns[request], turns[reply]);
        }
        assert(turns[tie.request as int].timestamp >= turns[request].timestamp);
    }
}

/// A tie joins the latest request of its command: the same peer sent no other with that
/// command and in that direction between the two messages. It joins messages of one peer,
/// one each way, and it is as long as their timestamps are apart.
pub proof fn law_a_tie_is_to_the_latest_request(turns: Seq<Turn<'_>>, i: int)
    requires
        turns.len() <= usize::MAX,
        0 <= i < ties_among(turns, turns.len() as int).len(),
    ensures
        ({
            let tie = ties_among(turns, turns.len() as int)[i];
            let request = turns[tie.request as int];
            let reply = turns[tie.reply as int];
            let ms = reply.timestamp - request.timestamp;
            &&& 0 <= tie.request < tie.reply < turns.len()
            &&& request.inbound is Some && reply.inbound is Some
            &&& request.inbound != reply.inbound
            &&& request.peer == reply.peer && reply.peer != u32::MAX
            &&& replies_in_time(request.command@, reply.command@, ms)
            &&& tie.elapsed_ms == (if ms >= 0 {
                ms
            } else {
                0
            })
            &&& forall|k: int|
                tie.request < k < tie.reply ==> !({
                    &&& (#[trigger] turns[k]).peer == request.peer
                    &&& turns[k].inbound == request.inbound
                    &&& turns[k].command@ == request.command@
                })
        }),
{
    law_every_tie_pairs_up(turns, turns.len() as int);
    lemma_latest(turns, turns.len() as int);
    let tie = ties_among(turns, turns.len() as int)[i];
    let request = turns[tie.request as int];
    let reply = turns[tie.reply as int];
    assert(pairs_up(turns, tie));
    let index = choose|index: int|
        {
            &&& 0 <= index < EXCHANGE_COUNT
            &&& #[trigger] request_text(index) == request.command@
            &&& answers(index, reply.command@)
            &&& tie.elapsed_ms <= window_of(index)
        };
    assert(request_text(index) == request.command@);
    assert(is_latest(turns, tie.request as int, tie.reply as int));
}

/// Whether no other turn of that command, peer and direction stands between the two.
spec fn is_latest(turns: Seq<Turn<'_>>, request: int, upto: int) -> bool {
    forall|k: int|
        request < k < upto ==> !({
            &&& (#[trigger] turns[k]).peer == turns[request].peer
            &&& turns[k].inbound == turns[request].inbound
            &&& turns[k].command@ == turns[request].command@
        })
}

proof fn lemma_latest(turns: Seq<Turn<'_>>, upto: int)
    requires
        0 <= upto <= turns.len() <= usize::MAX,
    ensures
        forall|key: u128| #[trigger]
            open_after(turns, upto).dom().contains(key) ==> is_latest(
                turns,
                open_after(turns, upto)[key].position as int,
                upto,
            ),
        forall|i: int|
            0 <= i < ties_among(turns, upto).len() ==> is_latest(
                turns,
                (#[trigger] ties_among(turns, upto)[i]).request as int,
                ties_among(turns, upto)[i].reply as int,
            ),
    decreases upto,
{
    if upto > 0 {
        lemma_latest(turns, upto - 1);
        lemma_open_stands(turns, upto - 1);
        let open = open_after(turns, upto - 1);
        let after = open_after(turns, upto);
        let rest = ties_among(turns, upto - 1);
        let ties = ties_among(turns, upto);
        let turn = turns[upto - 1];
        let message = turn_message(turn, upto - 1);
        lemma_answered(open, message, EXCHANGE_COUNT as int);
        lemma_opens(message.command, 0);
        assert forall|key: u128| #[trigger] after.dom().contains(key) implies is_latest(
            turns,
            after[key].position as int,
            upto,
        ) by {
            let opened = opens(message.command);
            let fresh = is_directed(turn) && opened is Some && key == key_of(
                message.peer,
                opened->0,
                message.inbound,
            );
            if !fresh {
                assert(open.dom().contains(key));
                assert(after[key].position == open[key].position);
                assert(stands_for(turns, upto - 1, key, open[key]));
                let request = turns[open[key].position as int];
                let index = key_exchange(key);
                lemma_opens_itself(index, 0);
                if turn.peer == request.peer && turn.inbound == request.inbound
                    && turn.command@ == request.command@ {
                    assert(opened == Some(index));
                }
                assert(is_latest(turns, open[key].position as int, upto - 1));
            }
        }
        assert forall|i: int| 0 <= i < ties.len() implies is_latest(
            turns,
            (#[trigger] ties[i]).request as int,
            ties[i].reply as int,
        ) by {
            if i < rest.len() {
                assert(ties[i] == rest[i]);
            } else {
                let index = answered_by(open, message)->0;
                let key = key_of(message.peer, index, !message.inbound);
                assert(open.dom().contains(key));
            }
        }
    }
}

/// A request that a single message answers is tied once: only `getaddr`, `getdata`,
/// `mempool` and `getcfilters` are tied to several messages.
pub proof fn law_most_requests_are_tied_once(turns: Seq<Turn<'_>>, i: int, j: int)
    requires
        turns.len() <= usize::MAX,
        0 <= i < j < ties_among(turns, turns.len() as int).len(),
        ties_among(turns, turns.len() as int)[i].request == ties_among(
            turns,
            turns.len() as int,
        )[j].request,
    ensures
        ({
            let command = turns[ties_among(turns, turns.len() as int)[i].request as int].command@;
            ||| command == "getaddr"@ || command == "getdata"@
            ||| command == "mempool"@ || command == "getcfilters"@
        }),
{
    let command = turns[ties_among(turns, turns.len() as int)[i].request as int].command@;
    law_a_tie_is_to_the_latest_request(turns, i);
    law_commands_open_their_exchanges(command);
    let tie = ties_among(turns, turns.len() as int)[i];
    let reply = turns[tie.reply as int];
    law_a_request_is_answered_by_its_own_replies(
        command,
        reply.command@,
        reply.timestamp - turns[tie.request as int].timestamp,
    );
    if !has_many_replies(command) {
        law_a_single_reply_exchange_is_answered_once(turns, turns.len() as int, i, j);
    }
}

/// What a message answers, said of the requests open before it: the oldest of those that
/// went the other way on its peer, that its command answers and that are not past their
/// time; where two are of an age, the one of the first exchange. It answers nothing only
/// where there is none. It takes the place of an open request of its own command and
/// direction, which counts as unanswered unless it had a reply, announced something or is
/// one of several in flight.
pub proof fn law_a_message_answers_the_oldest_request(open: OpenRequests, message: Message)
    ensures
        ({
            let seen = observed(open, message);
            &&& seen.answered is Some <==> exists|index: int|
                0 <= index < EXCHANGE_COUNT && #[trigger] waits_for(open, message, index)
            &&& seen.answered matches Some(answered) ==> {
                let index = answered.exchange as int;
                let request = open[key_of(message.peer, index, !message.inbound)];
                let ms = message.timestamp - request.timestamp;
                &&& 0 <= index < EXCHANGE_COUNT
                &&& waits_for(open, message, index)
                &&& answered.position == request.position
                &&& answered.elapsed_ms == (if ms >= 0 {
                    ms
                } else {
                    0
                })
                &&& seen.first_reply == !request.answered
                &&& forall|other: int|
                    0 <= other < EXCHANGE_COUNT && #[trigger] waits_for(open, message, other) ==> {
                        let age = open[key_of(message.peer, other, !message.inbound)].timestamp;
                        request.timestamp < age || request.timestamp == age && index <= other
                    }
            }
            &&& seen.answered is None ==> !seen.first_reply
            &&& match seen.opened {
                Some(index) => opens(message.command) == Some(index as int),
                None => opens(message.command) is None,
            }
            &&& seen.displaced is Some <==> {
                let own = key_of(message.peer, opens(message.command)->0, message.inbound);
                &&& opens(message.command) is Some
                &&& message.command != "inv"@
                &&& message.command != "cmpctblock"@
                &&& message.command != "getdata"@
                &&& open.dom().contains(own)
                &&& !open[own].answered
            }
            &&& seen.displaced matches Some(silent) ==> Some(silent.exchange) == seen.opened
                && silent.request_inbound == message.inbound
        }),
{
    lemma_answered(open, message, EXCHANGE_COUNT as int);
    lemma_opens(message.command, 0);
    law_commands_open_their_exchanges(message.command);
    assert forall|index: int| 0 <= index < EXCHANGE_COUNT implies #[trigger] waits_for(
        open,
        message,
        index,
    ) == fits(open, message, index) by {}
    assert forall|other: int|
        0 <= other < EXCHANGE_COUNT && #[trigger] waits_for(
            open,
            message,
            other,
        ) implies answered_by(open, message) matches Some(best) && {
        let chosen = open[key_of(message.peer, best, !message.inbound)].timestamp;
        let age = open[key_of(message.peer, other, !message.inbound)].timestamp;
        chosen < age || chosen == age && best <= other
    } by {
        lemma_oldest(open, message, EXCHANGE_COUNT as int, other);
    }
    if let Some(best) = answered_by(open, message) {
        lemma_key(message.peer, best, !message.inbound);
        assert(waits_for(open, message, best));
    }
    if let Some(index) = opens(message.command) {
        lemma_key(message.peer, index, message.inbound);
    }
}

/// Whether a request of exchange `index` is open on the peer of a message, sent the other
/// way, that it can be the reply to and that it comes in time for.
pub open spec fn waits_for(open: OpenRequests, message: Message, index: int) -> bool {
    let key = key_of(message.peer, index, !message.inbound);
    &&& open.dom().contains(key)
    &&& answers(index, message.command)
    &&& message.timestamp - open[key].timestamp <= window_of(index)
}

/// What is open after a message: the request it is, as new, and every request that was
/// open before it, but for one that a single message answers and it did. One that many
/// can answer stays, as answered.
pub proof fn law_a_message_closes_what_it_answers(
    open: OpenRequests,
    message: Message,
    key: u128,
)
    ensures
        ({
            let after = after_message(open, message);
            let seen = observed(open, message);
            let own = seen.opened is Some && key == key_of(
                message.peer,
                seen.opened->0 as int,
                message.inbound,
            );
            let closed = seen.answered is Some && key == key_of(
                message.peer,
                seen.answered->0.exchange as int,
                !message.inbound,
            );
            let many = has_many_replies(request_text(seen.answered->0.exchange as int));
            &&& after.dom().contains(key) <==> own || open.dom().contains(key) && (!closed || many)
            &&& own ==> after[key].timestamp == message.timestamp && after[key].position
                == message.position && !after[key].answered
            &&& !own && after.dom().contains(key) ==> after[key].timestamp == open[key].timestamp
                && after[key].position == open[key].position && after[key].answered == (
            open[key].answered || closed)
        }),
{
    lemma_answered(open, message, EXCHANGE_COUNT as int);
    lemma_opens(message.command, 0);
    if let Some(best) = answered_by(open, message) {
        lemma_key(message.peer, best, !message.inbound);
        lemma_opens_itself(best, 0);
    }
    if let Some(index) = opens(message.command) {
        lemma_key(message.peer, index, message.inbound);
    }
}

/// What a message opens and answers are exchanges there are.
pub proof fn lemma_indices(open: OpenRequests, message: Message)
    ensures
        opens(message.command) matches Some(index) ==> 0 <= index < EXCHANGE_COUNT,
        answered_by(open, message) matches Some(index) ==> 0 <= index < EXCHANGE_COUNT,
{
    lemma_opens(message.command, 0);
    lemma_answered(open, message, EXCHANGE_COUNT as int);
}

/// The open requests of an exchange that have had no reply yet.
pub open spec fn waiting(open: OpenRequests, index: int) -> Set<u128> {
    open.dom().filter(|key: u128| key_exchange(key) == index && !open[key].answered)
}

/// A message answers a request of its exchange for the first time exactly where one
/// fewer is left waiting.
pub proof fn lemma_a_reply_ends_one_wait(open: OpenRequests, message: Message, index: int)
    requires
        well_keyed(open),
    ensures
        well_keyed(after_reply(open, message)),
        waiting(after_reply(open, message), index).len() + (if answered_by(open, message) == Some(
            index,
        ) && observed(open, message).first_reply {
            1int
        } else {
            0int
        }) == waiting(open, index).len(),
{
    lemma_answered(open, message, EXCHANGE_COUNT as int);
    let after = after_reply(open, message);
    if let Some(found) = answered_by(open, message) {
        let key = key_of(message.peer, found, !message.inbound);
        lemma_key(message.peer, found, !message.inbound);
        assert(open.dom().contains(key));
        if found == index && !open[key].answered {
            assert(waiting(after, index) =~= waiting(open, index).remove(key));
            assert(waiting(open, index).contains(key));
        } else {
            assert(waiting(after, index) =~= waiting(open, index));
        }
    }
}

/// A message that opens a request leaves one more waiting, unless it takes the
/// place of one that was.
pub proof fn lemma_a_request_starts_one_wait(open: OpenRequests, message: Message, index: int)
    requires
        well_keyed(open),
    ensures
        ({
            let mid = after_reply(open, message);
            let after = after_message(open, message);
            let key = key_of(message.peer, index, message.inbound);
            &&& well_keyed(after)
            &&& waiting(after, index).len() == waiting(mid, index).len() + (if opens(
                message.command,
            ) == Some(index) && !(mid.dom().contains(key) && !mid[key].answered) {
                1int
            } else {
                0int
            })
        }),
{
    lemma_a_reply_ends_one_wait(open, message, index);
    lemma_opens(message.command, 0);
    let mid = after_reply(open, message);
    let after = after_message(open, message);
    if let Some(found) = opens(message.command) {
        let key = key_of(message.peer, found, message.inbound);
        lemma_key(message.peer, found, message.inbound);
        assert(after.dom() =~= mid.dom().insert(key));
        if found == index {
            if mid.dom().contains(key) && !mid[key].answered {
                assert(waiting(after, index) =~= waiting(mid, index));
            } else {
                assert(waiting(after, index) =~= waiting(mid, index).insert(key));
                assert(!waiting(mid, index).contains(key));
            }
        } else {
            assert(waiting(after, index) =~= waiting(mid, index));
        }
    }
}

/// A sweep counts no request that still waits, and none twice.
pub proof fn lemma_a_sweep_ends_the_waits_it_counts(open: OpenRequests, now: u64, index: int)
    requires
        well_keyed(open),
    ensures
        well_keyed(after_sweep(open, now)),
        waiting(after_sweep(open, now), index).len() + silent_count(open, now, index, true)
            + silent_count(open, now, index, false) <= waiting(open, index).len(),
{
    let left = waiting(after_sweep(open, now), index);
    let ours = open.dom().filter(|key: u128| timed_out(open, now, key, index, true));
    let theirs = open.dom().filter(|key: u128| timed_out(open, now, key, index, false));
    let all = waiting(open, index);
    let in_time = open.dom().filter(|key: u128| !expired(key, open[key], now));
    assert(after_sweep(open, now).dom() =~= in_time);
    assert(ours.disjoint(theirs));
    assert(left.disjoint(ours + theirs));
    vstd::set_lib::lemma_set_disjoint_lens(ours, theirs);
    vstd::set_lib::lemma_set_disjoint_lens(left, ours + theirs);
    assert((left + (ours + theirs)).subset_of(all));
    vstd::set_lib::lemma_len_subset(left + (ours + theirs), all);
}

} // verus!
