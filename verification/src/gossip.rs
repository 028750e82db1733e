//! What a run of messages says about relay, told by its hashes and timestamps alone.
//!
//! A relay table keeps an item under a short key and its time as an offset, and counts as
//! messages come in. Here stands what its figures mean: which announcement of an item was
//! the first, how long after it every other one came, and how long after it the item was
//! delivered, in the milliseconds between the timestamps of the messages.

use crate::latency;
use crate::proto::{InventoryItem, Item, MessageEvent, Msg};
use crate::relay;
use crate::relay::{Race, Scorecard};
use vstd::prelude::*;

verus! {

/// One thing a peer told this node about a transaction. An item is the first eight bytes
/// of a hash.
pub enum Said {
    Announced { at: u64, peer: u64, item: Seq<u8> },
    Delivered { at: u64, peer: u64, txid: Seq<u8>, wtxid: Option<Seq<u8>>, size: u64 },
}

/// The first eight bytes of a hash, if it has as many.
pub open spec fn front(hash: Seq<u8>) -> Option<Seq<u8>> {
    if hash.len() < 8 {
        None
    } else {
        Some(hash.take(8))
    }
}

/// The transaction an inventory item names.
pub open spec fn named(item: InventoryItem) -> Option<Seq<u8>> {
    match item.item {
        Some(Item::Transaction(hash)) => front(hash@),
        Some(Item::Wtx(hash)) => front(hash@),
        Some(Item::WitnessTransaction(hash)) => front(hash@),
        _ => None,
    }
}

/// What the first `upto` of some inventory items announce.
pub open spec fn announced_in(
    at: u64,
    peer: u64,
    items: Seq<InventoryItem>,
    upto: int,
) -> Seq<Said>
    decreases upto,
{
    if upto <= 0 {
        Seq::empty()
    } else {
        let rest = announced_in(at, peer, items, upto - 1);
        match named(items[upto - 1]) {
            Some(item) => rest.push(Said::Announced { at, peer, item }),
            None => rest,
        }
    }
}

/// What one message says. Only what a peer sent says anything.
pub open spec fn said_by(at: u64, event: MessageEvent) -> Seq<Said> {
    match event.msg {
        Some(Msg::Inv(inv)) if event.meta.inbound => announced_in(
            at,
            event.meta.peer_id,
            inv.items@,
            inv.items@.len() as int,
        ),
        Some(Msg::Tx(tx)) if event.meta.inbound => match front(tx.tx.txid@) {
            Some(txid) => seq![
                Said::Delivered {
                    at,
                    peer: event.meta.peer_id,
                    txid,
                    wtxid: front(tx.tx.wtxid@),
                    size: event.meta.size,
                },
            ],
            None => Seq::empty(),
        },
        _ => Seq::empty(),
    }
}

/// What a run of messages says, in order.
pub open spec fn said(run: Seq<(u64, MessageEvent)>) -> Seq<Said>
    decreases run.len(),
{
    if run.len() == 0 {
        Seq::empty()
    } else {
        said(run.drop_last()) + said_by(run.last().0, run.last().1)
    }
}

/// When an item was first announced.
pub open spec fn first_heard(words: Seq<Said>, item: Seq<u8>) -> Option<u64>
    decreases words.len(),
{
    if words.len() == 0 {
        None
    } else {
        match (first_heard(words.drop_last(), item), words.last()) {
            (Some(at), _) => Some(at),
            (None, Said::Announced { at, item: other, .. }) if other == item => Some(at),
            _ => None,
        }
    }
}

/// Whether an item was announced, or delivered under this hash.
pub open spec fn known(words: Seq<Said>, item: Seq<u8>) -> bool
    decreases words.len(),
{
    words.len() > 0 && {
        let rest = words.drop_last();
        known(rest, item) || match words.last() {
            Said::Announced { item: other, .. } => item == other,
            Said::Delivered { txid, wtxid, .. } => item == if known(rest, txid) {
                txid
            } else if wtxid is Some && known(rest, wtxid->0) {
                wtxid->0
            } else {
                txid
            },
        }
    }
}

/// The hash a delivered transaction goes by: its txid if that is known, else its wtxid if
/// that is, else its txid.
pub open spec fn went_by(words: Seq<Said>, txid: Seq<u8>, wtxid: Option<Seq<u8>>) -> Seq<u8> {
    if known(words, txid) {
        txid
    } else if wtxid is Some && known(words, wtxid->0) {
        wtxid->0
    } else {
        txid
    }
}

/// Whether an item was delivered.
pub open spec fn held(words: Seq<Said>, item: Seq<u8>) -> bool
    decreases words.len(),
{
    words.len() > 0 && (held(words.drop_last(), item) || match words.last() {
        Said::Announced { .. } => false,
        Said::Delivered { txid, wtxid, .. } => item == went_by(words.drop_last(), txid, wtxid),
    })
}

/// How long after `then` this is, in milliseconds, or nothing if it is not.
pub open spec fn later_by(at: u64, then: u64) -> u64 {
    if at >= then {
        (at - then) as u64
    } else {
        0
    }
}

/// Whether a peer is the one asked for, or none in particular is.
pub open spec fn is_of(who: Option<u64>, peer: u64) -> bool {
    who is None || who == Some(peer)
}

/// How long after the first announcement of their item the other announcements came.
pub open spec fn lags(words: Seq<Said>, who: Option<u64>) -> Seq<u64>
    decreases words.len(),
{
    if words.len() == 0 {
        Seq::empty()
    } else {
        let rest = words.drop_last();
        match words.last() {
            Said::Announced { at, peer, item } if is_of(who, peer) && first_heard(
                rest,
                item,
            ) is Some => lags(rest, who).push(later_by(at, first_heard(rest, item)->0)),
            _ => lags(rest, who),
        }
    }
}

/// How long after the first announcement of their item the first deliveries came.
pub open spec fn waits(words: Seq<Said>, who: Option<u64>) -> Seq<u64>
    decreases words.len(),
{
    if words.len() == 0 {
        Seq::empty()
    } else {
        let rest = words.drop_last();
        match words.last() {
            Said::Delivered { at, peer, txid, wtxid, .. } if is_of(who, peer) && !held(
                rest,
                went_by(rest, txid, wtxid),
            ) && first_heard(rest, went_by(rest, txid, wtxid)) is Some => waits(rest, who).push(
                later_by(at, first_heard(rest, went_by(rest, txid, wtxid))->0),
            ),
            _ => waits(rest, who),
        }
    }
}

/// How many announcements were the first of their item.
pub open spec fn firsts(words: Seq<Said>, who: Option<u64>) -> nat
    decreases words.len(),
{
    if words.len() == 0 {
        0
    } else {
        let rest = words.drop_last();
        firsts(rest, who) + match words.last() {
            Said::Announced { peer, item, .. } if is_of(who, peer) && first_heard(
                rest,
                item,
            ) is None => 1nat,
            _ => 0nat,
        }
    }
}

/// How many transactions were delivered.
pub open spec fn handed_over(words: Seq<Said>, who: Option<u64>) -> nat
    decreases words.len(),
{
    if words.len() == 0 {
        0
    } else {
        handed_over(words.drop_last(), who) + match words.last() {
            Said::Delivered { peer, .. } if is_of(who, peer) => 1nat,
            _ => 0nat,
        }
    }
}

/// The sizes of the transactions that were delivered once more.
pub open spec fn repeats(words: Seq<Said>, who: Option<u64>) -> Seq<u64>
    decreases words.len(),
{
    if words.len() == 0 {
        Seq::empty()
    } else {
        let rest = words.drop_last();
        match words.last() {
            Said::Delivered { peer, txid, wtxid, size, .. } if is_of(who, peer) && held(
                rest,
                went_by(rest, txid, wtxid),
            ) => repeats(rest, who).push(size),
            _ => repeats(rest, who),
        }
    }
}

/// Some numbers added up.
pub open spec fn total(numbers: Seq<u64>) -> nat
    decreases numbers.len(),
{
    if numbers.len() == 0 {
        0
    } else {
        total(numbers.drop_last()) + numbers.last() as nat
    }
}

/// The record that what was said makes for a peer, or for all of them. Counts are held at
/// the largest a `u64` can carry.
pub open spec fn earned(words: Seq<Said>, who: Option<u64>) -> Scorecard {
    Scorecard {
        first: latency::capped(firsts(words, who) as int, 0),
        late: latency::capped(lags(words, who).len() as int, 0),
        lag: latency::recorded(lags(words, who)),
        delivered: latency::capped(handed_over(words, who) as int, 0),
        duplicate: latency::capped(repeats(words, who).len() as int, 0),
        duplicate_bytes: latency::capped(total(repeats(words, who)) as int, 0),
        heard_to_held: latency::recorded(waits(words, who)),
    }
}

/// Whether a message can say anything about relay: what a peer announced, or a transaction
/// it delivered and whose hash is there.
pub open spec fn relays(event: MessageEvent) -> bool {
    event.meta.inbound && match event.msg {
        Some(Msg::Inv(_)) => true,
        Some(Msg::Tx(tx)) => tx.tx.txid@.len() >= 8,
        _ => false,
    }
}

/// When a run first had a message that can say something about relay.
pub open spec fn began(run: Seq<(u64, MessageEvent)>) -> Option<u64>
    decreases run.len(),
{
    if run.len() == 0 {
        None
    } else {
        match began(run.drop_last()) {
            Some(at) => Some(at),
            None => if relays(run.last().1) {
                Some(run.last().0)
            } else {
                None
            },
        }
    }
}

/// Whether the clock of a relay table can tell the messages of a run apart: none comes
/// before the first, nor longer after it than a `u32` holds in milliseconds.
pub open spec fn on_the_clock(run: Seq<(u64, MessageEvent)>) -> bool {
    forall|i: int|
        0 <= i < run.len() && relays((#[trigger] run[i]).1) ==> began(run)->0 <= run[i].0
            <= began(run)->0 + u32::MAX
}

/// The key of an item.
spec fn key_of(item: Seq<u8>) -> u64 {
    relay::prefix_of(item)->0
}

/// Items have different keys.
proof fn lemma_keys_differ(a: Seq<u8>, b: Seq<u8>)
    requires
        a.len() == 8,
        b.len() == 8,
        key_of(a) == key_of(b),
    ensures
        a == b,
{
    let x7 = a[7] as int;
    let x6 = a[6] + 0x100 * x7;
    let x5 = a[5] + 0x100 * x6;
    let x4 = a[4] + 0x100 * x5;
    let x3 = a[3] + 0x100 * x4;
    let x2 = a[2] + 0x100 * x3;
    let x1 = a[1] + 0x100 * x2;
    let y7 = b[7] as int;
    let y6 = b[6] + 0x100 * y7;
    let y5 = b[5] + 0x100 * y6;
    let y4 = b[4] + 0x100 * y5;
    let y3 = b[3] + 0x100 * y4;
    let y2 = b[2] + 0x100 * y3;
    let y1 = b[1] + 0x100 * y2;
    assert(key_of(a) == a[0] + 0x100 * x1 && key_of(b) == b[0] + 0x100 * y1);
    lemma_lowest(a[0], x1, b[0], y1);
    lemma_lowest(a[1], x2, b[1], y2);
    lemma_lowest(a[2], x3, b[2], y3);
    lemma_lowest(a[3], x4, b[3], y4);
    lemma_lowest(a[4], x5, b[4], y5);
    lemma_lowest(a[5], x6, b[5], y6);
    lemma_lowest(a[6], x7, b[6], y7);
    assert(a =~= b);
}

/// Equal numbers have the same last byte.
proof fn lemma_lowest(a: u8, x: int, b: u8, y: int)
    requires
        a + 0x100 * x == b + 0x100 * y,
    ensures
        a == b,
        x == y,
{
}

/// The front of a hash has the key of the hash.
proof fn lemma_front(hash: Seq<u8>)
    requires
        hash.len() >= 8,
    ensures
        relay::prefix_of(hash) == Some(key_of(hash.take(8))),
        hash.take(8).len() == 8,
{
    let item = hash.take(8);
    assert(item[0] == hash[0] && item[1] == hash[1] && item[2] == hash[2] && item[3] == hash[3]);
    assert(item[4] == hash[4] && item[5] == hash[5] && item[6] == hash[6] && item[7] == hash[7]);
}

/// Whether the table knows of an item what was said of it.
spec fn keeps(race: Race, words: Seq<Said>, item: Seq<u8>) -> bool {
    let key = key_of(item);
    let entry = race.items[key];
    &&& race.items.dom().contains(key) <==> known(words, item)
    &&& known(words, item) ==> (entry.announcements > 0 <==> first_heard(words, item) is Some)
    &&& known(words, item) ==> (entry.deliveries > 0 <==> held(words, item))
    &&& !known(words, item) ==> first_heard(words, item) is None && !held(words, item)
    &&& first_heard(words, item) matches Some(then) ==> race.origin is Some && race.origin->0
        <= then && entry.first_ms == then - race.origin->0
}

/// Whether the table is what was said.
spec fn tells(race: Race, words: Seq<Said>) -> bool {
    let all = earned(words, None);
    &&& race.valid()
    &&& race.items.dom().len() <= words.len()
    &&& forall|item: Seq<u8>| item.len() == 8 ==> #[trigger] keeps(race, words, item)
    &&& forall|who: u64| #[trigger]
        relay::record_of(race.peers, who) == earned(words, Some(who))
    &&& race.announcements == latency::capped((firsts(words, None) + lags(words, None).len()) as int, 0)
    &&& race.deliveries == all.delivered
    &&& race.late_announcements == all.late
    &&& race.lag == all.lag
    &&& race.duplicate_deliveries == all.duplicate
    &&& race.duplicate_bytes == all.duplicate_bytes
    &&& race.heard_to_held == all.heard_to_held
}

/// A peer's record is its own: replacing one leaves the others alone.
proof fn lemma_records(race: Race, id: u64, record: Scorecard, who: u64)
    requires
        race.valid(),
    ensures
        relay::record_of(relay::peers_with(race.peers, id, record), who) == (if who == id {
            record
        } else {
            relay::record_of(race.peers, who)
        }),
        race.with_record(id, record).valid(),
{
    let peers = race.peers;
    let after = relay::peers_with(peers, id, record);
    let place = relay::record_place(peers, id);
    if place is Some {
        assert(exists|at: int| relay::recorded_at(peers, id, at));
        assert(relay::recorded_at(peers, id, place->0));
    }
    assert forall|i: int, j: int|
        #![trigger after[i], after[j]]
        0 <= i < j < after.len() implies after[i].0 != after[j].0 by {
        if place is None {
            assert(!relay::recorded_at(peers, id, i));
            if j < peers.len() {
                assert(peers[i].0 != peers[j].0);
            }
        } else {
            assert(peers[i].0 != peers[j].0);
        }
    }
    if who == id {
        let at = if place is Some {
            place->0
        } else {
            peers.len() as int
        };
        assert(relay::recorded_at(after, who, at));
        let found = relay::record_place(after, who)->0;
        assert(relay::recorded_at(after, who, found));
        assert(found == at);
    } else if exists|at: int| relay::recorded_at(peers, who, at) {
        let at = relay::record_place(peers, who)->0;
        assert(relay::recorded_at(peers, who, at));
        assert(relay::recorded_at(after, who, at));
        let found = relay::record_place(after, who)->0;
        assert(relay::recorded_at(after, who, found));
        assert(found == at);
    } else {
        assert forall|at: int| !relay::recorded_at(after, who, at) by {
            assert(!relay::recorded_at(peers, who, at));
        }
    }
}

/// One announcement more.
proof fn lemma_announced(race: Race, words: Seq<Said>, at: u64, peer: u64, item: Seq<u8>)
    requires
        tells(race, words),
        item.len() == 8,
        race.origin is Some,
        race.origin->0 <= at <= race.origin->0 + u32::MAX,
        race.announced(race.offset(at), peer, key_of(item)).untracked == 0,
    ensures
        tells(
            race.announced(race.offset(at), peer, key_of(item)),
            words.push(Said::Announced { at, peer, item }),
        ),
        race.untracked == 0,
{
    let now = race.offset(at);
    let key = key_of(item);
    let after = race.announced(now, peer, key);
    let more = words.push(Said::Announced { at, peer, item });
    assert(more.drop_last() =~= words);
    assert(keeps(race, words, item));
    let record = relay::record_of(race.peers, peer);
    assert(record == earned(words, Some(peer)));
    assert forall|other: Seq<u8>| other.len() == 8 implies #[trigger] keeps(after, more, other) by {
        assert(keeps(race, words, other));
        if key_of(other) == key {
            lemma_keys_differ(other, item);
        }
    }
    assert forall|who: Option<u64>| #[trigger] earned(more, who) == (if !is_of(who, peer) {
        earned(words, who)
    } else if first_heard(words, item) is Some {
        earned(words, who).lost(later_by(at, first_heard(words, item)->0))
    } else {
        earned(words, who).won()
    }) by {
        if is_of(who, peer) && first_heard(words, item) is Some {
            assert(lags(more, who).drop_last() =~= lags(words, who));
        }
    }
    let mine = if first_heard(words, item) is Some {
        record.lost(later_by(at, first_heard(words, item)->0))
    } else {
        record.won()
    };
    assert forall|who: u64| #[trigger]
        relay::record_of(after.peers, who) == earned(more, Some(who)) by {
        lemma_records(race, peer, mine, who);
        assert(relay::record_of(race.peers, who) == earned(words, Some(who)));
        assert(after.peers == relay::peers_with(race.peers, peer, mine));
    }
    lemma_records(race, peer, mine, peer);
    assert(after.peers == relay::peers_with(race.peers, peer, mine));
    assert(after.items.dom() =~= race.items.dom().insert(key));
    assert(after.valid()) by {
        let written = race.with_record(peer, mine);
        assert(after.peers == written.peers);
    }
}

/// One delivery more.
proof fn lemma_delivered(
    race: Race,
    words: Seq<Said>,
    at: u64,
    peer: u64,
    txid: Seq<u8>,
    wtxid: Seq<u8>,
    size: u64,
)
    requires
        tells(race, words),
        txid.len() >= 8,
        race.origin is Some ==> race.origin->0 <= at <= race.origin->0 + u32::MAX,
        race.delivered(at, peer, txid, wtxid, size).untracked == 0,
    ensures
        tells(
            race.delivered(at, peer, txid, wtxid, size),
            words.push(
                Said::Delivered {
                    at,
                    peer,
                    txid: front(txid)->0,
                    wtxid: front(wtxid),
                    size,
                },
            ),
        ),
        race.untracked == 0,
{
    let by_txid = front(txid)->0;
    let by_wtxid = front(wtxid);
    let word = Said::Delivered { at, peer, txid: by_txid, wtxid: by_wtxid, size };
    let more = words.push(word);
    assert(more.drop_last() =~= words);
    lemma_front(txid);
    assert(keeps(race, words, by_txid));
    if wtxid.len() >= 8 {
        lemma_front(wtxid);
        assert(keeps(race, words, by_wtxid->0));
    }
    let item = went_by(words, by_txid, by_wtxid);
    let key = key_of(item);
    assert(item.len() == 8);
    assert(key == race.delivery_key(key_of(by_txid), relay::prefix_of(wtxid)));
    assert(keeps(race, words, item));
    let after = race.delivered(at, peer, txid, wtxid, size);
    lemma_kept(race, words, word, item, after);
    lemma_scored(race, words, word, item, after);
    assert(after.items.dom() =~= race.items.dom().insert(key));
    let mine = scored(race, words, word, item);
    lemma_records(race, peer, mine, peer);
    assert(after.valid()) by {
        let written = race.with_record(peer, mine);
        assert(after.peers == written.peers);
    }
}

/// The record of the peer once a delivery has been counted.
spec fn scored(race: Race, words: Seq<Said>, word: Said, item: Seq<u8>) -> Scorecard {
    let record = relay::record_of(race.peers, word->Delivered_peer);
    if held(words, item) {
        record.has_delivered().wasted(word->Delivered_size)
    } else if first_heard(words, item) is Some {
        record.has_delivered().waited(
            later_by(word->Delivered_at, first_heard(words, item)->0),
        )
    } else {
        record.has_delivered()
    }
}

proof fn lemma_kept(race: Race, words: Seq<Said>, word: Said, item: Seq<u8>, after: Race)
    requires
        forall|other: Seq<u8>| other.len() == 8 ==> #[trigger] keeps(race, words, other),
        word is Delivered,
        item == went_by(words, word->Delivered_txid, word->wtxid),
        item.len() == 8,
        race.origin is Some ==> after.origin == race.origin,
        after.items.dom() == race.items.dom().insert(key_of(item)),
        forall|key: u64|
            key != key_of(item) ==> #[trigger] after.items[key] == race.items[key],
        after.items[key_of(item)].deliveries > 0,
        known(words, item) ==> after.items[key_of(item)].announcements
            == race.items[key_of(item)].announcements && after.items[key_of(item)].first_ms
            == race.items[key_of(item)].first_ms,
        !known(words, item) ==> after.items[key_of(item)].announcements == 0,
    ensures
        forall|other: Seq<u8>|
            other.len() == 8 ==> #[trigger] keeps(after, words.push(word), other),
{
    let more = words.push(word);
    assert(more.drop_last() =~= words);
    assert(keeps(race, words, item));
    assert forall|other: Seq<u8>| other.len() == 8 implies #[trigger] keeps(after, more, other) by {
        assert(keeps(race, words, other));
        if key_of(other) == key_of(item) {
            lemma_keys_differ(other, item);
        }
    }
}

proof fn lemma_scored(race: Race, words: Seq<Said>, word: Said, item: Seq<u8>, after: Race)
    requires
        tells(race, words),
        word is Delivered,
        item == went_by(words, word->Delivered_txid, word->wtxid),
        after.peers == relay::peers_with(
            race.peers,
            word->Delivered_peer,
            scored(race, words, word, item),
        ),
    ensures
        forall|who: u64| #[trigger]
            relay::record_of(after.peers, who) == earned(words.push(word), Some(who)),
        earned(words.push(word), None) == (if held(words, item) {
            earned(words, None).has_delivered().wasted(word->Delivered_size)
        } else if first_heard(words, item) is Some {
            earned(words, None).has_delivered().waited(
                later_by(word->Delivered_at, first_heard(words, item)->0),
            )
        } else {
            earned(words, None).has_delivered()
        }),
        firsts(words.push(word), None) == firsts(words, None),
        lags(words.push(word), None) == lags(words, None),
{
    let (at, peer, size) = (word->Delivered_at, word->Delivered_peer, word->Delivered_size);
    let more = words.push(word);
    assert(more.drop_last() =~= words);
    assert forall|who: Option<u64>| #[trigger] earned(more, who) == (if !is_of(who, peer) {
        earned(words, who)
    } else if held(words, item) {
        earned(words, who).has_delivered().wasted(size)
    } else if first_heard(words, item) is Some {
        earned(words, who).has_delivered().waited(later_by(at, first_heard(words, item)->0))
    } else {
        earned(words, who).has_delivered()
    }) by {
        if is_of(who, peer) {
            if held(words, item) {
                assert(repeats(more, who).drop_last() =~= repeats(words, who));
            } else if first_heard(words, item) is Some {
                assert(waits(more, who).drop_last() =~= waits(words, who));
            }
        }
    }
    assert forall|who: u64| #[trigger]
        relay::record_of(after.peers, who) == earned(more, Some(who)) by {
        lemma_records(race, peer, scored(race, words, word, item), who);
        assert(relay::record_of(race.peers, who) == earned(words, Some(who)));
        assert(relay::record_of(race.peers, peer) == earned(words, Some(peer)));
    }
}

/// An inventory more.
proof fn lemma_announced_all(
    race: Race,
    words: Seq<Said>,
    at: u64,
    peer: u64,
    items: Seq<InventoryItem>,
    upto: int,
)
    requires
        tells(race, words),
        0 <= upto <= items.len(),
        race.origin is Some,
        race.origin->0 <= at <= race.origin->0 + u32::MAX,
        race.announced_all(race.offset(at), peer, items, upto).untracked == 0,
    ensures
        tells(
            race.announced_all(race.offset(at), peer, items, upto),
            words + announced_in(at, peer, items, upto),
        ),
        race.announced_all(race.offset(at), peer, items, upto).origin == race.origin,
        race.untracked == 0,
    decreases upto,
{
    let now = race.offset(at);
    if upto <= 0 {
        assert(words + announced_in(at, peer, items, upto) =~= words);
    } else {
        let before = race.announced_all(now, peer, items, upto - 1);
        let rest = announced_in(at, peer, items, upto - 1);
        let inventory = items[upto - 1];
        lemma_named(inventory);
        assert(before.untracked == 0);
        lemma_announced_all(race, words, at, peer, items, upto - 1);
        if let Some(item) = named(inventory) {
            assert(before.offset(at) == now);
            lemma_announced(before, words + rest, at, peer, item);
            assert(words + announced_in(at, peer, items, upto) =~= (words + rest).push(
                Said::Announced { at, peer, item },
            ));
        }
    }
}

/// A table that recorded a run of messages tells what the run said.
proof fn lemma_told(run: Seq<(u64, MessageEvent)>)
    requires
        on_the_clock(run),
        relay::raced(run).untracked == 0,
    ensures
        tells(relay::raced(run), said(run)),
        relay::raced(run).origin == began(run),
    decreases run.len(),
{
    if run.len() == 0 {
        lemma_blank();
    } else {
        let before = run.drop_last();
        let race = relay::raced(before);
        let (at, event) = run.last();
        let after = race.with_message(at, event);
        assert(after == relay::raced(run));
        lemma_untracked(race, at, event);
        lemma_clock(run);
        lemma_told(before);
        let words = said(before);
        if relays(event) {
            assert(run[run.len() - 1] == (at, event));
            assert(began(run)->0 <= at <= began(run)->0 + u32::MAX);
        }
        match event.msg {
            Some(Msg::Inv(inv)) if event.meta.inbound => {
                let started = race.started(at);
                lemma_started(race, words, at);
                lemma_announced_all(
                    started,
                    words,
                    at,
                    event.meta.peer_id,
                    inv.items@,
                    inv.items@.len() as int,
                );
            },
            Some(Msg::Tx(tx)) if event.meta.inbound && tx.tx.txid@.len() >= 8 => {
                lemma_delivered(
                    race,
                    words,
                    at,
                    event.meta.peer_id,
                    tx.tx.txid@,
                    tx.tx.wtxid@,
                    event.meta.size,
                );
                assert(said(run) =~= words.push(said_by(at, event)[0]));
            },
            _ => {
                assert(said(run) =~= words);
            },
        }
    }
}

/// Nothing said, nothing told.
proof fn lemma_blank()
    ensures
        tells(Race::empty(), Seq::empty()),
{
    let race = Race::empty();
    let words = Seq::<Said>::empty();
    assert forall|item: Seq<u8>| item.len() == 8 implies #[trigger] keeps(race, words, item) by {}
    assert forall|who: u64| #[trigger]
        relay::record_of(race.peers, who) == earned(words, Some(who)) by {
        assert forall|at: int| !relay::recorded_at(race.peers, who, at) by {}
    }
}

/// Starting the clock says nothing.
proof fn lemma_started(race: Race, words: Seq<Said>, at: u64)
    requires
        tells(race, words),
    ensures
        tells(race.started(at), words),
{
    let started = race.started(at);
    assert forall|item: Seq<u8>| item.len() == 8 implies #[trigger] keeps(
        started,
        words,
        item,
    ) by {
        assert(keeps(race, words, item));
    }
}

/// What was left out stays left out.
proof fn lemma_untracked(race: Race, at: u64, event: MessageEvent)
    ensures
        race.with_message(at, event).untracked >= race.untracked,
{
    match event.msg {
        Some(Msg::Inv(inv)) => {
            let started = race.started(at);
            lemma_untracked_all(
                started,
                started.offset(at),
                event.meta.peer_id,
                inv.items@,
                inv.items@.len() as int,
            );
        },
        _ => {},
    }
}

proof fn lemma_untracked_all(race: Race, now: u32, peer: u64, items: Seq<InventoryItem>, upto: int)
    ensures
        race.announced_all(now, peer, items, upto).untracked >= race.untracked,
    decreases upto,
{
    if upto > 0 {
        lemma_untracked_all(race, now, peer, items, upto - 1);
    }
}

/// Once there is a first message it stays the first.
proof fn lemma_began(run: Seq<(u64, MessageEvent)>)
    ensures
        began(run) is None ==> forall|i: int| 0 <= i < run.len() ==> !relays((#[trigger] run[i]).1),
    decreases run.len(),
{
    if run.len() > 0 {
        lemma_began(run.drop_last());
        if began(run) is None {
            assert forall|i: int| 0 <= i < run.len() implies !relays((#[trigger] run[i]).1) by {
                if i < run.len() - 1 {
                    assert(run.drop_last()[i] == run[i]);
                }
            }
        }
    }
}

/// A run that keeps to the clock did so before its last message.
proof fn lemma_clock(run: Seq<(u64, MessageEvent)>)
    requires
        run.len() > 0,
        on_the_clock(run),
    ensures
        on_the_clock(run.drop_last()),
{
    let before = run.drop_last();
    lemma_began(before);
    assert forall|i: int| 0 <= i < before.len() && relays((#[trigger] before[i]).1) implies began(
        before,
    )->0 <= before[i].0 <= began(before)->0 + u32::MAX by {
        assert(run[i] == before[i]);
    }
}

/// The records of a run are what it said. Every announcement of an item that was announced
/// before adds to the lag of its peer how long after the first announcement of that item it
/// came, and every first delivery of an announced item to the wait of its peer how long
/// after that announcement it came; the rest are counted. The figures for the whole archive
/// are those of all peers. The clock has to be able to tell the messages apart, and the
/// table must have had room for every item.
pub proof fn law_records_are_what_the_run_said(run: Seq<(u64, MessageEvent)>, who: u64)
    requires
        on_the_clock(run),
        relay::raced(run).untracked == 0,
    ensures
        ({
            let race = relay::raced(run);
            let words = said(run);
            let record = relay::record_of(race.peers, who);
            &&& record.lag == latency::recorded(lags(words, Some(who)))
            &&& record.heard_to_held == latency::recorded(waits(words, Some(who)))
            &&& record.first == latency::capped(firsts(words, Some(who)) as int, 0)
            &&& record.late == latency::capped(lags(words, Some(who)).len() as int, 0)
            &&& record.delivered == latency::capped(handed_over(words, Some(who)) as int, 0)
            &&& record.duplicate == latency::capped(repeats(words, Some(who)).len() as int, 0)
            &&& record.duplicate_bytes == latency::capped(
                total(repeats(words, Some(who))) as int,
                0,
            )
            &&& race.lag == latency::recorded(lags(words, None))
            &&& race.heard_to_held == latency::recorded(waits(words, None))
            &&& race.late_announcements == latency::capped(lags(words, None).len() as int, 0)
            &&& race.announcements == latency::capped(
                firsts(words, None) as int,
                lags(words, None).len() as int,
            )
            &&& race.deliveries == latency::capped(handed_over(words, None) as int, 0)
            &&& race.duplicate_deliveries == latency::capped(
                repeats(words, None).len() as int,
                0,
            )
            &&& race.duplicate_bytes == latency::capped(total(repeats(words, None)) as int, 0)
        }),
{
    lemma_told(run);
    assert(relay::record_of(relay::raced(run).peers, who) == earned(said(run), Some(who)));
}

/// Two million items have room: nothing is left out of a run that says no more than that
/// many things.
pub proof fn law_two_million_items_have_room(run: Seq<(u64, MessageEvent)>)
    requires
        said(run).len() <= 2_000_000,
    ensures
        relay::raced(run).untracked == 0,
{
    lemma_room(run);
}

proof fn lemma_room(run: Seq<(u64, MessageEvent)>)
    requires
        said(run).len() <= 2_000_000,
    ensures
        relay::raced(run).untracked == 0,
        relay::raced(run).items.dom().finite(),
        relay::raced(run).items.dom().len() <= said(run).len(),
    decreases run.len(),
{
    if run.len() > 0 {
        let before = run.drop_last();
        let (at, event) = run.last();
        lemma_room(before);
        let race = relay::raced(before);
        match event.msg {
            Some(Msg::Inv(inv)) if event.meta.inbound => {
                let started = race.started(at);
                lemma_room_for_all(
                    started,
                    said(before).len(),
                    at,
                    event.meta.peer_id,
                    inv.items@,
                    inv.items@.len() as int,
                );
            },
            Some(Msg::Tx(tx)) if event.meta.inbound && tx.tx.txid@.len() >= 8 => {
                lemma_front(tx.tx.txid@);
                let key = race.delivery_key(
                    relay::prefix_of(tx.tx.txid@)->0,
                    relay::prefix_of(tx.tx.wtxid@),
                );
                assert(relay::raced(run).items.dom() =~= race.items.dom().insert(key));
            },
            _ => {},
        }
    }
}

proof fn lemma_room_for_all(
    race: Race,
    before: nat,
    at: u64,
    peer: u64,
    items: Seq<InventoryItem>,
    upto: int,
)
    requires
        0 <= upto <= items.len(),
        race.untracked == 0,
        race.items.dom().finite(),
        race.items.dom().len() <= before,
        before + announced_in(at, peer, items, upto).len() <= 2_000_000,
    ensures
        ({
            let after = race.announced_all(race.offset(at), peer, items, upto);
            &&& after.untracked == 0
            &&& after.items.dom().finite()
            &&& after.items.dom().len() <= before + announced_in(at, peer, items, upto).len()
        }),
    decreases upto,
{
    if upto > 0 {
        lemma_room_for_all(race, before, at, peer, items, upto - 1);
        let last = race.announced_all(race.offset(at), peer, items, upto - 1);
        let after = race.announced_all(race.offset(at), peer, items, upto);
        lemma_named(items[upto - 1]);
        if let Some(key) = relay::transaction_key(items[upto - 1]) {
            assert(after.items.dom() =~= last.items.dom().insert(key));
        }
    }
}

/// What names a transaction has a key, and that of its item.
proof fn lemma_named(inventory: InventoryItem)
    ensures
        match named(inventory) {
            Some(item) => item.len() == 8 && relay::transaction_key(inventory) == Some(
                key_of(item),
            ),
            None => relay::transaction_key(inventory) is None,
        },
{
    match inventory.item {
        Some(Item::Transaction(hash)) => {
            if hash@.len() >= 8 {
                lemma_front(hash@);
            }
        },
        Some(Item::Wtx(hash)) => {
            if hash@.len() >= 8 {
                lemma_front(hash@);
            }
        },
        Some(Item::WitnessTransaction(hash)) => {
            if hash@.len() >= 8 {
                lemma_front(hash@);
            }
        },
        _ => {},
    }
}

/// The hash of a transaction that an inventory item gives, if it gives one.
pub open spec fn hash_in(inventory: InventoryItem) -> Option<Seq<u8>> {
    match inventory.item {
        Some(Item::Transaction(hash)) => Some(hash@),
        Some(Item::Wtx(hash)) => Some(hash@),
        Some(Item::WitnessTransaction(hash)) => Some(hash@),
        _ => None,
    }
}

/// Transactions are told apart by the first eight bytes of their hashes: two inventory
/// items have the same key if and only if those are the same. A transaction has one where
/// its hash has as many bytes, whether it is named by txid or by wtxid, and nothing else
/// has.
pub proof fn law_items_are_told_apart_by_the_front_of_their_hashes(
    one: InventoryItem,
    other: InventoryItem,
)
    ensures
        relay::transaction_key(one) is Some <==> hash_in(one) is Some && hash_in(one)->0.len()
            >= 8,
        relay::transaction_key(one) is Some && relay::transaction_key(other) is Some ==> (
        relay::transaction_key(one) == relay::transaction_key(other) <==> forall|i: int|
            0 <= i < 8 ==> #[trigger] hash_in(one)->0[i] == hash_in(other)->0[i]),
        named(one) is Some <==> relay::transaction_key(one) is Some,
        named(one) matches Some(item) ==> item.len() == 8 && forall|i: int|
            0 <= i < 8 ==> #[trigger] item[i] == hash_in(one)->0[i],
{
    lemma_named(one);
    lemma_named(other);
    if named(one) is Some && named(other) is Some {
        let (a, b) = (named(one)->0, named(other)->0);
        let (x, y) = (hash_in(one)->0, hash_in(other)->0);
        assert forall|i: int| 0 <= i < 8 implies #[trigger] x[i] == a[i] && y[i] == b[i] by {}
        if key_of(a) == key_of(b) {
            lemma_keys_differ(a, b);
        }
        if forall|i: int| 0 <= i < 8 ==> #[trigger] x[i] == y[i] {
            assert(a =~= b);
        }
    }
}

/// Whether a peer announces an item in this message.
pub open spec fn announces(event: MessageEvent, item: Seq<u8>) -> bool {
    event.meta.inbound && (event.msg matches Some(Msg::Inv(inv)) && exists|k: int|
        0 <= k < inv.items@.len() && named(#[trigger] inv.items@[k]) == Some(item))
}

/// Whether a peer delivers an item in this message, under either of its hashes.
pub open spec fn delivers(event: MessageEvent, item: Seq<u8>) -> bool {
    event.meta.inbound && (event.msg matches Some(Msg::Tx(tx)) && (front(tx.tx.txid@) == Some(item)
        || front(tx.tx.wtxid@) == Some(item)))
}

/// What was first heard stays so, and a message that announces the item is when it was
/// heard of if nothing before was.
proof fn lemma_heard_all(
    words: Seq<Said>,
    at: u64,
    peer: u64,
    items: Seq<InventoryItem>,
    upto: int,
    item: Seq<u8>,
)
    requires
        0 <= upto <= items.len(),
    ensures
        first_heard(words + announced_in(at, peer, items, upto), item) == (if first_heard(
            words,
            item,
        ) is Some {
            first_heard(words, item)
        } else if exists|k: int| 0 <= k < upto && named(#[trigger] items[k]) == Some(item) {
            Some(at)
        } else {
            None
        }),
    decreases upto,
{
    let more = words + announced_in(at, peer, items, upto);
    if upto <= 0 {
        assert(more =~= words);
    } else {
        lemma_heard_all(words, at, peer, items, upto - 1, item);
        let less = words + announced_in(at, peer, items, upto - 1);
        if named(items[upto - 1]) is Some {
            assert(more.drop_last() =~= less);
            assert(more.last() == Said::Announced { at, peer, item: named(items[upto - 1])->0 });
        } else {
            assert(more =~= less);
        }
        if exists|k: int| 0 <= k < upto && named(#[trigger] items[k]) == Some(item) {
            let k = choose|k: int| 0 <= k < upto && named(#[trigger] items[k]) == Some(item);
            if k < upto - 1 {
                assert(named(items[k]) == Some(item));
            }
        }
        if named(items[upto - 1]) == Some(item) {
            assert(exists|k: int| 0 <= k < upto && named(#[trigger] items[k]) == Some(item));
        }
    }
}

proof fn lemma_heard_by(words: Seq<Said>, at: u64, event: MessageEvent, item: Seq<u8>)
    ensures
        first_heard(words + said_by(at, event), item) == (if first_heard(words, item) is Some {
            first_heard(words, item)
        } else if announces(event, item) {
            Some(at)
        } else {
            None
        }),
{
    let more = words + said_by(at, event);
    match event.msg {
        Some(Msg::Inv(inv)) if event.meta.inbound => {
            lemma_heard_all(
                words,
                at,
                event.meta.peer_id,
                inv.items@,
                inv.items@.len() as int,
                item,
            );
        },
        Some(Msg::Tx(tx)) if event.meta.inbound && tx.tx.txid@.len() >= 8 => {
            assert(more.drop_last() =~= words);
        },
        _ => {
            assert(more =~= words);
        },
    }
}

/// An item was first heard of when the first message that announces it came.
proof fn lemma_first_heard(run: Seq<(u64, MessageEvent)>, item: Seq<u8>)
    ensures
        first_heard(said(run), item) is None ==> forall|i: int|
            0 <= i < run.len() ==> !announces((#[trigger] run[i]).1, item),
        first_heard(said(run), item) matches Some(at) ==> exists|i: int|
            0 <= i < run.len() && announces((#[trigger] run[i]).1, item) && run[i].0 == at && (
            forall|j: int| 0 <= j < i ==> !announces((#[trigger] run[j]).1, item)),
    decreases run.len(),
{
    if run.len() > 0 {
        let before = run.drop_last();
        let last = run.len() - 1;
        lemma_first_heard(before, item);
        lemma_heard_by(said(before), run.last().0, run.last().1, item);
        if first_heard(said(before), item) is Some {
            let i = choose|i: int|
                0 <= i < before.len() && announces((#[trigger] before[i]).1, item) && before[i].0
                    == first_heard(said(before), item)->0 && (forall|j: int|
                    0 <= j < i ==> !announces((#[trigger] before[j]).1, item));
            assert(run[i] == before[i]);
            assert forall|j: int| 0 <= j < i implies !announces((#[trigger] run[j]).1, item) by {
                assert(run[j] == before[j]);
            }
        } else {
            assert forall|j: int| 0 <= j < last implies !announces((#[trigger] run[j]).1, item) by {
                assert(run[j] == before[j]);
            }
            assert(run[last] == run.last());
        }
    }
}

/// The first message of a run that announces an item is one only.
proof fn lemma_heard_at(run: Seq<(u64, MessageEvent)>, first: int, item: Seq<u8>)
    requires
        0 <= first < run.len(),
        announces(run[first].1, item),
        forall|i: int| 0 <= i < first ==> !announces((#[trigger] run[i]).1, item),
    ensures
        first_heard(said(run), item) == Some(run[first].0),
{
    lemma_first_heard(run, item);
    if let Some(at) = first_heard(said(run), item) {
        let i = choose|i: int|
            0 <= i < run.len() && announces((#[trigger] run[i]).1, item) && run[i].0 == at && (
            forall|j: int| 0 <= j < i ==> !announces((#[trigger] run[j]).1, item));
        assert(i == first);
    }
}

/// What nobody delivered is not held.
proof fn lemma_not_held(run: Seq<(u64, MessageEvent)>, item: Seq<u8>)
    requires
        forall|i: int| 0 <= i < run.len() ==> !delivers((#[trigger] run[i]).1, item),
    ensures
        !held(said(run), item),
    decreases run.len(),
{
    if run.len() > 0 {
        let before = run.drop_last();
        let (at, event) = run.last();
        assert forall|i: int| 0 <= i < before.len() implies !delivers(
            (#[trigger] before[i]).1,
            item,
        ) by {
            assert(run[i] == before[i]);
        }
        lemma_not_held(before, item);
        let words = said(before);
        assert(run[run.len() - 1] == (at, event));
        assert(!delivers(event, item));
        match event.msg {
            Some(Msg::Inv(inv)) if event.meta.inbound => {
                lemma_held_all(
                    words,
                    at,
                    event.meta.peer_id,
                    inv.items@,
                    inv.items@.len() as int,
                    item,
                );
            },
            Some(Msg::Tx(tx)) if event.meta.inbound && tx.tx.txid@.len() >= 8 => {
                assert(said(run).drop_last() =~= words);
            },
            _ => {
                assert(said(run) =~= words);
            },
        }
    }
}

/// To announce is not to deliver.
proof fn lemma_held_all(
    words: Seq<Said>,
    at: u64,
    peer: u64,
    items: Seq<InventoryItem>,
    upto: int,
    item: Seq<u8>,
)
    ensures
        held(words + announced_in(at, peer, items, upto), item) == held(words, item),
    decreases upto,
{
    let more = words + announced_in(at, peer, items, upto);
    if upto <= 0 {
        assert(more =~= words);
    } else {
        lemma_held_all(words, at, peer, items, upto - 1, item);
        let less = words + announced_in(at, peer, items, upto - 1);
        if named(items[upto - 1]) is Some {
            assert(more.drop_last() =~= less);
        } else {
            assert(more =~= less);
        }
    }
}

/// A late announcement adds its lag: where an item was first announced in the message at
/// `first`, a peer that announces it once more at the end of the run is as far behind as
/// the two timestamps are apart. That is added to its lag and to that of the archive, and
/// it is one more late announcement, and no first one. No other record changes.
#[verifier::rlimit(50)]
pub proof fn law_a_late_announcement_adds_its_lag(
    run: Seq<(u64, MessageEvent)>,
    first: int,
    item: Seq<u8>,
    who: u64,
)
    requires
        on_the_clock(run),
        relay::raced(run).untracked == 0,
        0 <= first < run.len() - 1,
        announces(run[first].1, item),
        forall|i: int| 0 <= i < first ==> !announces((#[trigger] run[i]).1, item),
        run.last().1.meta.inbound,
        run.last().1.msg matches Some(Msg::Inv(inv)) && inv.items@.len() == 1 && named(
            inv.items@[0],
        ) == Some(item),
    ensures
        ({
            let (before, after) = (relay::raced(run.drop_last()), relay::raced(run));
            let (was, is) = (
                relay::record_of(before.peers, who),
                relay::record_of(after.peers, who),
            );
            let apart = run.last().0 - run[first].0;
            let lag = if apart >= 0 {
                apart as u64
            } else {
                0
            };
            &&& after.lag == before.lag.with(lag)
            &&& who == run.last().1.meta.peer_id ==> is.lag == was.lag.with(lag) && is.first
                == was.first && (was.late < u64::MAX ==> is.late == was.late + 1)
            &&& who != run.last().1.meta.peer_id ==> is == was
        }),
{
    let before = run.drop_last();
    let words = said(before);
    let (at, event) = run.last();
    let peer = event.meta.peer_id;
    lemma_clock(run);
    lemma_untracked(relay::raced(before), at, event);
    lemma_told(run);
    lemma_told(before);
    assert(before[first] == run[first]);
    assert forall|i: int| 0 <= i < first implies !announces((#[trigger] before[i]).1, item) by {
        assert(before[i] == run[i]);
    }
    lemma_heard_at(before, first, item);
    if let Some(Msg::Inv(inv)) = event.msg {
        reveal_with_fuel(announced_in, 2);
        assert(said(run) =~= words.push(Said::Announced { at, peer, item }));
    }
    assert(said(run).drop_last() =~= words);
    assert(relay::record_of(relay::raced(run).peers, who) == earned(said(run), Some(who)));
    assert(relay::record_of(relay::raced(before).peers, who) == earned(words, Some(who)));
    if who == peer {
        assert(lags(said(run), Some(who)).drop_last() =~= lags(words, Some(who)));
    }
    assert(lags(said(run), None).drop_last() =~= lags(words, None));
}

/// A first announcement wins: a peer that announces at the end of the run an item that no
/// message of it announced before has one more first, and nobody is any further behind.
#[verifier::rlimit(50)]
pub proof fn law_a_first_announcement_wins(
    run: Seq<(u64, MessageEvent)>,
    item: Seq<u8>,
    who: u64,
)
    requires
        on_the_clock(run),
        relay::raced(run).untracked == 0,
        run.len() > 0,
        forall|i: int| 0 <= i < run.len() - 1 ==> !announces((#[trigger] run[i]).1, item),
        run.last().1.meta.inbound,
        run.last().1.msg matches Some(Msg::Inv(inv)) && inv.items@.len() == 1 && named(
            inv.items@[0],
        ) == Some(item),
    ensures
        ({
            let (before, after) = (relay::raced(run.drop_last()), relay::raced(run));
            let (was, is) = (
                relay::record_of(before.peers, who),
                relay::record_of(after.peers, who),
            );
            &&& after.lag == before.lag
            &&& after.late_announcements == before.late_announcements
            &&& who == run.last().1.meta.peer_id ==> is.lag == was.lag && is.late == was.late && (
            was.first < u64::MAX ==> is.first == was.first + 1)
            &&& who != run.last().1.meta.peer_id ==> is == was
        }),
{
    let before = run.drop_last();
    let words = said(before);
    let (at, event) = run.last();
    let peer = event.meta.peer_id;
    lemma_clock(run);
    lemma_untracked(relay::raced(before), at, event);
    lemma_told(run);
    lemma_told(before);
    lemma_first_heard(before, item);
    if first_heard(words, item) is Some {
        let i = choose|i: int|
            0 <= i < before.len() && announces((#[trigger] before[i]).1, item) && before[i].0
                == first_heard(words, item)->0 && (forall|j: int|
                0 <= j < i ==> !announces((#[trigger] before[j]).1, item));
        assert(before[i] == run[i]);
    }
    if let Some(Msg::Inv(inv)) = event.msg {
        reveal_with_fuel(announced_in, 2);
        assert(said(run) =~= words.push(Said::Announced { at, peer, item }));
    }
    assert(said(run).drop_last() =~= words);
    assert(relay::record_of(relay::raced(run).peers, who) == earned(said(run), Some(who)));
    assert(relay::record_of(relay::raced(before).peers, who) == earned(words, Some(who)));
}

/// A first delivery adds its wait: where an item was first announced in the message at
/// `first` and nobody delivered it before, a peer that delivers it under its txid at the
/// end of the run ended a wait as long as the two timestamps are apart. That is added to
/// what is held of that peer and of the archive, and nothing counts as a duplicate. No
/// other record changes.
#[verifier::rlimit(50)]
pub proof fn law_a_first_delivery_adds_its_wait(
    run: Seq<(u64, MessageEvent)>,
    first: int,
    item: Seq<u8>,
    who: u64,
)
    requires
        on_the_clock(run),
        relay::raced(run).untracked == 0,
        0 <= first < run.len() - 1,
        announces(run[first].1, item),
        forall|i: int| 0 <= i < first ==> !announces((#[trigger] run[i]).1, item),
        forall|i: int| 0 <= i < run.len() - 1 ==> !delivers((#[trigger] run[i]).1, item),
        run.last().1.meta.inbound,
        run.last().1.msg matches Some(Msg::Tx(tx)) && front(tx.tx.txid@) == Some(item),
    ensures
        ({
            let (before, after) = (relay::raced(run.drop_last()), relay::raced(run));
            let (was, is) = (
                relay::record_of(before.peers, who),
                relay::record_of(after.peers, who),
            );
            let apart = run.last().0 - run[first].0;
            let wait = if apart >= 0 {
                apart as u64
            } else {
                0
            };
            &&& after.heard_to_held == before.heard_to_held.with(wait)
            &&& after.duplicate_bytes == before.duplicate_bytes
            &&& who == run.last().1.meta.peer_id ==> is.heard_to_held == was.heard_to_held.with(
                wait,
            ) && is.duplicate == was.duplicate && is.duplicate_bytes == was.duplicate_bytes && (
            was.delivered < u64::MAX ==> is.delivered == was.delivered + 1)
            &&& who != run.last().1.meta.peer_id ==> is == was
        }),
{
    let before = run.drop_last();
    let words = said(before);
    let (at, event) = run.last();
    let peer = event.meta.peer_id;
    lemma_clock(run);
    lemma_untracked(relay::raced(before), at, event);
    lemma_told(run);
    lemma_told(before);
    assert(before[first] == run[first]);
    assert forall|i: int| 0 <= i < first implies !announces((#[trigger] before[i]).1, item) by {
        assert(before[i] == run[i]);
    }
    assert forall|i: int| 0 <= i < before.len() implies !delivers((#[trigger] before[i]).1, item) by {
        assert(before[i] == run[i]);
    }
    lemma_heard_at(before, first, item);
    lemma_not_held(before, item);
    assert(item.len() == 8);
    assert(keeps(relay::raced(before), words, item));
    assert(said(run) =~= words.push(said_by(at, event)[0]));
    assert(said(run).drop_last() =~= words);
    assert(relay::record_of(relay::raced(run).peers, who) == earned(said(run), Some(who)));
    assert(relay::record_of(relay::raced(before).peers, who) == earned(words, Some(who)));
    if who == peer {
        assert(waits(said(run), Some(who)).drop_last() =~= waits(words, Some(who)));
    }
    assert(waits(said(run), None).drop_last() =~= waits(words, None));
}

/// A delivery of what was delivered before is a duplicate: a peer that delivers an item at
/// the end of a run in which the message at `again` delivered it, both under that txid,
/// wasted its bytes, and no wait is added.
#[verifier::rlimit(50)]
pub proof fn law_a_second_delivery_is_a_duplicate(
    run: Seq<(u64, MessageEvent)>,
    again: int,
    item: Seq<u8>,
    who: u64,
)
    requires
        on_the_clock(run),
        relay::raced(run).untracked == 0,
        0 <= again < run.len() - 1,
        run[again].1.meta.inbound,
        run[again].1.msg matches Some(Msg::Tx(tx)) && front(tx.tx.txid@) == Some(item) && tx.tx.wtxid@
            == tx.tx.txid@,
        run.last().1.meta.inbound,
        run.last().1.msg matches Some(Msg::Tx(tx)) && front(tx.tx.txid@) == Some(item),
    ensures
        ({
            let (before, after) = (relay::raced(run.drop_last()), relay::raced(run));
            let (was, is) = (
                relay::record_of(before.peers, who),
                relay::record_of(after.peers, who),
            );
            let size = run.last().1.meta.size;
            &&& after.heard_to_held == before.heard_to_held
            &&& before.duplicate_bytes + size <= u64::MAX ==> after.duplicate_bytes
                == before.duplicate_bytes + size
            &&& who == run.last().1.meta.peer_id ==> is.heard_to_held == was.heard_to_held && (
            was.duplicate_bytes + size <= u64::MAX ==> is.duplicate_bytes == was.duplicate_bytes
                + size) && (was.duplicate < u64::MAX ==> is.duplicate == was.duplicate + 1)
            &&& who != run.last().1.meta.peer_id ==> is == was
        }),
{
    let before = run.drop_last();
    let words = said(before);
    let (at, event) = run.last();
    let peer = event.meta.peer_id;
    lemma_clock(run);
    lemma_untracked(relay::raced(before), at, event);
    lemma_told(run);
    lemma_told(before);
    assert(before[again] == run[again]);
    lemma_held_from(before, again, item);
    assert(item.len() == 8);
    assert(keeps(relay::raced(before), words, item));
    assert(said(run) =~= words.push(said_by(at, event)[0]));
    assert(said(run).drop_last() =~= words);
    assert(relay::record_of(relay::raced(run).peers, who) == earned(said(run), Some(who)));
    assert(relay::record_of(relay::raced(before).peers, who) == earned(words, Some(who)));
    if who == peer {
        assert(repeats(said(run), Some(who)).drop_last() =~= repeats(words, Some(who)));
    }
    assert(repeats(said(run), None).drop_last() =~= repeats(words, None));
}

/// What was delivered is held.
proof fn lemma_held_from(run: Seq<(u64, MessageEvent)>, at: int, item: Seq<u8>)
    requires
        0 <= at < run.len(),
        run[at].1.meta.inbound,
        run[at].1.msg matches Some(Msg::Tx(tx)) && front(tx.tx.txid@) == Some(item) && tx.tx.wtxid@
            == tx.tx.txid@,
    ensures
        held(said(run), item),
    decreases run.len(),
{
    let before = run.drop_last();
    let (time, event) = run.last();
    let words = said(before);
    if at == run.len() - 1 {
        assert(said(run).drop_last() =~= words);
    } else {
        assert(before[at] == run[at]);
        lemma_held_from(before, at, item);
        match event.msg {
            Some(Msg::Inv(inv)) if event.meta.inbound => {
                lemma_held_all(
                    words,
                    time,
                    event.meta.peer_id,
                    inv.items@,
                    inv.items@.len() as int,
                    item,
                );
            },
            Some(Msg::Tx(tx)) if event.meta.inbound && tx.tx.txid@.len() >= 8 => {
                assert(said(run).drop_last() =~= words);
            },
            _ => {
                assert(said(run) =~= words);
            },
        }
    }
}

/// A table holds two million items at most. Once it does, an announcement of one it does not
/// hold is counted as left out, and says nothing of its peer; what it holds goes on counting.
pub proof fn law_a_full_table_takes_nothing_new(
    run: Seq<(u64, MessageEvent)>,
    now: u32,
    peer: u64,
    key: u64,
)
    ensures
        ({
            let race = relay::raced(run);
            let after = race.announced(now, peer, key);
            let full = race.items.dom().len() >= 2_000_000;
            &&& race.items.dom().len() <= 2_000_000
            &&& full && !race.items.dom().contains(key) ==> after.items == race.items && after.peers
                == race.peers && after.lag == race.lag && (race.untracked < u64::MAX
                ==> after.untracked == race.untracked + 1)
            &&& race.items.dom().contains(key) || !full ==> after.untracked == race.untracked
                && after.items.dom().contains(key)
            &&& race.announcements < u64::MAX ==> after.announcements == race.announcements + 1
        }),
{
    relay::law_totals_are_the_sum_of_every_peer(run);
}

} // verus!
