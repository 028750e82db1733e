//! Dropping raw transaction and block data from retained events.
//!
//! Raw transaction data makes up most of a full-data archive — peer-observer's
//! own archiver says so, and offers `--low-data` to leave it out at capture
//! time. A `tx` message carries the whole serialized transaction, and a `block`
//! message every transaction in the block, so retaining events verbatim means
//! holding megabytes for a single event and running the browser out of memory.
//!
//! The viewer never needs those bytes: nothing it computes reads them, and the
//! inspector is more useful showing a txid than a wall of hex. So the retained
//! copy is stripped of exactly what `--low-data` strips — transactions keep
//! their txid and wtxid, blocks keep their header — while aggregation still runs
//! over the complete event.

use crate::kind;
use crate::proto::{
    Ebpf, EbpfEvent, Event, MessageEvent, Msg, PeerObserverEvent,
    PrefilledTransaction, Transaction, Tx,
};
use vstd::prelude::*;

verus! {

/// The P2P message an event is, if it is one.
pub open spec fn message_in(event: Event) -> Option<MessageEvent> {
    match event.peer_observer_event {
        Some(PeerObserverEvent::EbpfExtractor(ebpf)) => match ebpf.ebpf_event {
            Some(EbpfEvent::Message(message)) => Some(message),
            _ => None,
        },
        _ => None,
    }
}

/// A P2P message event at the same time with another message in it.
pub open spec fn with_message(event: Event, message: MessageEvent) -> Event {
    Event {
        timestamp: event.timestamp,
        peer_observer_event: Some(
            PeerObserverEvent::EbpfExtractor(
                Ebpf { ebpf_event: Some(EbpfEvent::Message(message)) },
            ),
        ),
    }
}

/// A transaction without its raw bytes.
pub open spec fn without_raw(tx: Transaction) -> Transaction {
    Transaction { raw: None, ..tx }
}

/// How many raw bytes a transaction carries.
pub open spec fn raw_len(tx: Transaction) -> nat {
    match tx.raw {
        Some(raw) => raw@.len(),
        None => 0,
    }
}

/// How many bytes of a transaction are dropped when it is dropped whole.
pub open spec fn whole_len(tx: Transaction) -> nat {
    raw_len(tx) + tx.txid@.len() + tx.wtxid@.len()
}

/// Something about each of the first `upto` transactions, added up.
pub open spec fn total(
    transactions: Seq<Transaction>,
    of: spec_fn(Transaction) -> nat,
    upto: int,
) -> nat
    decreases upto,
{
    if upto <= 0 {
        0
    } else {
        total(transactions, of, upto - 1) + of(transactions[upto - 1])
    }
}

/// The transactions of some prefilled ones.
pub open spec fn prefilled(transactions: Seq<PrefilledTransaction>) -> Seq<Transaction> {
    Seq::new(transactions.len(), |i: int| transactions[i].tx)
}

/// How many bytes stripping drops from a message.
pub open spec fn weight(msg: Option<Msg>) -> nat {
    match msg {
        Some(Msg::Tx(tx)) => raw_len(tx.tx),
        Some(Msg::Block(block)) => total(
            block.transactions@,
            |t: Transaction| whole_len(t),
            block.transactions@.len() as int,
        ),
        Some(Msg::Blocktxn(blocktxn)) => total(
            blocktxn.transactions@,
            |t: Transaction| raw_len(t),
            blocktxn.transactions@.len() as int,
        ),
        Some(Msg::Compactblock(compact)) => total(
            prefilled(compact.transactions@),
            |t: Transaction| raw_len(t),
            compact.transactions@.len() as int,
        ),
        Some(Msg::Unknown(unknown)) => unknown.payload@.len(),
        _ => 0,
    }
}

/// Whether `after` is `before` without its heavy parts: the set peer-observer's
/// `--low-data` drops, plus the payload of an unrecognised message, which is raw
/// wire bytes of unbounded size that nothing here can interpret anyway. Its
/// command name is kept, and that is what the event is classified by.
pub open spec fn lightened(before: Option<Msg>, after: Option<Msg>) -> bool {
    match before {
        Some(Msg::Tx(tx)) => after == Some(Msg::Tx(Tx { tx: without_raw(tx.tx) })),
        Some(Msg::Block(block)) => {
            &&& after matches Some(Msg::Block(kept))
            &&& kept.header == block.header
            &&& kept.transactions@.len() == 0
        },
        Some(Msg::Blocktxn(blocktxn)) => {
            &&& after matches Some(Msg::Blocktxn(kept))
            &&& kept.block_hash == blocktxn.block_hash
            &&& kept.transactions@ == Seq::new(
                blocktxn.transactions@.len(),
                |i: int| without_raw(blocktxn.transactions@[i]),
            )
        },
        Some(Msg::Compactblock(compact)) => {
            &&& after matches Some(Msg::Compactblock(kept))
            &&& kept.header == compact.header
            &&& kept.nonce == compact.nonce
            &&& kept.short_ids == compact.short_ids
            &&& kept.transactions@ == Seq::new(
                compact.transactions@.len(),
                |i: int|
                    PrefilledTransaction {
                        diff_index: compact.transactions@[i].diff_index,
                        tx: without_raw(compact.transactions@[i].tx),
                    },
            )
        },
        Some(Msg::Unknown(unknown)) => {
            &&& after matches Some(Msg::Unknown(kept))
            &&& kept.command == unknown.command
            &&& kept.payload@.len() == 0
        },
        _ => after == before,
    }
}

/// Whether `after` is `before` without its heavy parts.
pub open spec fn stripped(before: Event, after: Event) -> bool {
    match message_in(before) {
        None => after == before,
        Some(message) => {
            &&& message_in(after) matches Some(kept)
            &&& kept.meta == message.meta
            &&& lightened(message.msg, kept.msg)
            &&& after == with_message(before, kept)
        },
    }
}

/// A number, held at the largest a `usize` can carry.
pub open spec fn held(n: nat) -> usize {
    if n > usize::MAX {
        usize::MAX
    } else {
        n as usize
    }
}

/// Remove raw transaction and block payloads from `event`, in place.
///
/// Returns the number of bytes dropped, or 0 if there was nothing to drop — in
/// which case the caller can retain the event's original encoding rather than
/// paying to re-encode it.
pub fn strip_raw_payloads(event: &mut Event) -> (dropped: usize)
    ensures
        stripped(*old(event), *final(event)),
        dropped == held(
            match message_in(*old(event)) {
                Some(message) => weight(message.msg),
                None => 0,
            },
        ),
{
    match &mut event.peer_observer_event {
        Some(PeerObserverEvent::EbpfExtractor(ebpf)) => match &mut ebpf.ebpf_event {
            Some(EbpfEvent::Message(message)) => strip_message(&mut message.msg),
            _ => 0,
        },
        _ => 0,
    }
}

fn strip_message(msg: &mut Option<Msg>) -> (dropped: usize)
    ensures
        lightened(*old(msg), *final(msg)),
        dropped == held(weight(*old(msg))),
{
    match msg {
        Some(Msg::Tx(tx)) => take_raw(&mut tx.tx),
        Some(Msg::Block(block)) => {
            let dropped = measure_all(&block.transactions);
            block.transactions.clear();
            dropped
        },
        Some(Msg::Blocktxn(blocktxn)) => take_all(&mut blocktxn.transactions),
        Some(Msg::Compactblock(compact)) => take_prefilled(&mut compact.transactions),
        Some(Msg::Unknown(unknown)) => {
            let dropped: usize = unknown.payload.len();
            unknown.payload = Vec::new();
            dropped
        },
        _ => 0,
    }
}

fn take_raw(tx: &mut Transaction) -> (dropped: usize)
    ensures
        *final(tx) == without_raw(*old(tx)),
        dropped == raw_len(*old(tx)),
{
    let dropped: usize = match &tx.raw {
        Some(raw) => raw.len(),
        None => 0,
    };
    tx.raw = None;
    dropped
}

/// Encoded size of transactions that are about to be dropped whole.
fn measure_all(transactions: &Vec<Transaction>) -> (dropped: usize)
    ensures
        dropped == held(
            total(
                transactions@,
                |t: Transaction| whole_len(t),
                transactions@.len() as int,
            ),
        ),
{
    let ghost of = |t: Transaction| whole_len(t);
    let mut dropped: usize = 0;
    let mut i: usize = 0;
    while i < transactions.len()
        invariant
            i <= transactions@.len(),
            of == (|t: Transaction| whole_len(t)),
            dropped == held(total(transactions@, of, i as int)),
        decreases transactions@.len() - i,
    {
        let tx = &transactions[i];
        let raw: usize = match &tx.raw {
            Some(raw) => raw.len(),
            None => 0,
        };
        assert(of(transactions@[i as int]) == whole_len(*tx));
        dropped = dropped.saturating_add(raw).saturating_add(tx.txid.len()).saturating_add(
            tx.wtxid.len(),
        );
        i = i + 1;
    }
    dropped
}

fn take_all(transactions: &mut Vec<Transaction>) -> (dropped: usize)
    ensures
        final(transactions)@ == Seq::new(
            old(transactions)@.len(),
            |i: int| without_raw(old(transactions)@[i]),
        ),
        dropped == held(
            total(
                old(transactions)@,
                |t: Transaction| raw_len(t),
                old(transactions)@.len() as int,
            ),
        ),
{
    let ghost of = |t: Transaction| raw_len(t);
    let ghost before = transactions@;
    let mut dropped: usize = 0;
    let mut i: usize = 0;
    while i < transactions.len()
        invariant
            i <= transactions@.len(),
            transactions@.len() == before.len(),
            of == (|t: Transaction| raw_len(t)),
            forall|j: int| 0 <= j < i ==> #[trigger] transactions@[j] == without_raw(before[j]),
            forall|j: int| i <= j < before.len() ==> #[trigger] transactions@[j] == before[j],
            dropped == held(total(before, of, i as int)),
        decreases transactions@.len() - i,
    {
        assert(of(before[i as int]) == raw_len(before[i as int]));
        let raw: usize = take_raw(&mut transactions[i]);
        dropped = dropped.saturating_add(raw);
        i = i + 1;
    }
    assert(transactions@ =~= Seq::new(before.len(), |i: int| without_raw(before[i])));
    dropped
}

fn take_prefilled(transactions: &mut Vec<PrefilledTransaction>) -> (dropped: usize)
    ensures
        final(transactions)@ == Seq::new(
            old(transactions)@.len(),
            |i: int|
                PrefilledTransaction {
                    diff_index: old(transactions)@[i].diff_index,
                    tx: without_raw(old(transactions)@[i].tx),
                },
        ),
        dropped == held(
            total(
                prefilled(old(transactions)@),
                |t: Transaction| raw_len(t),
                old(transactions)@.len() as int,
            ),
        ),
{
    let ghost of = |t: Transaction| raw_len(t);
    let ghost before = transactions@;
    let mut dropped: usize = 0;
    let mut i: usize = 0;
    while i < transactions.len()
        invariant
            i <= transactions@.len(),
            transactions@.len() == before.len(),
            of == (|t: Transaction| raw_len(t)),
            forall|j: int|
                0 <= j < i ==> #[trigger] transactions@[j] == (PrefilledTransaction {
                    diff_index: before[j].diff_index,
                    tx: without_raw(before[j].tx),
                }),
            forall|j: int| i <= j < before.len() ==> #[trigger] transactions@[j] == before[j],
            dropped == held(total(prefilled(before), of, i as int)),
        decreases transactions@.len() - i,
    {
        assert(of(prefilled(before)[i as int]) == raw_len(before[i as int].tx));
        let raw: usize = take_raw(&mut transactions[i].tx);
        dropped = dropped.saturating_add(raw);
        i = i + 1;
    }
    assert(transactions@ =~= Seq::new(
        before.len(),
        |i: int|
            PrefilledTransaction {
                diff_index: before[i].diff_index,
                tx: without_raw(before[i].tx),
            },
    ));
    dropped
}

/// Stripping leaves what the views depend on alone: the time of an event, what it
/// is classified as, and the metadata of its message.
pub proof fn law_stripping_keeps_what_the_views_read(before: Event, after: Event)
    requires
        stripped(before, after),
    ensures
        after.timestamp == before.timestamp,
        kind::classified(after) == kind::classified(before),
        message_in(before) matches Some(message) ==> message_in(after) matches Some(kept)
            && kept.meta == message.meta,
        message_in(before) is None ==> after == before,
{
}

/// There is nothing left to strip from a stripped event.
pub proof fn law_stripping_twice_drops_nothing_more(before: Event, after: Event)
    requires
        stripped(before, after),
    ensures
        message_in(after) matches Some(kept) ==> weight(kept.msg) == 0,
{
    if let Some(message) = message_in(before) {
        let kept = message_in(after)->0;
        match kept.msg {
            Some(Msg::Blocktxn(blocktxn)) => {
                lemma_no_raw(blocktxn.transactions@, blocktxn.transactions@.len() as int);
            },
            Some(Msg::Compactblock(compact)) => {
                let transactions = prefilled(compact.transactions@);
                lemma_no_raw(transactions, transactions.len() as int);
            },
            _ => {},
        }
    }
}

proof fn lemma_no_raw(transactions: Seq<Transaction>, upto: int)
    requires
        upto <= transactions.len(),
        forall|i: int| 0 <= i < upto ==> (#[trigger] transactions[i]).raw is None,
    ensures
        total(transactions, |t: Transaction| raw_len(t), upto) == 0,
    decreases upto,
{
    if upto > 0 {
        lemma_no_raw(transactions, upto - 1);
    }
}

/// A transaction keeps its ids and loses its bytes; a block keeps its header.
pub proof fn law_what_identifies_a_message_is_kept(before: Option<Msg>, after: Option<Msg>)
    requires
        lightened(before, after),
    ensures
        before matches Some(Msg::Tx(tx)) ==> after matches Some(Msg::Tx(kept)) && kept.tx.txid
            == tx.tx.txid && kept.tx.wtxid == tx.tx.wtxid && kept.tx.raw is None,
        before matches Some(Msg::Block(block)) ==> after matches Some(Msg::Block(kept))
            && kept.header == block.header,
        before matches Some(Msg::Unknown(unknown)) ==> after matches Some(Msg::Unknown(kept))
            && kept.command == unknown.command,
{
}

/// All the bytes of transactions, or of a payload, that a message carries.
pub open spec fn carried(msg: Option<Msg>) -> nat {
    match msg {
        Some(Msg::Tx(tx)) => whole_len(tx.tx),
        Some(Msg::Block(block)) => total(
            block.transactions@,
            |t: Transaction| whole_len(t),
            block.transactions@.len() as int,
        ),
        Some(Msg::Blocktxn(blocktxn)) => total(
            blocktxn.transactions@,
            |t: Transaction| whole_len(t),
            blocktxn.transactions@.len() as int,
        ),
        Some(Msg::Compactblock(compact)) => total(
            prefilled(compact.transactions@),
            |t: Transaction| whole_len(t),
            compact.transactions@.len() as int,
        ),
        Some(Msg::Unknown(unknown)) => unknown.payload@.len(),
        _ => 0,
    }
}

proof fn lemma_carried(before: Seq<Transaction>, after: Seq<Transaction>, upto: int)
    requires
        0 <= upto <= before.len(),
        after.len() == before.len(),
        forall|i: int|
            0 <= i < before.len() ==> #[trigger] after[i] == without_raw(before[i]),
    ensures
        total(before, |t: Transaction| whole_len(t), upto) == total(
            after,
            |t: Transaction| whole_len(t),
            upto,
        ) + total(before, |t: Transaction| raw_len(t), upto),
    decreases upto,
{
    if upto > 0 {
        lemma_carried(before, after, upto - 1);
        assert(after[upto - 1] == without_raw(before[upto - 1]));
    }
}

/// What stripping says it dropped is what is gone: a message carries that many bytes less,
/// counting the raw bytes and both ids of every transaction, and the payload of a message
/// nobody knows.
pub proof fn law_what_was_dropped_is_what_is_gone(before: Option<Msg>, after: Option<Msg>)
    requires
        lightened(before, after),
    ensures
        carried(after) + weight(before) == carried(before),
{
    match (before, after) {
        (Some(Msg::Blocktxn(full)), Some(Msg::Blocktxn(kept))) => {
            lemma_carried(
                full.transactions@,
                kept.transactions@,
                full.transactions@.len() as int,
            );
        },
        (Some(Msg::Compactblock(full)), Some(Msg::Compactblock(kept))) => {
            let (were, are) = (prefilled(full.transactions@), prefilled(kept.transactions@));
            assert forall|i: int| 0 <= i < were.len() implies #[trigger] are[i] == without_raw(
                were[i],
            ) by {
                assert(kept.transactions@[i].tx == without_raw(full.transactions@[i].tx));
            }
            lemma_carried(were, are, were.len() as int);
        },
        _ => {},
    }
}

} // verus!
