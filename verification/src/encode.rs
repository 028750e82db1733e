//! Encoding what is left of an event once its raw data has been dropped.
//!
//! The record is decoded by its descriptors, loses what the event lost, and is encoded
//! again; fields the viewer does not know of stay as they are.

use crate::messages;
use crate::messages::{Decoded, Messages};
use crate::proto::{
    Block, BlockTxn, CompactBlock, EbpfEvent, Event, MessageEvent, Msg, PeerObserverEvent,
    PrefilledTransaction, Transaction, Tx, Unknown,
};
use crate::reflect;
use crate::reflect::{encode_message, field_in, list_in, listed_mut, message_in_mut, Raw, Sort};
use crate::strip;
use prost_reflect::{DynamicMessage, Value};
use vstd::prelude::*;
use vstd::string::*;

verus! {

proof fn lemma_lookup_push(
    fields: messages::Fields,
    last: (Seq<char>, Sort, Raw),
    name: Seq<char>,
    from: int,
)
    requires
        0 <= from <= fields.len(),
    ensures
        reflect::lookup_from(fields.push(last), name, from) == (match reflect::lookup_from(
            fields,
            name,
            from,
        ) {
            Some(raw) => Some(raw),
            None => if last.0 == name {
                Some(last.2)
            } else {
                None
            },
        }),
    decreases fields.len() - from,
{
    let longer = fields.push(last);
    if from < fields.len() {
        assert(longer[from] == fields[from]);
        lemma_lookup_push(fields, last, name, from + 1);
    } else {
        assert(longer[from] == last);
        assert(reflect::lookup_from(longer, name, from + 1) is None);
    }
}

/// Clearing a field unsets that one and no other.
proof fn lemma_without(fields: messages::Fields, cleared: Seq<char>, name: Seq<char>)
    ensures
        reflect::lookup(reflect::without(fields, cleared), name) == (if name == cleared {
            None
        } else {
            reflect::lookup(fields, name)
        }),
    decreases fields.len(),
{
    if fields.len() > 0 {
        let front = fields.drop_last();
        lemma_without(front, cleared, name);
        assert(fields =~= front.push(fields.last()));
        lemma_lookup_push(front, fields.last(), name, 0);
        lemma_lookup_push(reflect::without(front, cleared), fields.last(), name, 0);
    }
}

proof fn lemma_with_field_from(
    fields: messages::Fields,
    changed: Seq<char>,
    raw: Raw,
    name: Seq<char>,
    from: int,
)
    requires
        0 <= from <= fields.len(),
    ensures
        reflect::lookup_from(reflect::with_field(fields, changed, raw), name, from) == (
        match reflect::lookup_from(fields, name, from) {
            Some(held) => if name == changed {
                Some(raw)
            } else {
                Some(held)
            },
            None => None,
        }),
    decreases fields.len() - from,
{
    if from < fields.len() {
        lemma_with_field_from(fields, changed, raw, name, from + 1);
    }
}

/// Whether two messages have the same fields set, and hold the same in all of them but
/// one.
spec fn same_but(before: messages::Fields, after: messages::Fields, name: Seq<char>) -> bool {
    forall|other: Seq<char>|
        other != name ==> #[trigger] reflect::lookup(after, other) == reflect::lookup(
            before,
            other,
        )
}

proof fn lemma_changed(fields: messages::Fields, name: Seq<char>, raw: Raw)
    requires
        messages::sets(fields, name),
    ensures
        same_but(fields, reflect::with_field(fields, name, raw), name),
        reflect::lookup(reflect::with_field(fields, name, raw), name) == Some(raw),
{
    let after = reflect::with_field(fields, name, raw);
    assert forall|other: Seq<char>| other != name implies #[trigger] reflect::lookup(after, other)
        == reflect::lookup(fields, other) by {
        lemma_with_field_from(fields, name, raw, other, 0);
    }
    lemma_with_field_from(fields, name, raw, name, 0);
}

/// Clear a field.
fn clear(message: &mut DynamicMessage, name: &str)
    ensures
        same_but(reflect::contents(*old(message)), reflect::contents(*final(message)), name@),
        !messages::sets(reflect::contents(*final(message)), name@),
        reflect::may_replace(*old(message), *final(message)),
{
    let ghost before = reflect::contents(*message);
    message.clear_field_by_name(name);
    proof {
        let after = reflect::contents(*message);
        assert forall|other: Seq<char>| other != name@ implies #[trigger] reflect::lookup(
            after,
            other,
        ) == reflect::lookup(before, other) by {
            lemma_without(before, name@, other);
        }
        lemma_without(before, name@, name@);
    }
}

/// Whether a field holds a message.
fn holds_message(message: &DynamicMessage, name: &str) -> (yes: bool)
    ensures
        yes == (reflect::lookup(reflect::contents(*message), name@) matches Some(raw)
            && raw is Message),
{
    if !message.has_field_by_name(name) {
        return false;
    }
    match field_in(message, name) {
        Some(value) => reflect::message_in(value).is_some(),
        None => false,
    }
}

/// Take the raw bytes out of a transaction.
fn clear_raw(message: &mut DynamicMessage)
    ensures
        forall|tx: Transaction| #[trigger]
            messages::is_transaction(tx, reflect::contents(*old(message)))
                ==> messages::is_transaction(
                strip::without_raw(tx),
                reflect::contents(*final(message)),
            ),
        reflect::may_replace(*old(message), *final(message)),
{
    proof {
        reveal_strlit("raw");
        reveal_strlit("txid");
        reveal_strlit("wtxid");
        assert("txid"@.len() != "raw"@.len());
        assert("wtxid"@.len() != "raw"@.len());
    }
    clear(message, "raw");
}

/// Take the raw bytes out of the transaction in a field, if there is one.
fn clear_raw_in(message: &mut DynamicMessage)
    ensures
        ({
            let before = reflect::contents(*old(message));
            let after = reflect::contents(*final(message));
            &&& same_but(before, after, "tx"@)
            &&& forall|tx: Transaction| #[trigger]
                messages::is_transaction(tx, messages::message_at(before, "tx"@))
                    ==> messages::is_transaction(
                    strip::without_raw(tx),
                    messages::message_at(after, "tx"@),
                )
        }),
        reflect::may_replace(*old(message), *final(message)),
{
    let ghost before = reflect::contents(*message);
    if holds_message(message, "tx") {
        let inner = message_in_mut(message, "tx");
        clear_raw(inner);
        let ghost left = Raw::Message(reflect::contents(*inner));
        proof {
            lemma_changed(before, "tx"@, left);
        }
    } else {
        proof {
            lemma_nothing_raw(before, "tx"@);
        }
    }
}

/// A field that holds no message reads as a transaction without raw bytes.
proof fn lemma_nothing_raw(fields: messages::Fields, name: Seq<char>)
    requires
        !(reflect::lookup(fields, name) matches Some(raw) && raw is Message),
    ensures
        forall|tx: Transaction| #[trigger]
            messages::is_transaction(tx, messages::message_at(fields, name))
                ==> strip::without_raw(tx) == tx,
{
    assert(messages::message_at(fields, name) =~= Seq::empty());
    assert(!messages::sets(messages::message_at(fields, name), "raw"@));
}

/// Take the raw bytes out of what was delivered.
fn lighten_tx(message: &mut DynamicMessage)
    ensures
        forall|tx: Tx| #[trigger]
            messages::is_tx(tx, reflect::contents(*old(message))) ==> messages::is_tx(
                Tx { tx: strip::without_raw(tx.tx) },
                reflect::contents(*final(message)),
            ),
        reflect::may_replace(*old(message), *final(message)),
{
    clear_raw_in(message);
}

/// Take the transactions out of a block.
fn lighten_block(message: &mut DynamicMessage)
    ensures
        forall|block: Block, kept: Block|
            #![trigger
                messages::is_block(block, reflect::contents(*old(message))),
                messages::is_block(kept, reflect::contents(*final(message)))
            ]
            messages::is_block(block, reflect::contents(*old(message))) && kept.header
                == block.header && kept.transactions@.len() == 0 ==> messages::is_block(
                kept,
                reflect::contents(*final(message)),
            ),
        reflect::may_replace(*old(message), *final(message)),
{
    proof {
        reveal_strlit("header");
        reveal_strlit("transactions");
        assert("header"@.len() != "transactions"@.len());
    }
    clear(message, "transactions");
}

/// Take the payload out of a message of an unknown command.
fn lighten_unknown(message: &mut DynamicMessage)
    ensures
        forall|unknown: Unknown, kept: Unknown|
            #![trigger
                messages::is_unknown(unknown, reflect::contents(*old(message))),
                messages::is_unknown(kept, reflect::contents(*final(message)))
            ]
            messages::is_unknown(unknown, reflect::contents(*old(message))) && kept.command
                == unknown.command && kept.payload@.len() == 0 ==> messages::is_unknown(
                kept,
                reflect::contents(*final(message)),
            ),
        reflect::may_replace(*old(message), *final(message)),
{
    proof {
        reveal_strlit("command");
        reveal_strlit("payload");
        assert("command"@[0] != "payload"@[0]);
    }
    clear(message, "payload");
    proof {
        let after = reflect::contents(*message);
        assert(messages::octets_at(after, "payload"@) =~= Seq::empty());
        assert forall|kept: Unknown| kept.payload@.len() == 0 implies #[trigger] kept.payload@
            =~= Seq::<u8>::empty() by {}
    }
}

/// The values in a repeated field of a message.
fn values_in<'a>(message: &'a DynamicMessage, name: &str) -> (list: Option<&'a [Value]>)
    ensures
        messages::held_in(list) == messages::list_at(reflect::contents(*message), name@),
        list is Some <==> (reflect::lookup(reflect::contents(*message), name@) matches Some(raw)
            && raw is List),
{
    if message.has_field_by_name(name) {
        match field_in(message, name) {
            Some(value) => list_in(value),
            None => None,
        }
    } else {
        None
    }
}

/// Which of the values in a repeated field hold messages.
fn which_hold_messages(message: &DynamicMessage, name: &str) -> (which: Vec<bool>)
    ensures
        which@.len() == messages::list_at(reflect::contents(*message), name@).len(),
        forall|i: int|
            0 <= i < which@.len() ==> #[trigger] which@[i] == (messages::list_at(
                reflect::contents(*message),
                name@,
            )[i] is Message),
        which@.len() > 0 ==> (reflect::lookup(reflect::contents(*message), name@) matches Some(raw)
            && raw is List),
{
    let ghost items = messages::list_at(reflect::contents(*message), name@);
    let mut which: Vec<bool> = Vec::new();
    if let Some(list) = values_in(message, name) {
        let mut i: usize = 0;
        while i < list.len()
            invariant
                i <= list@.len(),
                which@.len() == i,
                items == messages::held_in(Some(list)),
                forall|k: int| 0 <= k < i ==> #[trigger] which@[k] == (items[k] is Message),
            decreases list@.len() - i,
        {
            assert(items[i as int] == reflect::held(list@[i as int]));
            which.push(reflect::message_in(&list[i]).is_some());
            i = i + 1;
        }
    }
    which
}

/// Take the raw bytes out of the transactions of a block.
fn lighten_blocktxn(message: &mut DynamicMessage)
    ensures
        forall|txs: BlockTxn, kept: BlockTxn|
            #![trigger
                messages::is_blocktxn(txs, reflect::contents(*old(message))),
                messages::is_blocktxn(kept, reflect::contents(*final(message)))
            ]
            messages::is_blocktxn(txs, reflect::contents(*old(message))) && kept.block_hash
                == txs.block_hash && kept.transactions@ == Seq::new(
                txs.transactions@.len(),
                |i: int| strip::without_raw(txs.transactions@[i]),
            ) ==> messages::is_blocktxn(kept, reflect::contents(*final(message))),
        reflect::may_replace(*old(message), *final(message)),
{
    let ghost first = reflect::contents(*message);
    let ghost items = messages::list_at(first, "transactions"@);
    let which = which_hold_messages(message, "transactions");
    let mut i: usize = 0;
    while i < which.len()
        invariant
            i <= which@.len(),
            items == messages::list_at(first, "transactions"@),
            which@.len() == items.len(),
            forall|k: int| 0 <= k < which@.len() ==> #[trigger] which@[k] == (items[k] is Message),
            same_but(first, reflect::contents(*message), "transactions"@),
            i < which@.len() ==> (reflect::lookup(
                reflect::contents(*message),
                "transactions"@,
            ) matches Some(raw) && raw is List),
            messages::list_at(reflect::contents(*message), "transactions"@).len() == items.len(),
            forall|k: int|
                i <= k < items.len() ==> #[trigger] messages::list_at(
                    reflect::contents(*message),
                    "transactions"@,
                )[k] == items[k],
            forall|k: int, tx: Transaction|
                0 <= k < i && #[trigger] messages::is_transaction(tx, messages::fields_in(items[k]))
                    ==> messages::is_transaction(
                    strip::without_raw(tx),
                    messages::fields_in(
                        messages::list_at(reflect::contents(*message), "transactions"@)[k],
                    ),
                ),
            reflect::may_replace(*old(message), *message),
        decreases which@.len() - i,
    {
        let ghost before = reflect::contents(*message);
        let ghost held = messages::list_at(before, "transactions"@);
        if which[i] {
            assert(held[i as int] == items[i as int]);
            let inner = listed_mut(message, "transactions", i);
            clear_raw(inner);
            let ghost left = Raw::List(
                held.update(i as int, Raw::Message(reflect::contents(*inner))),
            );
            proof {
                lemma_changed(before, "transactions"@, left);
            }
        } else {
            assert(held[i as int] == items[i as int]);
            assert(messages::fields_in(items[i as int]) =~= Seq::empty());
            assert(!messages::sets(messages::fields_in(items[i as int]), "raw"@));
        }
        i = i + 1;
    }
    proof {
        reveal_strlit("block_hash");
        reveal_strlit("transactions");
        assert("block_hash"@.len() != "transactions"@.len());
    }
}

/// A prefilled transaction without its raw bytes.
spec fn prefilled_without_raw(prefilled: PrefilledTransaction) -> PrefilledTransaction {
    PrefilledTransaction {
        diff_index: prefilled.diff_index,
        tx: strip::without_raw(prefilled.tx),
    }
}

/// Take the raw bytes out of a prefilled transaction.
fn lighten_prefilled(message: &mut DynamicMessage)
    ensures
        forall|prefilled: PrefilledTransaction| #[trigger]
            messages::is_prefilled(prefilled, reflect::contents(*old(message)))
                ==> messages::is_prefilled(
                prefilled_without_raw(prefilled),
                reflect::contents(*final(message)),
            ),
        reflect::may_replace(*old(message), *final(message)),
{
    proof {
        reveal_strlit("diff_index");
        reveal_strlit("tx");
        assert("diff_index"@.len() != "tx"@.len());
    }
    clear_raw_in(message);
}

/// A value that holds no message reads as a prefilled transaction without raw bytes.
proof fn lemma_nothing_prefilled(raw: Raw)
    requires
        !(raw is Message),
    ensures
        forall|prefilled: PrefilledTransaction| #[trigger]
            messages::is_prefilled(prefilled, messages::fields_in(raw)) ==> prefilled_without_raw(
                prefilled,
            ) == prefilled,
{
    let fields = messages::fields_in(raw);
    assert(fields =~= Seq::empty());
    assert(!messages::sets(fields, "tx"@));
    lemma_nothing_raw(fields, "tx"@);
}

/// Take the raw bytes out of the transactions of a compact block.
fn lighten_compactblock(message: &mut DynamicMessage)
    ensures
        forall|block: CompactBlock, kept: CompactBlock|
            #![trigger
                messages::is_compactblock(block, reflect::contents(*old(message))),
                messages::is_compactblock(kept, reflect::contents(*final(message)))
            ]
            messages::is_compactblock(block, reflect::contents(*old(message))) && kept.header
                == block.header && kept.nonce == block.nonce && kept.short_ids == block.short_ids
                && kept.transactions@ == Seq::new(
                block.transactions@.len(),
                |i: int| prefilled_without_raw(block.transactions@[i]),
            ) ==> messages::is_compactblock(kept, reflect::contents(*final(message))),
        reflect::may_replace(*old(message), *final(message)),
{
    let ghost first = reflect::contents(*message);
    let ghost items = messages::list_at(first, "transactions"@);
    let which = which_hold_messages(message, "transactions");
    let mut i: usize = 0;
    while i < which.len()
        invariant
            i <= which@.len(),
            items == messages::list_at(first, "transactions"@),
            which@.len() == items.len(),
            forall|k: int| 0 <= k < which@.len() ==> #[trigger] which@[k] == (items[k] is Message),
            same_but(first, reflect::contents(*message), "transactions"@),
            i < which@.len() ==> (reflect::lookup(
                reflect::contents(*message),
                "transactions"@,
            ) matches Some(raw) && raw is List),
            messages::list_at(reflect::contents(*message), "transactions"@).len() == items.len(),
            forall|k: int|
                i <= k < items.len() ==> #[trigger] messages::list_at(
                    reflect::contents(*message),
                    "transactions"@,
                )[k] == items[k],
            forall|k: int, prefilled: PrefilledTransaction|
                0 <= k < i && #[trigger] messages::is_prefilled(
                    prefilled,
                    messages::fields_in(items[k]),
                ) ==> messages::is_prefilled(
                    prefilled_without_raw(prefilled),
                    messages::fields_in(
                        messages::list_at(reflect::contents(*message), "transactions"@)[k],
                    ),
                ),
            reflect::may_replace(*old(message), *message),
        decreases which@.len() - i,
    {
        let ghost before = reflect::contents(*message);
        let ghost held = messages::list_at(before, "transactions"@);
        assert(held[i as int] == items[i as int]);
        if which[i] {
            let inner = listed_mut(message, "transactions", i);
            lighten_prefilled(inner);
            let ghost left = Raw::List(
                held.update(i as int, Raw::Message(reflect::contents(*inner))),
            );
            proof {
                lemma_changed(before, "transactions"@, left);
            }
        } else {
            proof {
                lemma_nothing_prefilled(items[i as int]);
            }
        }
        i = i + 1;
    }
    proof {
        reveal_strlit("header");
        reveal_strlit("nonce");
        reveal_strlit("short_ids");
        reveal_strlit("transactions");
        assert("header"@.len() != "transactions"@.len());
        assert("nonce"@.len() != "transactions"@.len());
        assert("short_ids"@.len() != "transactions"@.len());
    }
}

/// A message event keeps what it is about and carries something of the same kind when
/// what it carries is changed in place.
proof fn lemma_still(before: messages::Fields, after: messages::Fields, name: Seq<char>)
    requires
        messages::sets(before, name),
        messages::sets(after, name),
        same_but(before, after, name),
        name != "meta"@,
    ensures
        forall|other: Seq<char>| #[trigger]
            messages::sets(after, other) == messages::sets(before, other),
        forall|meta: crate::proto::Metadata| #[trigger]
            messages::is_metadata(meta, messages::message_at(before, "meta"@))
                ==> messages::is_metadata(meta, messages::message_at(after, "meta"@)),
{
    assert forall|other: Seq<char>| #[trigger] messages::sets(after, other) == messages::sets(
        before,
        other,
    ) by {
        if other != name {
            assert(reflect::lookup(after, other) == reflect::lookup(before, other));
        }
    }
    assert(reflect::lookup(after, "meta"@) == reflect::lookup(before, "meta"@));
}

/// A field that holds no message reads as nothing that could be dropped.
proof fn lemma_bare(fields: messages::Fields, name: Seq<char>)
    requires
        !(reflect::lookup(fields, name) matches Some(raw) && raw is Message),
    ensures
        messages::message_at(fields, name).len() == 0,
        forall|other: Seq<char>| !(#[trigger] messages::sets(
            messages::message_at(fields, name),
            other,
        )),
        forall|other: Seq<char>|
            (#[trigger] messages::list_at(messages::message_at(fields, name), other)).len() == 0,
        forall|other: Seq<char>|
            (#[trigger] messages::octets_at(messages::message_at(fields, name), other)).len() == 0,
{
    assert(messages::message_at(fields, name) =~= Seq::empty());
}

/// Take out of a message event what it has lost.
fn lighten_message(message: &mut DynamicMessage, left: &MessageEvent, was: Ghost<MessageEvent>)
    requires
        messages::is_message_event(was@, reflect::contents(*old(message))),
        left.meta == was@.meta,
        strip::lightened(was@.msg, left.msg),
    ensures
        messages::is_message_event(*left, reflect::contents(*final(message))),
        reflect::may_replace(*old(message), *final(message)),
{
    let ghost before = reflect::contents(*message);
    proof {
        reveal_strlit("meta");
        reveal_strlit("tx");
        reveal_strlit("block");
        reveal_strlit("blocktxn");
        reveal_strlit("compactblock");
        reveal_strlit("unknown");
        assert("meta"@.len() == 4);
    }
    match &left.msg {
        Some(Msg::Tx(_)) => {
            if holds_message(message, "tx") {
                let inner = message_in_mut(message, "tx");
                lighten_tx(inner);
                let ghost kept = Raw::Message(reflect::contents(*inner));
                proof {
                    let held = messages::message_at(before, "tx"@);
                    let after = reflect::with_field(before, "tx"@, kept);
                    lemma_changed(before, "tx"@, kept);
                    lemma_still(before, after, "tx"@);
                    assert(messages::is_tx(was@.msg->0->Tx_0, held));
                    assert(messages::is_tx(left.msg->0->Tx_0, messages::fields_in(kept)));
                    assert(messages::is_msg(left.msg, after));
                }
            } else {
                proof {
                    let held = messages::message_at(before, "tx"@);
                    lemma_bare(before, "tx"@);
                    assert(messages::is_tx(was@.msg->0->Tx_0, held));
                    assert(messages::is_tx(left.msg->0->Tx_0, held));
                }
            }
        },
        Some(Msg::Block(_)) => {
            if holds_message(message, "block") {
                let inner = message_in_mut(message, "block");
                lighten_block(inner);
                let ghost kept = Raw::Message(reflect::contents(*inner));
                proof {
                    let held = messages::message_at(before, "block"@);
                    let after = reflect::with_field(before, "block"@, kept);
                    lemma_changed(before, "block"@, kept);
                    lemma_still(before, after, "block"@);
                    assert(messages::is_block(was@.msg->0->Block_0, held));
                    assert(messages::is_block(left.msg->0->Block_0, messages::fields_in(kept)));
                    assert(messages::is_msg(left.msg, after));
                }
            } else {
                proof {
                    let held = messages::message_at(before, "block"@);
                    lemma_bare(before, "block"@);
                    assert(messages::is_block(was@.msg->0->Block_0, held));
                    assert(messages::is_block(left.msg->0->Block_0, held));
                }
            }
        },
        Some(Msg::Blocktxn(_)) => {
            if holds_message(message, "blocktxn") {
                let inner = message_in_mut(message, "blocktxn");
                lighten_blocktxn(inner);
                let ghost kept = Raw::Message(reflect::contents(*inner));
                proof {
                    let held = messages::message_at(before, "blocktxn"@);
                    let after = reflect::with_field(before, "blocktxn"@, kept);
                    lemma_changed(before, "blocktxn"@, kept);
                    lemma_still(before, after, "blocktxn"@);
                    assert(messages::is_blocktxn(was@.msg->0->Blocktxn_0, held));
                    assert(messages::is_blocktxn(left.msg->0->Blocktxn_0, messages::fields_in(kept)));
                    assert(messages::is_msg(left.msg, after));
                }
            } else {
                proof {
                    let held = messages::message_at(before, "blocktxn"@);
                    lemma_bare(before, "blocktxn"@);
                    assert(messages::is_blocktxn(was@.msg->0->Blocktxn_0, held));
                    assert(messages::is_blocktxn(left.msg->0->Blocktxn_0, held));
                }
            }
        },
        Some(Msg::Compactblock(_)) => {
            if holds_message(message, "compactblock") {
                let inner = message_in_mut(message, "compactblock");
                lighten_compactblock(inner);
                let ghost kept = Raw::Message(reflect::contents(*inner));
                proof {
                    let held = messages::message_at(before, "compactblock"@);
                    let after = reflect::with_field(before, "compactblock"@, kept);
                    lemma_changed(before, "compactblock"@, kept);
                    lemma_still(before, after, "compactblock"@);
                    assert(messages::is_compactblock(was@.msg->0->Compactblock_0, held));
                    let whole = was@.msg->0->Compactblock_0.transactions@;
                    assert(left.msg->0->Compactblock_0.transactions@ =~= Seq::new(
                        whole.len(),
                        |i: int| prefilled_without_raw(whole[i]),
                    ));
                    assert(messages::is_compactblock(
                        left.msg->0->Compactblock_0,
                        messages::fields_in(kept),
                    ));
                    assert(messages::is_msg(left.msg, after));
                }
            } else {
                proof {
                    let held = messages::message_at(before, "compactblock"@);
                    lemma_bare(before, "compactblock"@);
                    assert(messages::is_compactblock(was@.msg->0->Compactblock_0, held));
                    assert(messages::is_compactblock(left.msg->0->Compactblock_0, held));
                }
            }
        },
        Some(Msg::Unknown(_)) => {
            if holds_message(message, "unknown") {
                let inner = message_in_mut(message, "unknown");
                lighten_unknown(inner);
                let ghost kept = Raw::Message(reflect::contents(*inner));
                proof {
                    let held = messages::message_at(before, "unknown"@);
                    let after = reflect::with_field(before, "unknown"@, kept);
                    lemma_changed(before, "unknown"@, kept);
                    lemma_still(before, after, "unknown"@);
                    assert(messages::is_unknown(was@.msg->0->Unknown_0, held));
                    assert(messages::is_unknown(left.msg->0->Unknown_0, messages::fields_in(kept)));
                    assert(messages::is_msg(left.msg, after));
                }
            } else {
                proof {
                    let held = messages::message_at(before, "unknown"@);
                    lemma_bare(before, "unknown"@);
                    assert(messages::is_unknown(was@.msg->0->Unknown_0, held));
                    assert(left.msg->0->Unknown_0.payload@ =~= was@.msg->0->Unknown_0.payload@);
                    assert(messages::is_unknown(left.msg->0->Unknown_0, held));
                }
            }
        },
        _ => {},
    }
}

/// What a record is to be retained as, once the event it holds has been left with less:
/// the record without what is no longer in the event.
pub fn encode_stripped(messages: &Messages, bytes: &[u8], left: &Event) -> (kept: Vec<u8>)
    requires
        messages.wf(),
        exists|event: Event| #[trigger]
            strip::stripped(event, *left) && messages::holds(
                Decoded::Event(event),
                messages.source(),
                1,
                bytes@,
            ),
    ensures
        messages::holds(Decoded::Event(*left), messages.source(), 1, kept@),
{
    let ghost event = choose|event: Event| #[trigger]
        strip::stripped(event, *left) && messages::holds(
            Decoded::Event(event),
            messages.source(),
            1,
            bytes@,
        );
    let mut message = match messages.decode_event(bytes) {
        Some(message) => message,
        None => {
            // It holds an event.
            return Vec::new();
        },
    };
    lighten_event(&mut message, left, Ghost(event));
    encode_message(&message)
}

/// Take out of an event what it has lost.
fn lighten_event(message: &mut DynamicMessage, left: &Event, was: Ghost<Event>)
    requires
        messages::is_event(was@, reflect::contents(*old(message))),
        strip::stripped(was@, *left),
    ensures
        messages::is_event(*left, reflect::contents(*final(message))),
        reflect::may_replace(*old(message), *final(message)),
{
    let ghost before = reflect::contents(*message);
    let ghost outer = messages::message_at(before, "ebpf_extractor"@);
    let kept = match &left.peer_observer_event {
        Some(PeerObserverEvent::EbpfExtractor(ebpf)) => match &ebpf.ebpf_event {
            Some(EbpfEvent::Message(kept)) => kept,
            _ => {
                return ;
            },
        },
        _ => {
            return ;
        },
    };
    let ghost whole = strip::message_in(was@)->0;
    assert(messages::sets(before, "ebpf_extractor"@));
    assert(messages::sets(outer, "message"@));
    if !holds_message(message, "ebpf_extractor") {
        proof {
            lemma_bare(before, "ebpf_extractor"@);
        }
        return ;
    }
    let ebpf = message_in_mut(message, "ebpf_extractor");
    if !holds_message(ebpf, "message") {
        let ghost extracted = Raw::Message(reflect::contents(*ebpf));
        proof {
            lemma_bare(outer, "message"@);
            assert(!messages::speaks(messages::message_at(outer, "message"@)));
            assert(whole.msg is None);
            assert(*left == was@);
            lemma_changed(before, "ebpf_extractor"@, extracted);
            reveal_strlit("timestamp");
            reveal_strlit("ebpf_extractor");
            assert("timestamp"@.len() != "ebpf_extractor"@.len());
        }
        return ;
    }
    let inner = message_in_mut(ebpf, "message");
    lighten_message(inner, kept, Ghost(whole));
    let ghost speech = Raw::Message(reflect::contents(*inner));
    proof {
        lemma_changed(outer, "message"@, speech);
    }
    let ghost extracted = Raw::Message(reflect::contents(*ebpf));
    proof {
        lemma_changed(before, "ebpf_extractor"@, extracted);
        reveal_strlit("timestamp");
        reveal_strlit("ebpf_extractor");
        assert("timestamp"@.len() != "ebpf_extractor"@.len());
    }
}

proof fn lemma_same_total(
    a: Seq<Transaction>,
    b: Seq<Transaction>,
    of: spec_fn(Transaction) -> nat,
    upto: int,
)
    requires
        upto <= a.len(),
        upto <= b.len(),
        forall|i: int| 0 <= i < upto ==> of(#[trigger] a[i]) == of(b[i]),
    ensures
        strip::total(a, of, upto) == strip::total(b, of, upto),
    decreases upto,
{
    if upto > 0 {
        lemma_same_total(a, b, of, upto - 1);
        assert(of(a[upto - 1]) == of(b[upto - 1]));
    }
}

/// What reads the same weighs the same.
proof fn lemma_same_weight(a: MessageEvent, b: MessageEvent, fields: messages::Fields)
    requires
        messages::is_message_event(a, fields),
        messages::is_message_event(b, fields),
    ensures
        strip::weight(a.msg) == strip::weight(b.msg),
{
    match (a.msg, b.msg) {
        (Some(Msg::Block(x)), Some(Msg::Block(y))) => {
            let of = |t: Transaction| strip::whole_len(t);
            let (xs, ys) = (x.transactions@, y.transactions@);
            assert forall|i: int| 0 <= i < xs.len() implies of(#[trigger] xs[i]) == of(ys[i]) by {
                assert(ys[i] == ys[i]);
            }
            lemma_same_total(xs, ys, of, xs.len() as int);
        },
        (Some(Msg::Blocktxn(x)), Some(Msg::Blocktxn(y))) => {
            let of = |t: Transaction| strip::raw_len(t);
            let (xs, ys) = (x.transactions@, y.transactions@);
            assert forall|i: int| 0 <= i < xs.len() implies of(#[trigger] xs[i]) == of(ys[i]) by {
                assert(ys[i] == ys[i]);
            }
            lemma_same_total(xs, ys, of, xs.len() as int);
        },
        (Some(Msg::Compactblock(x)), Some(Msg::Compactblock(y))) => {
            let of = |t: Transaction| strip::raw_len(t);
            let (xs, ys) = (
                strip::prefilled(x.transactions@),
                strip::prefilled(y.transactions@),
            );
            assert forall|i: int| 0 <= i < xs.len() implies of(#[trigger] xs[i]) == of(ys[i]) by {
                assert(xs[i] == x.transactions@[i].tx);
                assert(ys[i] == y.transactions@[i].tx);
            }
            lemma_same_total(xs, ys, of, xs.len() as int);
        },
        _ => {},
    }
}

/// What is retained of a stripped event holds no raw data: whatever its encoding is read
/// as, there is nothing left in it to strip, and it is still an event of the same time
/// and kind.
pub proof fn law_what_is_retained_holds_no_raw_data(
    whole: Event,
    left: Event,
    set: Seq<u8>,
    encoding: Seq<u8>,
    read: Event,
)
    requires
        strip::stripped(whole, left),
        messages::holds(Decoded::Event(left), set, 1, encoding),
        messages::holds(Decoded::Event(read), set, 1, encoding),
    ensures
        read.timestamp == whole.timestamp,
        strip::message_in(read) is Some <==> strip::message_in(whole) is Some,
        strip::message_in(read) matches Some(message) ==> {
            &&& strip::weight(message.msg) == 0
            &&& message.meta.peer_id == (strip::message_in(whole)->0).meta.peer_id
            &&& message.meta.command@ == (strip::message_in(whole)->0).meta.command@
        },
{
    strip::law_stripping_twice_drops_nothing_more(whole, left);
    strip::law_stripping_keeps_what_the_views_read(whole, left);
    if let Some(message) = strip::message_in(read) {
        let fields = match reflect::decoded(set, crate::inspect::EVENT_MESSAGE@, encoding) {
            Ok(fields) => fields,
            Err(_) => Seq::empty(),
        };
        let inner = messages::message_at(
            messages::message_at(fields, "ebpf_extractor"@),
            "message"@,
        );
        assert(messages::is_message_event(message, inner));
        let kept = strip::message_in(left)->0;
        assert(messages::is_message_event(kept, inner));
        lemma_same_weight(message, kept, inner);
    }
}

} // verus!
