//! What a P2P message carried, in one short line.
//!
//! The archive holds the decoded body of every message, not only its command
//! and size: an `inv` carries the txids it announced, an `addrv2` the addresses
//! it gossiped, a `headers` the headers themselves. None of that is read while
//! aggregating -- decoding two and a half million payloads to count events would
//! be an enormous cost for a number that does not need them -- so it is decoded
//! here, on demand, for the handful of rows a page of the sequence diagram
//! actually draws.
//!
//! Only messages whose *shape* is worth a word get one. `inv 1.2 kB` says
//! nothing about whether that was one transaction or forty; `inv 1.2 kB 40 wtx`
//! does. A `tx` message, on the other hand, is one transaction by definition,
//! and its size already says how big.

use crate::analysis::Analysis;
use crate::messages;
use crate::messages::{Decoded, Messages};
use crate::proto::{EbpfEvent, Event, InventoryItem, Item, Msg, PeerObserverEvent};
use crate::strip;
use crate::text;
use vstd::prelude::*;
use vstd::string::*;

verus! {

/// Whether a command has something to say beyond its size.
pub open spec fn is_detailed(command: Seq<char>) -> bool {
    ||| command == "inv"@
    ||| command == "getdata"@
    ||| command == "notfound"@
    ||| command == "addr"@
    ||| command == "addrv2"@
    ||| command == "headers"@
    ||| command == "cmpctblock"@
    ||| command == "getblocktxn"@
    ||| command == "blocktxn"@
}

/// Commands with something to say beyond their size.
///
/// Checked before decoding, so a page full of `tx` messages -- which is what a
/// relaying peer's page is -- costs nothing at all. The list is exactly the
/// arms [`describe`] handles.
pub fn has_detail(command: &str) -> (yes: bool)
    ensures
        yes == is_detailed(command@),
{
    text::same(command, "inv") || text::same(command, "getdata") || text::same(command, "notfound")
        || text::same(command, "addr") || text::same(command, "addrv2") || text::same(
        command,
        "headers",
    ) || text::same(command, "cmpctblock") || text::same(command, "getblocktxn") || text::same(
        command,
        "blocktxn",
    )
}

/// The wire command of a message whose arm names one.
pub open spec fn command_of(msg: Msg) -> Option<Seq<char>> {
    match msg {
        Msg::Inv(_) => Some("inv"@),
        Msg::Getdata(_) => Some("getdata"@),
        Msg::Notfound(_) => Some("notfound"@),
        Msg::Addr(_) => Some("addr"@),
        Msg::Addrv2(_) => Some("addrv2"@),
        Msg::Headers(_) => Some("headers"@),
        Msg::Compactblock(_) => Some("cmpctblock"@),
        Msg::Getblocktxn(_) => Some("getblocktxn"@),
        Msg::Blocktxn(_) => Some("blocktxn"@),
        Msg::Version(_) => Some("version"@),
        Msg::Verack(_) => Some("verack"@),
        Msg::Ping(_) => Some("ping"@),
        Msg::Tx(_) => Some("tx"@),
        Msg::Block(_) => Some("block"@),
        Msg::Unknown(_) => None,
        Msg::Other => None,
    }
}

/// A number of things.
pub open spec fn count_text(n: nat, one: Seq<char>, many: Seq<char>) -> Seq<char> {
    text::digits(n) + " "@ + (if n == 1 {
        one
    } else {
        many
    })
}

/// What a message is described as.
pub open spec fn described(msg: Msg) -> Option<Seq<char>> {
    match msg {
        Msg::Inv(m) => Some(inventory_text(m.items@)),
        Msg::Getdata(m) => Some(inventory_text(m.items@)),
        Msg::Notfound(m) => Some(inventory_text(m.items@)),
        Msg::Addr(m) => Some(count_text(m.addresses@.len(), "address"@, "addresses"@)),
        Msg::Addrv2(m) => Some(count_text(m.addresses@.len(), "address"@, "addresses"@)),
        Msg::Headers(m) => Some(count_text(m.headers@.len(), "header"@, "headers"@)),
        Msg::Compactblock(m) => Some(count_text(m.short_ids@.len(), "short id"@, "short ids"@)),
        Msg::Getblocktxn(m) => Some(count_text(m.tx_indexes@.len(), "index"@, "indexes"@)),
        Msg::Blocktxn(m) => Some(
            count_text(m.transactions@.len(), "transaction"@, "transactions"@),
        ),
        _ => None,
    }
}

/// Whether this is what there is to say of an event.
pub open spec fn is_detail(detail: Option<String>, event: Event) -> bool {
    match (detail, strip::message_in(event)) {
        (Some(detail), Some(message)) => message.msg matches Some(msg) && described(msg) == Some(
            detail@,
        ),
        (Some(_), None) => false,
        (None, Some(message)) => message.msg matches Some(msg) ==> described(msg) is None,
        (None, None) => true,
    }
}

/// Describe one retained message, or `None` if it was not retained, is not a
/// P2P message, or is one whose size already tells the whole story.
pub fn message_detail(analysis: &Analysis, messages: &Messages, index: u32) -> (detail: Option<
    String,
>)
    requires
        analysis.wf(),
        messages.wf(),
    ensures
        if index < analysis.store@.events.len() {
            exists|decoded: Decoded|
                {
                    &&& #[trigger] messages::holds(
                        decoded,
                        messages.source(),
                        1,
                        analysis.store@.events[index as int].bytes,
                    )
                    &&& match decoded {
                        Decoded::Event(event) => is_detail(detail, event),
                        _ => detail is None,
                    }
                }
        } else {
            detail is None
        },
{
    let bytes = match analysis.store.bytes(index) {
        Some(bytes) => bytes,
        None => {
            return None;
        },
    };
    let decoded = messages.decode(1, bytes);
    match &decoded {
        Decoded::Event(event) => event_detail(event),
        _ => None,
    }
}

/// Describe the message an event is, or `None` if it is none, or one whose size
/// already tells the whole story.
pub fn event_detail(event: &Event) -> (detail: Option<String>)
    ensures
        is_detail(detail, *event),
{
    match &event.peer_observer_event {
        Some(PeerObserverEvent::EbpfExtractor(ebpf)) => match &ebpf.ebpf_event {
            Some(EbpfEvent::Message(message)) => match &message.msg {
                Some(msg) => describe(msg),
                None => None,
            },
            _ => None,
        },
        _ => None,
    }
}

/// Describe what a message carried.
pub fn describe(msg: &Msg) -> (detail: Option<String>)
    ensures
        match detail {
            Some(detail) => described(*msg) == Some(detail@),
            None => described(*msg) is None,
        },
{
    match msg {
        Msg::Inv(m) => Some(inventory(m.items.as_slice())),
        Msg::Getdata(m) => Some(inventory(m.items.as_slice())),
        Msg::Notfound(m) => Some(inventory(m.items.as_slice())),
        Msg::Addr(m) => Some(count(m.addresses.len(), "address", "addresses")),
        Msg::Addrv2(m) => Some(count(m.addresses.len(), "address", "addresses")),
        Msg::Headers(m) => Some(count(m.headers.len(), "header", "headers")),
        Msg::Compactblock(m) => Some(count(m.short_ids.len(), "short id", "short ids")),
        Msg::Getblocktxn(m) => Some(count(m.tx_indexes.len(), "index", "indexes")),
        Msg::Blocktxn(m) => Some(count(m.transactions.len(), "transaction", "transactions")),
        _ => None,
    }
}

/// A number of things, with the word for one of them or for many.
pub fn count(n: usize, one: &str, many: &str) -> (text: String)
    ensures
        text@ == count_text(n as nat, one@, many@),
{
    let mut text = text::decimal(n as u64);
    text.append(" ");
    text.append(
        if n == 1 {
            one
        } else {
            many
        },
    );
    text
}

/// How many types of inventory item there are.
pub const ITEM_TYPES: usize = 8;

/// Where a type of inventory item stands in the order they are reported.
pub open spec fn item_slot(item: InventoryItem) -> int {
    match item.item {
        Some(Item::Transaction(_)) => 0,
        Some(Item::Wtx(_)) => 1,
        Some(Item::WitnessTransaction(_)) => 2,
        Some(Item::Block(_)) => 3,
        Some(Item::WitnessBlock(_)) => 4,
        Some(Item::CompactBlock(_)) => 5,
        Some(Item::Unknown(_)) => 6,
        // `error` is the extractor saying it could not read the item, and an
        // item with no arm at all is a schema this build predates.
        Some(Item::Error(_)) => 7,
        None => 7,
    }
}

/// What the type of inventory item in a slot is called.
pub open spec fn slot_text(slot: int) -> Seq<char> {
    if slot == 0 {
        "tx"@
    } else if slot == 1 {
        "wtx"@
    } else if slot == 2 {
        "witness tx"@
    } else if slot == 3 {
        "block"@
    } else if slot == 4 {
        "witness block"@
    } else if slot == 5 {
        "cmpctblock"@
    } else if slot == 6 {
        "unknown"@
    } else {
        "malformed"@
    }
}

/// How many items there are of the type in a slot.
pub open spec fn slot_count(items: Seq<InventoryItem>, slot: int) -> nat
    decreases items.len(),
{
    if items.len() == 0 {
        0
    } else {
        slot_count(items.drop_last(), slot) + if item_slot(items.last()) == slot {
            1nat
        } else {
            0nat
        }
    }
}

/// The types in the first `upto` slots that there are any items of, with how many
/// there are, in the order of the slots.
pub open spec fn parts_text(items: Seq<InventoryItem>, upto: int) -> Seq<char>
    decreases upto,
{
    if upto <= 0 {
        Seq::empty()
    } else {
        let before = parts_text(items, upto - 1);
        let n = slot_count(items, upto - 1);
        let part = text::digits(n) + " "@ + slot_text(upto - 1);
        if n == 0 {
            before
        } else if before.len() == 0 {
            part
        } else {
            before + ", "@ + part
        }
    }
}

/// What some inventory items are described as. An empty message is a legitimate
/// one: Core sends an empty `inv` for nothing, but an empty `notfound` and an
/// empty `getdata` both happen.
pub open spec fn inventory_text(items: Seq<InventoryItem>) -> Seq<char> {
    if items.len() == 0 {
        "empty"@
    } else {
        parts_text(items, ITEM_TYPES as int)
    }
}

fn slot_of(item: &InventoryItem) -> (slot: usize)
    ensures
        slot == item_slot(*item),
        slot < ITEM_TYPES,
{
    match &item.item {
        Some(Item::Transaction(_)) => 0,
        Some(Item::Wtx(_)) => 1,
        Some(Item::WitnessTransaction(_)) => 2,
        Some(Item::Block(_)) => 3,
        Some(Item::WitnessBlock(_)) => 4,
        Some(Item::CompactBlock(_)) => 5,
        Some(Item::Unknown(_)) => 6,
        Some(Item::Error(_)) => 7,
        None => 7,
    }
}

fn slot_name(slot: usize) -> (name: &'static str)
    ensures
        name@ == slot_text(slot as int),
{
    if slot == 0 {
        "tx"
    } else if slot == 1 {
        "wtx"
    } else if slot == 2 {
        "witness tx"
    } else if slot == 3 {
        "block"
    } else if slot == 4 {
        "witness block"
    } else if slot == 5 {
        "cmpctblock"
    } else if slot == 6 {
        "unknown"
    } else {
        "malformed"
    }
}

/// The inventory types in one `inv`, `getdata` or `notfound`, counted.
///
/// Ordered by the type rather than by the count, so that the same message
/// always reads the same way and a column of them can be scanned. A mixed
/// message is rare -- Bitcoin Core batches by type -- but it is the case worth
/// seeing, since it is where a `getdata` asks for a block and a transaction in
/// one breath.
pub fn inventory(items: &[InventoryItem]) -> (text: String)
    ensures
        text@ == inventory_text(items@),
{
    if items.len() == 0 {
        return "empty".to_owned();
    }
    let mut counts: [usize; ITEM_TYPES] = [0usize; ITEM_TYPES];
    let mut i: usize = 0;
    assert(items@.take(0) =~= Seq::empty());
    while i < items.len()
        invariant
            i <= items@.len(),
            forall|slot: int|
                0 <= slot < ITEM_TYPES ==> #[trigger] counts@[slot] == slot_count(
                    items@.take(i as int),
                    slot,
                ),
            forall|slot: int| 0 <= slot < ITEM_TYPES ==> #[trigger] counts@[slot] <= i,
        decreases items@.len() - i,
    {
        assert(items@.take(i + 1).drop_last() =~= items@.take(i as int));
        assert(items@.take(i + 1).last() == items@[i as int]);
        let slot: usize = slot_of(&items[i]);
        let held: usize = counts[slot];
        counts[slot] = held + 1;
        i = i + 1;
    }
    assert(items@.take(items@.len() as int) =~= items@);
    let mut text = String::new();
    let mut slot: usize = 0;
    while slot < ITEM_TYPES
        invariant
            slot <= ITEM_TYPES,
            forall|s: int|
                0 <= s < ITEM_TYPES ==> #[trigger] counts@[s] == slot_count(items@, s),
            text@ == parts_text(items@, slot as int),
        decreases ITEM_TYPES - slot,
    {
        let n: usize = counts[slot];
        if n > 0 {
            if !text.as_str().is_empty() {
                text.append(", ");
            }
            let ghost before = text@;
            text.append(text::decimal(n as u64).as_str());
            text.append(" ");
            text.append(slot_name(slot));
            assert(text@ =~= before + (text::digits(n as nat) + " "@ + slot_text(slot as int)));
        }
        slot = slot + 1;
    }
    text
}

/// What is said of a command and its description agree: a message whose arm names a command has a
/// description exactly when that command is said to have one.
pub proof fn law_every_gated_command_has_a_description(msg: Msg)
    ensures
        command_of(msg) matches Some(command) ==> (is_detailed(command) <==> described(msg) is Some),
        command_of(msg) is None ==> described(msg) is None,
{
    reveal_strlit("inv");
    reveal_strlit("getdata");
    reveal_strlit("notfound");
    reveal_strlit("addr");
    reveal_strlit("addrv2");
    reveal_strlit("headers");
    reveal_strlit("cmpctblock");
    reveal_strlit("getblocktxn");
    reveal_strlit("blocktxn");
    reveal_strlit("version");
    reveal_strlit("verack");
    reveal_strlit("ping");
    reveal_strlit("tx");
    reveal_strlit("block");
    assert("ping"@[0] == 'p' && "addr"@[0] == 'a');
    assert(!is_detailed("ping"@));
    assert("verack"@[0] == 'v' && "addrv2"@[0] == 'a');
    assert(!is_detailed("verack"@));
    assert("version"@[0] == 'v' && "getdata"@[0] == 'g' && "headers"@[0] == 'h');
    assert(!is_detailed("version"@));
    assert("tx"@.len() == 2 && "block"@.len() == 5 && "inv"@.len() == 3 && "getdata"@.len() == 7);
    assert("notfound"@.len() == 8 && "addr"@.len() == 4 && "addrv2"@.len() == 6);
    assert("headers"@.len() == 7 && "cmpctblock"@.len() == 10 && "getblocktxn"@.len() == 11);
    assert("blocktxn"@.len() == 8);
    assert(!is_detailed("tx"@));
    assert(!is_detailed("block"@));
}

/// The same items read the same way whichever came first on the wire.
pub proof fn law_inventory_order_does_not_matter(a: Seq<InventoryItem>, b: Seq<InventoryItem>)
    ensures
        inventory_text(a + b) == inventory_text(b + a),
{
    assert forall|slot: int| #[trigger] slot_count(a + b, slot) == slot_count(b + a, slot) by {
        lemma_slot_counts_add(a, b, slot);
        lemma_slot_counts_add(b, a, slot);
    }
    lemma_parts_same(a + b, b + a, ITEM_TYPES as int);
}

proof fn lemma_slot_counts_add(a: Seq<InventoryItem>, b: Seq<InventoryItem>, slot: int)
    ensures
        slot_count(a + b, slot) == slot_count(a, slot) + slot_count(b, slot),
    decreases b.len(),
{
    if b.len() == 0 {
        assert(a + b =~= a);
    } else {
        assert((a + b).drop_last() =~= a + b.drop_last());
        lemma_slot_counts_add(a, b.drop_last(), slot);
    }
}

proof fn lemma_parts_same(a: Seq<InventoryItem>, b: Seq<InventoryItem>, upto: int)
    requires
        forall|slot: int| #[trigger] slot_count(a, slot) == slot_count(b, slot),
    ensures
        parts_text(a, upto) == parts_text(b, upto),
    decreases upto,
{
    if upto > 0 {
        lemma_parts_same(a, b, upto - 1);
        assert(slot_count(a, upto - 1) == slot_count(b, upto - 1));
    }
}

proof fn lemma_one_type(items: Seq<InventoryItem>, of: int, slot: int)
    requires
        forall|i: int| 0 <= i < items.len() ==> item_slot(#[trigger] items[i]) == of,
    ensures
        slot_count(items, slot) == (if slot == of {
            items.len()
        } else {
            0
        }),
    decreases items.len(),
{
    if items.len() > 0 {
        let rest = items.drop_last();
        assert forall|i: int| 0 <= i < rest.len() implies item_slot(#[trigger] rest[i]) == of by {
            assert(rest[i] == items[i]);
        }
        lemma_one_type(rest, of, slot);
        assert(items.last() == items[items.len() - 1]);
    }
}

proof fn lemma_one_part(items: Seq<InventoryItem>, of: int, upto: int)
    requires
        items.len() > 0,
        0 <= of < ITEM_TYPES,
        0 <= upto <= ITEM_TYPES,
        forall|i: int| 0 <= i < items.len() ==> item_slot(#[trigger] items[i]) == of,
    ensures
        parts_text(items, upto) == (if upto <= of {
            Seq::empty()
        } else {
            text::digits(items.len()) + " "@ + slot_text(of)
        }),
    decreases upto,
{
    if upto > 0 {
        lemma_one_part(items, of, upto - 1);
        lemma_one_type(items, of, upto - 1);
    }
}

/// Whether all of some items are of one type, and what that is called.
pub open spec fn all_are(items: Seq<InventoryItem>, name: Seq<char>) -> bool {
    forall|i: int|
        0 <= i < items.len() ==> match (#[trigger] items[i]).item {
            Some(Item::Transaction(_)) => name == "tx"@,
            Some(Item::Wtx(_)) => name == "wtx"@,
            Some(Item::WitnessTransaction(_)) => name == "witness tx"@,
            Some(Item::Block(_)) => name == "block"@,
            Some(Item::WitnessBlock(_)) => name == "witness block"@,
            Some(Item::CompactBlock(_)) => name == "cmpctblock"@,
            Some(Item::Unknown(_)) => name == "unknown"@,
            Some(Item::Error(_)) => name == "malformed"@,
            None => name == "malformed"@,
        }
}

/// Items of one type are told by how many they are and what they are called; none are
/// called empty.
pub proof fn law_items_of_one_type_are_counted(items: Seq<InventoryItem>, name: Seq<char>)
    requires
        all_are(items, name),
    ensures
        items.len() > 0 ==> inventory_text(items) == text::digits(items.len()) + " "@ + name,
        items.len() == 0 ==> inventory_text(items) == "empty"@,
{
    if items.len() > 0 {
        let of = item_slot(items[0]);
        reveal_strlit("tx");
        reveal_strlit("wtx");
        reveal_strlit("witness tx");
        reveal_strlit("block");
        reveal_strlit("witness block");
        reveal_strlit("cmpctblock");
        reveal_strlit("unknown");
        reveal_strlit("malformed");
        assert("tx"@.len() == 2 && "wtx"@.len() == 3 && "witness tx"@.len() == 10);
        assert("block"@.len() == 5 && "witness block"@.len() == 13 && "cmpctblock"@.len() == 10);
        assert("unknown"@.len() == 7 && "malformed"@.len() == 9);
        assert("witness tx"@[0] == 'w' && "cmpctblock"@[0] == 'c');
        assert forall|i: int| 0 <= i < items.len() implies item_slot(#[trigger] items[i]) == of by {
            assert(slot_text(item_slot(items[i])) == name);
            assert(slot_text(item_slot(items[0])) == name);
        }
        assert(slot_text(of) == name) by {
            assert(items[0] == items[0]);
        }
        lemma_one_part(items, of, ITEM_TYPES as int);
    }
}

proof fn lemma_no_type(items: Seq<InventoryItem>, slot: int)
    requires
        forall|i: int| 0 <= i < items.len() ==> item_slot(#[trigger] items[i]) != slot,
    ensures
        slot_count(items, slot) == 0,
    decreases items.len(),
{
    if items.len() > 0 {
        let rest = items.drop_last();
        assert forall|i: int| 0 <= i < rest.len() implies item_slot(#[trigger] rest[i]) != slot by {
            assert(rest[i] == items[i]);
        }
        lemma_no_type(rest, slot);
        assert(items.last() == items[items.len() - 1]);
    }
}

proof fn lemma_parts_join(
    a: Seq<InventoryItem>,
    b: Seq<InventoryItem>,
    upper: int,
    upto: int,
)
    requires
        0 <= upto <= ITEM_TYPES,
        forall|i: int| 0 <= i < a.len() ==> item_slot(#[trigger] a[i]) <= upper,
        forall|i: int| 0 <= i < b.len() ==> item_slot(#[trigger] b[i]) > upper,
    ensures
        ({
            let (x, y) = (parts_text(a, upto), parts_text(b, upto));
            parts_text(a + b, upto) == (if y.len() == 0 {
                x
            } else if x.len() == 0 {
                y
            } else {
                x + ", "@ + y
            })
        }),
        upto <= upper + 1 ==> parts_text(b, upto).len() == 0,
    decreases upto,
{
    if upto > 0 {
        let slot = upto - 1;
        lemma_parts_join(a, b, upper, slot);
        lemma_slot_counts_add(a, b, slot);
        reveal_strlit(" ");
        let (x, y) = (parts_text(a, slot), parts_text(b, slot));
        if slot <= upper {
            lemma_no_type(b, slot);
        } else {
            lemma_no_type(a, slot);
            let part = text::digits(slot_count(b, slot)) + " "@ + slot_text(slot);
            assert(part.len() > 0);
            assert((x + ", "@ + y) + ", "@ + part =~= x + ", "@ + (y + ", "@ + part));
            reveal_strlit(", ");
        }
    } else {
        assert(parts_text(a + b, upto) =~= Seq::empty());
    }
}

proof fn lemma_some_part(items: Seq<InventoryItem>, slot: int, upto: int)
    requires
        0 <= slot < upto,
        slot_count(items, slot) > 0,
    ensures
        parts_text(items, upto).len() > 0,
    decreases upto,
{
    reveal_strlit(" ");
    if slot < upto - 1 {
        lemma_some_part(items, slot, upto - 1);
    }
}

/// Whose turn it is when items of several types are told: transactions before blocks, both
/// as they are first and with their witnesses after that, then what is short for a block,
/// and what cannot be told apart last.
pub open spec fn turn_of(item: InventoryItem) -> int {
    match item.item {
        Some(Item::Transaction(_)) => 0,
        Some(Item::Wtx(_)) => 1,
        Some(Item::WitnessTransaction(_)) => 2,
        Some(Item::Block(_)) => 3,
        Some(Item::WitnessBlock(_)) => 4,
        Some(Item::CompactBlock(_)) => 5,
        Some(Item::Unknown(_)) => 6,
        _ => 7,
    }
}

/// Items of several types are told one type after the other, in the order of the types and
/// with commas between: where no item of the one list is of a type that comes after one of
/// the other's, both together are told as the one and then the other.
pub proof fn law_types_are_told_one_after_the_other(
    a: Seq<InventoryItem>,
    b: Seq<InventoryItem>,
    upper: int,
)
    requires
        a.len() > 0,
        b.len() > 0,
        forall|i: int| 0 <= i < a.len() ==> turn_of(#[trigger] a[i]) <= upper,
        forall|i: int| 0 <= i < b.len() ==> turn_of(#[trigger] b[i]) > upper,
    ensures
        inventory_text(a + b) == inventory_text(a) + ", "@ + inventory_text(b),
{
    assert forall|i: int| 0 <= i < a.len() implies item_slot(#[trigger] a[i]) <= upper by {
        assert(turn_of(a[i]) <= upper);
    }
    assert forall|i: int| 0 <= i < b.len() implies item_slot(#[trigger] b[i]) > upper by {
        assert(turn_of(b[i]) > upper);
    }
    lemma_parts_join(a, b, upper, ITEM_TYPES as int);
    lemma_told(a);
    lemma_told(b);
}

proof fn lemma_told(items: Seq<InventoryItem>)
    requires
        items.len() > 0,
    ensures
        parts_text(items, ITEM_TYPES as int).len() > 0,
{
    let slot = item_slot(items.last());
    assert(slot_count(items, slot) > 0);
    lemma_some_part(items, slot, ITEM_TYPES as int);
}

/// A list of things is told by how many they are, and in the singular where it is one: the
/// addresses of either message that gossips them, the headers, what a compact block holds
/// in short, what is asked for of it, and what is sent.
pub proof fn law_lists_are_told_by_their_length(msg: Msg)
    ensures
        match msg {
            Msg::Addr(m) => described(msg) == Some(
                text::digits(m.addresses@.len()) + " "@ + if m.addresses@.len() == 1 {
                    "address"@
                } else {
                    "addresses"@
                },
            ),
            Msg::Addrv2(m) => described(msg) == Some(
                text::digits(m.addresses@.len()) + " "@ + if m.addresses@.len() == 1 {
                    "address"@
                } else {
                    "addresses"@
                },
            ),
            Msg::Headers(m) => described(msg) == Some(
                text::digits(m.headers@.len()) + " "@ + if m.headers@.len() == 1 {
                    "header"@
                } else {
                    "headers"@
                },
            ),
            Msg::Compactblock(m) => described(msg) == Some(
                text::digits(m.short_ids@.len()) + " "@ + if m.short_ids@.len() == 1 {
                    "short id"@
                } else {
                    "short ids"@
                },
            ),
            Msg::Getblocktxn(m) => described(msg) == Some(
                text::digits(m.tx_indexes@.len()) + " "@ + if m.tx_indexes@.len() == 1 {
                    "index"@
                } else {
                    "indexes"@
                },
            ),
            Msg::Blocktxn(m) => described(msg) == Some(
                text::digits(m.transactions@.len()) + " "@ + if m.transactions@.len() == 1 {
                    "transaction"@
                } else {
                    "transactions"@
                },
            ),
            Msg::Inv(m) => described(msg) == Some(inventory_text(m.items@)),
            Msg::Getdata(m) => described(msg) == Some(inventory_text(m.items@)),
            Msg::Notfound(m) => described(msg) == Some(inventory_text(m.items@)),
            _ => described(msg) is None,
        },
{
}

} // verus!
