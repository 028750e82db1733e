//! Records to messages, by the schema's field names.
//!
//! A record is decoded against the descriptor set of the schema, and what the viewer
//! reads of it is moved over, field by field. A field that is not set, or that does
//! not hold what the schema says it does, reads as nothing: zero, empty, or absent.

use crate::inspect::EVENT_MESSAGE;
use crate::proto::{
    Addr, AddrV2, Address, ArchiveHeader, Block, BlockHeader, BlockTxn, ClosedConnection,
    CompactBlock, ConnEvent, Connection, ConnectionEvent, Ebpf, EbpfEvent, Event, GetBlockTxn,
    GetData, Headers, InboundConnection, Inv, InventoryItem, Ipc, IpcEvent, Item, Log, LogEvent,
    MempoolChange, MempoolEvent, MessageEvent, Metadata, MisbehavingConnection, Msg, NotFound,
    OutboundConnection, P2p, P2pEvent, PeerInfo, PeerInfos, PeerObserverEvent, Ping,
    PrefilledTransaction, Rpc, RpcEvent, Transaction, Tx, Unknown, UnknownItem, Validated,
    ValidationEvent, Version,
};
use crate::reflect;
use crate::reflect::{
    decode_message, field_in, fields_of, find_message, list_in, message_in, scalar_in, Raw, Scalar,
    Sort,
};
use crate::schema;
use crate::schema::open_pool;
use crate::text;
use prost_reflect::{DynamicMessage, MessageDescriptor, Value};
use vstd::prelude::*;
use vstd::string::*;

verus! {

/// Fully-qualified name of the first message of an archive.
pub const HEADER_MESSAGE: &'static str = "header.ArchiveHeader";

/// The fields set in a message.
pub type Fields = Seq<(Seq<char>, Sort, Raw)>;

/// Whether a field is set.
pub open spec fn sets(fields: Fields, name: Seq<char>) -> bool {
    reflect::lookup(fields, name) is Some
}

/// The fields of a message in a value.
pub open spec fn fields_in(raw: Raw) -> Fields {
    match raw {
        Raw::Message(fields) => fields,
        _ => Seq::empty(),
    }
}

/// The fields of a message in a field.
pub open spec fn message_at(fields: Fields, name: Seq<char>) -> Fields {
    match reflect::lookup(fields, name) {
        Some(raw) => fields_in(raw),
        None => Seq::empty(),
    }
}

/// The values in a repeated field.
pub open spec fn list_at(fields: Fields, name: Seq<char>) -> Seq<Raw> {
    match reflect::lookup(fields, name) {
        Some(Raw::List(values)) => values,
        _ => Seq::empty(),
    }
}

/// A 64-bit number in a field.
pub open spec fn long_at(fields: Fields, name: Seq<char>) -> u64 {
    match reflect::lookup(fields, name) {
        Some(Raw::U64(v)) => v,
        _ => 0,
    }
}

/// A 32-bit number in a field.
pub open spec fn word_at(fields: Fields, name: Seq<char>) -> u32 {
    match reflect::lookup(fields, name) {
        Some(Raw::U32(v)) => v,
        _ => 0,
    }
}

/// A flag in a field.
pub open spec fn flag_at(fields: Fields, name: Seq<char>) -> bool {
    match reflect::lookup(fields, name) {
        Some(Raw::Bool(v)) => v,
        _ => false,
    }
}

/// Text in a field.
pub open spec fn letters_at(fields: Fields, name: Seq<char>) -> Seq<char> {
    match reflect::lookup(fields, name) {
        Some(Raw::Text(v)) => v,
        _ => Seq::empty(),
    }
}

/// Bytes in a field.
pub open spec fn octets_at(fields: Fields, name: Seq<char>) -> Seq<u8> {
    match reflect::lookup(fields, name) {
        Some(Raw::Bytes(v)) => v,
        _ => Seq::empty(),
    }
}

/// A signed number in a field. The variants of an enum are numbers.
pub open spec fn int_at(fields: Fields, name: Seq<char>) -> i32 {
    match reflect::lookup(fields, name) {
        Some(Raw::I32(v)) => v,
        Some(Raw::Enum(v)) => v,
        _ => 0,
    }
}

/// The fields of a message that may not be there.
pub open spec fn held_by(message: Option<&DynamicMessage>) -> Fields {
    match message {
        Some(message) => reflect::contents(*message),
        None => Seq::empty(),
    }
}

/// The values in a list that may not be there.
pub open spec fn held_in(list: Option<&[Value]>) -> Seq<Raw> {
    match list {
        Some(list) => Seq::new(list@.len(), |i: int| reflect::held(list@[i])),
        None => Seq::empty(),
    }
}

/// What a field holds, if it is set.
fn found<'a>(message: Option<&'a DynamicMessage>, name: &str) -> (value: Option<&'a Value>)
    ensures
        match value {
            Some(value) => reflect::lookup(held_by(message), name@) == Some(reflect::held(*value)),
            None => !sets(held_by(message), name@),
        },
{
    match message {
        Some(message) => if message.has_field_by_name(name) {
            field_in(message, name)
        } else {
            None
        },
        None => None,
    }
}

fn is_set(message: Option<&DynamicMessage>, name: &str) -> (yes: bool)
    ensures
        yes == sets(held_by(message), name@),
{
    found(message, name).is_some()
}

/// The message in a field.
fn inner<'a>(message: Option<&'a DynamicMessage>, name: &str) -> (found: Option<&'a DynamicMessage>)
    ensures
        held_by(found) == message_at(held_by(message), name@),
{
    match found(message, name) {
        Some(value) => message_in(value),
        None => None,
    }
}

/// The values in a repeated field.
fn listed<'a>(message: Option<&'a DynamicMessage>, name: &str) -> (list: Option<&'a [Value]>)
    ensures
        held_in(list) == list_at(held_by(message), name@),
{
    match found(message, name) {
        Some(value) => list_in(value),
        None => None,
    }
}

fn scalar(message: Option<&DynamicMessage>, name: &str) -> (scalar: Option<Scalar>)
    ensures
        match scalar {
            Some(scalar) => reflect::lookup(held_by(message), name@) == Some(scalar.raw()),
            None => reflect::lookup(held_by(message), name@) matches Some(raw) ==> raw is Message
                || raw is List || raw is Entries,
        },
{
    match found(message, name) {
        Some(value) => scalar_in(value),
        None => None,
    }
}

fn long(message: Option<&DynamicMessage>, name: &str) -> (found: u64)
    ensures
        found == long_at(held_by(message), name@),
{
    match scalar(message, name) {
        Some(Scalar::U64(v)) => v,
        _ => 0,
    }
}

fn word(message: Option<&DynamicMessage>, name: &str) -> (found: u32)
    ensures
        found == word_at(held_by(message), name@),
{
    match scalar(message, name) {
        Some(Scalar::U32(v)) => v,
        _ => 0,
    }
}

fn flag(message: Option<&DynamicMessage>, name: &str) -> (found: bool)
    ensures
        found == flag_at(held_by(message), name@),
{
    match scalar(message, name) {
        Some(Scalar::Bool(v)) => v,
        _ => false,
    }
}

fn signed(message: Option<&DynamicMessage>, name: &str) -> (found: i32)
    ensures
        found == int_at(held_by(message), name@),
{
    match scalar(message, name) {
        Some(Scalar::I32(v)) => v,
        Some(Scalar::Enum(v)) => v,
        _ => 0,
    }
}

fn letters(message: Option<&DynamicMessage>, name: &str) -> (found: String)
    ensures
        found@ == letters_at(held_by(message), name@),
{
    match scalar(message, name) {
        Some(Scalar::Text(v)) => v,
        _ => {
            let empty = String::new();
            assert(empty@ =~= Seq::empty());
            empty
        },
    }
}

fn octets(message: Option<&DynamicMessage>, name: &str) -> (found: Vec<u8>)
    ensures
        found@ == octets_at(held_by(message), name@),
{
    match scalar(message, name) {
        Some(Scalar::Bytes(v)) => v,
        _ => {
            let empty: Vec<u8> = Vec::new();
            assert(empty@ =~= Seq::empty());
            empty
        },
    }
}

/// Whether this is the header of an archive with these fields.
pub open spec fn is_header(value: ArchiveHeader, fields: Fields) -> bool {
    &&& value.created == long_at(fields, "created"@)
    &&& value.low_data == (if sets(fields, "low_data"@) {
        Some(flag_at(fields, "low_data"@))
    } else {
        None
    })
}

fn read_header(message: Option<&DynamicMessage>) -> (value: ArchiveHeader)
    ensures
        is_header(value, held_by(message)),
{
    ArchiveHeader {
        created: long(message, "created"),
        low_data: if is_set(message, "low_data") {
            Some(flag(message, "low_data"))
        } else {
            None
        },
    }
}

/// Whether this is what is known of a message with these fields.
pub open spec fn is_metadata(value: Metadata, fields: Fields) -> bool {
    &&& value.peer_id == long_at(fields, "peer_id"@)
    &&& value.addr@ == letters_at(fields, "addr"@)
    &&& value.conn_type == int_at(fields, "conn_type"@)
    &&& value.command@ == letters_at(fields, "command"@)
    &&& value.inbound == flag_at(fields, "inbound"@)
    &&& value.size == long_at(fields, "size"@)
}

fn read_metadata(message: Option<&DynamicMessage>) -> (value: Metadata)
    ensures
        is_metadata(value, held_by(message)),
{
    Metadata {
        peer_id: long(message, "peer_id"),
        addr: letters(message, "addr"),
        conn_type: signed(message, "conn_type"),
        command: letters(message, "command"),
        inbound: flag(message, "inbound"),
        size: long(message, "size"),
    }
}

/// Whether this is a transaction with these fields.
pub open spec fn is_transaction(value: Transaction, fields: Fields) -> bool {
    &&& value.txid@ == octets_at(fields, "txid"@)
    &&& value.wtxid@ == octets_at(fields, "wtxid"@)
    &&& match value.raw {
        Some(raw) => sets(fields, "raw"@) && raw@ == octets_at(fields, "raw"@),
        None => !sets(fields, "raw"@),
    }
}

fn read_transaction(message: Option<&DynamicMessage>) -> (value: Transaction)
    ensures
        is_transaction(value, held_by(message)),
{
    Transaction {
        txid: octets(message, "txid"),
        wtxid: octets(message, "wtxid"),
        raw: if is_set(message, "raw") {
            Some(octets(message, "raw"))
        } else {
            None
        },
    }
}

/// Whether these are transactions, one for each of some values.
pub open spec fn are_transactions(values: Seq<Transaction>, list: Seq<Raw>) -> bool {
    &&& values.len() == list.len()
    &&& forall|i: int|
        #![trigger values[i]]
        0 <= i < values.len() ==> is_transaction(values[i], fields_in(list[i]))
}

fn read_transactions(list: Option<&[Value]>) -> (values: Vec<Transaction>)
    ensures
        are_transactions(values@, held_in(list)),
{
    let mut values: Vec<Transaction> = Vec::new();
    if let Some(items) = list {
        let mut i: usize = 0;
        while i < items.len()
            invariant
                i <= items@.len(),
                list == Some(items),
                values@.len() == i,
                forall|k: int|
                    #![trigger values@[k]]
                    0 <= k < i ==> is_transaction(values@[k], fields_in(held_in(list)[k])),
            decreases items@.len() - i,
        {
            assert(held_in(list)[i as int] == reflect::held(items@[i as int]));
            let message = message_in(&items[i]);
            assert(held_by(message) =~= fields_in(held_in(list)[i as int]));
            values.push(read_transaction(message));
            i = i + 1;
        }
    }
    values
}

/// Whether this is a prefilled transaction with these fields.
pub open spec fn is_prefilled(value: PrefilledTransaction, fields: Fields) -> bool {
    &&& value.diff_index == word_at(fields, "diff_index"@)
    &&& is_transaction(value.tx, message_at(fields, "tx"@))
}

fn read_prefilled(message: Option<&DynamicMessage>) -> (value: PrefilledTransaction)
    ensures
        is_prefilled(value, held_by(message)),
{
    PrefilledTransaction {
        diff_index: word(message, "diff_index"),
        tx: read_transaction(inner(message, "tx")),
    }
}

/// Whether these are prefilled transactions, one for each of some values.
pub open spec fn are_all_prefilled(values: Seq<PrefilledTransaction>, list: Seq<Raw>) -> bool {
    &&& values.len() == list.len()
    &&& forall|i: int|
        #![trigger values[i]]
        0 <= i < values.len() ==> is_prefilled(values[i], fields_in(list[i]))
}

fn read_all_prefilled(list: Option<&[Value]>) -> (values: Vec<PrefilledTransaction>)
    ensures
        are_all_prefilled(values@, held_in(list)),
{
    let mut values: Vec<PrefilledTransaction> = Vec::new();
    if let Some(items) = list {
        let mut i: usize = 0;
        while i < items.len()
            invariant
                i <= items@.len(),
                list == Some(items),
                values@.len() == i,
                forall|k: int|
                    #![trigger values@[k]]
                    0 <= k < i ==> is_prefilled(values@[k], fields_in(held_in(list)[k])),
            decreases items@.len() - i,
        {
            assert(held_in(list)[i as int] == reflect::held(items@[i as int]));
            let message = message_in(&items[i]);
            assert(held_by(message) =~= fields_in(held_in(list)[i as int]));
            values.push(read_prefilled(message));
            i = i + 1;
        }
    }
    values
}

/// Whether this is the header of a block with these fields.
pub open spec fn is_block_header(value: BlockHeader, fields: Fields) -> bool {
    &&& value.version == int_at(fields, "version"@)
    &&& value.prev_blockhash@ == octets_at(fields, "prev_blockhash"@)
    &&& value.merkle_root@ == octets_at(fields, "merkle_root"@)
    &&& value.time == word_at(fields, "time"@)
    &&& value.bits == word_at(fields, "bits"@)
    &&& value.nonce == word_at(fields, "nonce"@)
    &&& value.hash@ == octets_at(fields, "hash"@)
}

fn read_block_header(message: Option<&DynamicMessage>) -> (value: BlockHeader)
    ensures
        is_block_header(value, held_by(message)),
{
    BlockHeader {
        version: signed(message, "version"),
        prev_blockhash: octets(message, "prev_blockhash"),
        merkle_root: octets(message, "merkle_root"),
        time: word(message, "time"),
        bits: word(message, "bits"),
        nonce: word(message, "nonce"),
        hash: octets(message, "hash"),
    }
}

/// Whether these are headers of blocks, one for each of some values.
pub open spec fn are_block_headers(values: Seq<BlockHeader>, list: Seq<Raw>) -> bool {
    &&& values.len() == list.len()
    &&& forall|i: int|
        #![trigger values[i]]
        0 <= i < values.len() ==> is_block_header(values[i], fields_in(list[i]))
}

fn read_block_headers(list: Option<&[Value]>) -> (values: Vec<BlockHeader>)
    ensures
        are_block_headers(values@, held_in(list)),
{
    let mut values: Vec<BlockHeader> = Vec::new();
    if let Some(items) = list {
        let mut i: usize = 0;
        while i < items.len()
            invariant
                i <= items@.len(),
                list == Some(items),
                values@.len() == i,
                forall|k: int|
                    #![trigger values@[k]]
                    0 <= k < i ==> is_block_header(values@[k], fields_in(held_in(list)[k])),
            decreases items@.len() - i,
        {
            assert(held_in(list)[i as int] == reflect::held(items@[i as int]));
            let message = message_in(&items[i]);
            assert(held_by(message) =~= fields_in(held_in(list)[i as int]));
            values.push(read_block_header(message));
            i = i + 1;
        }
    }
    values
}

/// Whether this is an item of an unknown type with these fields.
pub open spec fn is_unknown_item(value: UnknownItem, fields: Fields) -> bool {
    &&& value.inv_type == word_at(fields, "inv_type"@)
    &&& value.hash@ == octets_at(fields, "hash"@)
}

fn read_unknown_item(message: Option<&DynamicMessage>) -> (value: UnknownItem)
    ensures
        is_unknown_item(value, held_by(message)),
{
    UnknownItem {
        inv_type: word(message, "inv_type"),
        hash: octets(message, "hash"),
    }
}

/// Whether this is an inventory item with these fields.
pub open spec fn is_item(value: InventoryItem, fields: Fields) -> bool {
    if sets(fields, "transaction"@) {
        value.item matches Some(Item::Transaction(hash)) && hash@ == octets_at(fields, "transaction"@)
    } else if sets(fields, "block"@) {
        value.item matches Some(Item::Block(hash)) && hash@ == octets_at(fields, "block"@)
    } else if sets(fields, "wtx"@) {
        value.item matches Some(Item::Wtx(hash)) && hash@ == octets_at(fields, "wtx"@)
    } else if sets(fields, "witness_transaction"@) {
        value.item matches Some(Item::WitnessTransaction(hash)) && hash@ == octets_at(fields, "witness_transaction"@)
    } else if sets(fields, "witness_block"@) {
        value.item matches Some(Item::WitnessBlock(hash)) && hash@ == octets_at(fields, "witness_block"@)
    } else if sets(fields, "compact_block"@) {
        value.item matches Some(Item::CompactBlock(hash)) && hash@ == octets_at(fields, "compact_block"@)
    } else if sets(fields, "unknown"@) {
        value.item matches Some(Item::Unknown(item)) && is_unknown_item(
            item,
            message_at(fields, "unknown"@),
        )
    } else if sets(fields, "error"@) {
        value.item == Some(Item::Error(flag_at(fields, "error"@)))
    } else {
        value.item is None
    }
}

fn read_item(message: Option<&DynamicMessage>) -> (value: InventoryItem)
    ensures
        is_item(value, held_by(message)),
{
    let item = if is_set(message, "transaction") {
        Some(Item::Transaction(octets(message, "transaction")))
    } else if is_set(message, "block") {
        Some(Item::Block(octets(message, "block")))
    } else if is_set(message, "wtx") {
        Some(Item::Wtx(octets(message, "wtx")))
    } else if is_set(message, "witness_transaction") {
        Some(Item::WitnessTransaction(octets(message, "witness_transaction")))
    } else if is_set(message, "witness_block") {
        Some(Item::WitnessBlock(octets(message, "witness_block")))
    } else if is_set(message, "compact_block") {
        Some(Item::CompactBlock(octets(message, "compact_block")))
    } else if is_set(message, "unknown") {
        Some(Item::Unknown(read_unknown_item(inner(message, "unknown"))))
    } else if is_set(message, "error") {
        Some(Item::Error(flag(message, "error")))
    } else {
        None
    };
    InventoryItem { item }
}

/// Whether these are inventory items, one for each of some values.
pub open spec fn are_items(values: Seq<InventoryItem>, list: Seq<Raw>) -> bool {
    &&& values.len() == list.len()
    &&& forall|i: int|
        #![trigger values[i]]
        0 <= i < values.len() ==> is_item(values[i], fields_in(list[i]))
}

fn read_items(list: Option<&[Value]>) -> (values: Vec<InventoryItem>)
    ensures
        are_items(values@, held_in(list)),
{
    let mut values: Vec<InventoryItem> = Vec::new();
    if let Some(items) = list {
        let mut i: usize = 0;
        while i < items.len()
            invariant
                i <= items@.len(),
                list == Some(items),
                values@.len() == i,
                forall|k: int|
                    #![trigger values@[k]]
                    0 <= k < i ==> is_item(values@[k], fields_in(held_in(list)[k])),
            decreases items@.len() - i,
        {
            assert(held_in(list)[i as int] == reflect::held(items@[i as int]));
            let message = message_in(&items[i]);
            assert(held_by(message) =~= fields_in(held_in(list)[i as int]));
            values.push(read_item(message));
            i = i + 1;
        }
    }
    values
}

/// Whether these are byte strings, one for each of some values.
pub open spec fn are_strings(values: Seq<Vec<u8>>, list: Seq<Raw>) -> bool {
    &&& values.len() == list.len()
    &&& forall|i: int|
        #![trigger values[i]]
        0 <= i < values.len() ==> values[i]@ == (match list[i] {
            Raw::Bytes(bytes) => bytes,
            _ => Seq::empty(),
        })
}

fn read_strings(list: Option<&[Value]>) -> (values: Vec<Vec<u8>>)
    ensures
        are_strings(values@, held_in(list)),
{
    let mut values: Vec<Vec<u8>> = Vec::new();
    if let Some(items) = list {
        let mut i: usize = 0;
        while i < items.len()
            invariant
                i <= items@.len(),
                list == Some(items),
                values@.len() == i,
                forall|k: int|
                    #![trigger values@[k]]
                    0 <= k < i ==> values@[k]@ == (match held_in(list)[k] {
                        Raw::Bytes(bytes) => bytes,
                        _ => Seq::empty(),
                    }),
            decreases items@.len() - i,
        {
            assert(held_in(list)[i as int] == reflect::held(items@[i as int]));
            let bytes: Vec<u8> = match scalar_in(&items[i]) {
                Some(Scalar::Bytes(bytes)) => bytes,
                _ => {
                    let empty: Vec<u8> = Vec::new();
                    assert(empty@ =~= Seq::empty());
                    empty
                },
            };
            values.push(bytes);
            i = i + 1;
        }
    }
    values
}

/// Whether these are numbers, one for each of some values.
pub open spec fn are_numbers(values: Seq<u32>, list: Seq<Raw>) -> bool {
    &&& values.len() == list.len()
    &&& forall|i: int|
        #![trigger values[i]]
        0 <= i < values.len() ==> values[i] == (match list[i] {
            Raw::U32(v) => v,
            _ => 0,
        })
}

fn read_numbers(list: Option<&[Value]>) -> (values: Vec<u32>)
    ensures
        are_numbers(values@, held_in(list)),
{
    let mut values: Vec<u32> = Vec::new();
    if let Some(items) = list {
        let mut i: usize = 0;
        while i < items.len()
            invariant
                i <= items@.len(),
                list == Some(items),
                values@.len() == i,
                forall|k: int|
                    #![trigger values@[k]]
                    0 <= k < i ==> values@[k] == (match held_in(list)[k] {
                        Raw::U32(v) => v,
                        _ => 0,
                    }),
            decreases items@.len() - i,
        {
            assert(held_in(list)[i as int] == reflect::held(items@[i as int]));
            let number: u32 = match scalar_in(&items[i]) {
                Some(Scalar::U32(v)) => v,
                _ => 0,
            };
            values.push(number);
            i = i + 1;
        }
    }
    values
}

/// Gossiped addresses, which are only ever counted.
fn read_addresses(list: Option<&[Value]>) -> (values: Vec<Address>)
    ensures
        values@.len() == held_in(list).len(),
{
    let mut values: Vec<Address> = Vec::new();
    if let Some(items) = list {
        let mut i: usize = 0;
        while i < items.len()
            invariant
                i <= items@.len(),
                values@.len() == i,
            decreases items@.len() - i,
        {
            values.push(Address);
            i = i + 1;
        }
    }
    values
}

/// Whether this is a version message with these fields.
pub open spec fn is_version(value: Version, fields: Fields) -> bool {
    &&& value.user_agent@ == letters_at(fields, "user_agent"@)
}

fn read_version(message: Option<&DynamicMessage>) -> (value: Version)
    ensures
        is_version(value, held_by(message)),
{
    Version {
        user_agent: letters(message, "user_agent"),
    }
}

/// Whether this is a ping with these fields.
pub open spec fn is_ping(value: Ping, fields: Fields) -> bool {
    &&& value.value == long_at(fields, "value"@)
}

fn read_ping(message: Option<&DynamicMessage>) -> (value: Ping)
    ensures
        is_ping(value, held_by(message)),
{
    Ping {
        value: long(message, "value"),
    }
}

/// Whether this is an announcement with these fields.
pub open spec fn is_inv(value: Inv, fields: Fields) -> bool {
    &&& are_items(value.items@, list_at(fields, "items"@))
}

fn read_inv(message: Option<&DynamicMessage>) -> (value: Inv)
    ensures
        is_inv(value, held_by(message)),
{
    Inv {
        items: read_items(listed(message, "items")),
    }
}

/// Whether this is a request for items with these fields.
pub open spec fn is_getdata(value: GetData, fields: Fields) -> bool {
    &&& are_items(value.items@, list_at(fields, "items"@))
}

fn read_getdata(message: Option<&DynamicMessage>) -> (value: GetData)
    ensures
        is_getdata(value, held_by(message)),
{
    GetData {
        items: read_items(listed(message, "items")),
    }
}

/// Whether this is a refusal of items with these fields.
pub open spec fn is_notfound(value: NotFound, fields: Fields) -> bool {
    &&& are_items(value.items@, list_at(fields, "items"@))
}

fn read_notfound(message: Option<&DynamicMessage>) -> (value: NotFound)
    ensures
        is_notfound(value, held_by(message)),
{
    NotFound {
        items: read_items(listed(message, "items")),
    }
}

/// Whether this is a delivered transaction with these fields.
pub open spec fn is_tx(value: Tx, fields: Fields) -> bool {
    &&& is_transaction(value.tx, message_at(fields, "tx"@))
}

fn read_tx(message: Option<&DynamicMessage>) -> (value: Tx)
    ensures
        is_tx(value, held_by(message)),
{
    Tx {
        tx: read_transaction(inner(message, "tx")),
    }
}

/// Whether this is a block with these fields.
pub open spec fn is_block(value: Block, fields: Fields) -> bool {
    &&& is_block_header(value.header, message_at(fields, "header"@))
    &&& are_transactions(value.transactions@, list_at(fields, "transactions"@))
}

fn read_block(message: Option<&DynamicMessage>) -> (value: Block)
    ensures
        is_block(value, held_by(message)),
{
    Block {
        header: read_block_header(inner(message, "header")),
        transactions: read_transactions(listed(message, "transactions")),
    }
}

/// Whether this is headers with these fields.
pub open spec fn is_headers(value: Headers, fields: Fields) -> bool {
    &&& are_block_headers(value.headers@, list_at(fields, "headers"@))
}

fn read_headers(message: Option<&DynamicMessage>) -> (value: Headers)
    ensures
        is_headers(value, held_by(message)),
{
    Headers {
        headers: read_block_headers(listed(message, "headers")),
    }
}

/// Whether this is a compact block with these fields.
pub open spec fn is_compactblock(value: CompactBlock, fields: Fields) -> bool {
    &&& is_block_header(value.header, message_at(fields, "header"@))
    &&& value.nonce == long_at(fields, "nonce"@)
    &&& are_strings(value.short_ids@, list_at(fields, "short_ids"@))
    &&& are_all_prefilled(value.transactions@, list_at(fields, "transactions"@))
}

fn read_compactblock(message: Option<&DynamicMessage>) -> (value: CompactBlock)
    ensures
        is_compactblock(value, held_by(message)),
{
    CompactBlock {
        header: read_block_header(inner(message, "header")),
        nonce: long(message, "nonce"),
        short_ids: read_strings(listed(message, "short_ids")),
        transactions: read_all_prefilled(listed(message, "transactions")),
    }
}

/// Whether this is a request for the transactions of a block with these fields.
pub open spec fn is_getblocktxn(value: GetBlockTxn, fields: Fields) -> bool {
    &&& value.block_hash@ == octets_at(fields, "block_hash"@)
    &&& are_numbers(value.tx_indexes@, list_at(fields, "tx_indexes"@))
}

fn read_getblocktxn(message: Option<&DynamicMessage>) -> (value: GetBlockTxn)
    ensures
        is_getblocktxn(value, held_by(message)),
{
    GetBlockTxn {
        block_hash: octets(message, "block_hash"),
        tx_indexes: read_numbers(listed(message, "tx_indexes")),
    }
}

/// Whether this is transactions of a block with these fields.
pub open spec fn is_blocktxn(value: BlockTxn, fields: Fields) -> bool {
    &&& value.block_hash@ == octets_at(fields, "block_hash"@)
    &&& are_transactions(value.transactions@, list_at(fields, "transactions"@))
}

fn read_blocktxn(message: Option<&DynamicMessage>) -> (value: BlockTxn)
    ensures
        is_blocktxn(value, held_by(message)),
{
    BlockTxn {
        block_hash: octets(message, "block_hash"),
        transactions: read_transactions(listed(message, "transactions")),
    }
}

/// Whether this is a message of an unknown command with these fields.
pub open spec fn is_unknown(value: Unknown, fields: Fields) -> bool {
    &&& value.command@ == letters_at(fields, "command"@)
    &&& value.payload@ == octets_at(fields, "payload"@)
}

fn read_unknown(message: Option<&DynamicMessage>) -> (value: Unknown)
    ensures
        is_unknown(value, held_by(message)),
{
    Unknown {
        command: letters(message, "command"),
        payload: octets(message, "payload"),
    }
}

/// Whether a message event carries anything at all, known here or not.
pub open spec fn speaks(fields: Fields) -> bool {
    exists|i: int| 0 <= i < fields.len() && (#[trigger] fields[i]).0 != "meta"@
}

fn carries(message: Option<&DynamicMessage>) -> (yes: bool)
    ensures
        yes == speaks(held_by(message)),
{
    let ghost fields = held_by(message);
    if let Some(present) = message {
        let set = fields_of(present);
        let mut i: usize = 0;
        while i < set.len()
            invariant
                i <= set@.len(),
                fields == held_by(message),
                set@.len() == fields.len(),
                forall|k: int|
                    0 <= k < set@.len() ==> fields[k].0 == (#[trigger] set@[k]).name@,
                forall|k: int| 0 <= k < i ==> (#[trigger] fields[k]).0 == "meta"@,
            decreases set@.len() - i,
        {
            assert(fields[i as int].0 == set@[i as int].name@);
            if !text::same(set[i].name.as_str(), "meta") {
                return true;
            }
            i = i + 1;
        }
    }
    false
}

/// Whether this is what a message event with these fields carries.
pub open spec fn is_msg(value: Option<Msg>, fields: Fields) -> bool {
    if sets(fields, "version"@) {
        value matches Some(Msg::Version(inner)) && is_version(inner, message_at(fields, "version"@))
    } else if sets(fields, "ping"@) {
        value matches Some(Msg::Ping(inner)) && is_ping(inner, message_at(fields, "ping"@))
    } else if sets(fields, "inv"@) {
        value matches Some(Msg::Inv(inner)) && is_inv(inner, message_at(fields, "inv"@))
    } else if sets(fields, "getdata"@) {
        value matches Some(Msg::Getdata(inner)) && is_getdata(inner, message_at(fields, "getdata"@))
    } else if sets(fields, "notfound"@) {
        value matches Some(Msg::Notfound(inner)) && is_notfound(inner, message_at(fields, "notfound"@))
    } else if sets(fields, "tx"@) {
        value matches Some(Msg::Tx(inner)) && is_tx(inner, message_at(fields, "tx"@))
    } else if sets(fields, "block"@) {
        value matches Some(Msg::Block(inner)) && is_block(inner, message_at(fields, "block"@))
    } else if sets(fields, "headers"@) {
        value matches Some(Msg::Headers(inner)) && is_headers(inner, message_at(fields, "headers"@))
    } else if sets(fields, "compactblock"@) {
        value matches Some(Msg::Compactblock(inner)) && is_compactblock(inner, message_at(fields, "compactblock"@))
    } else if sets(fields, "getblocktxn"@) {
        value matches Some(Msg::Getblocktxn(inner)) && is_getblocktxn(inner, message_at(fields, "getblocktxn"@))
    } else if sets(fields, "blocktxn"@) {
        value matches Some(Msg::Blocktxn(inner)) && is_blocktxn(inner, message_at(fields, "blocktxn"@))
    } else if sets(fields, "unknown"@) {
        value matches Some(Msg::Unknown(inner)) && is_unknown(inner, message_at(fields, "unknown"@))
    } else if sets(fields, "verack"@) {
        value == Some(Msg::Verack(flag_at(fields, "verack"@)))
    } else if sets(fields, "addr"@) {
        value matches Some(Msg::Addr(inner)) && inner.addresses@.len() == list_at(
            message_at(fields, "addr"@),
            "addresses"@,
        ).len()
    } else if sets(fields, "addrv2"@) {
        value matches Some(Msg::Addrv2(inner)) && inner.addresses@.len() == list_at(
            message_at(fields, "addrv2"@),
            "addresses"@,
        ).len()
    } else if speaks(fields) {
        value == Some(Msg::Other)
    } else {
        value is None
    }
}

fn read_msg(message: Option<&DynamicMessage>) -> (value: Option<Msg>)
    ensures
        is_msg(value, held_by(message)),
{
    if is_set(message, "version") {
        Some(Msg::Version(read_version(inner(message, "version"))))
    } else if is_set(message, "ping") {
        Some(Msg::Ping(read_ping(inner(message, "ping"))))
    } else if is_set(message, "inv") {
        Some(Msg::Inv(read_inv(inner(message, "inv"))))
    } else if is_set(message, "getdata") {
        Some(Msg::Getdata(read_getdata(inner(message, "getdata"))))
    } else if is_set(message, "notfound") {
        Some(Msg::Notfound(read_notfound(inner(message, "notfound"))))
    } else if is_set(message, "tx") {
        Some(Msg::Tx(read_tx(inner(message, "tx"))))
    } else if is_set(message, "block") {
        Some(Msg::Block(read_block(inner(message, "block"))))
    } else if is_set(message, "headers") {
        Some(Msg::Headers(read_headers(inner(message, "headers"))))
    } else if is_set(message, "compactblock") {
        Some(Msg::Compactblock(read_compactblock(inner(message, "compactblock"))))
    } else if is_set(message, "getblocktxn") {
        Some(Msg::Getblocktxn(read_getblocktxn(inner(message, "getblocktxn"))))
    } else if is_set(message, "blocktxn") {
        Some(Msg::Blocktxn(read_blocktxn(inner(message, "blocktxn"))))
    } else if is_set(message, "unknown") {
        Some(Msg::Unknown(read_unknown(inner(message, "unknown"))))
    } else if is_set(message, "verack") {
        Some(Msg::Verack(flag(message, "verack")))
    } else if is_set(message, "addr") {
        Some(Msg::Addr(Addr { addresses: read_addresses(listed(inner(message, "addr"), "addresses")) }))
    } else if is_set(message, "addrv2") {
        Some(
            Msg::Addrv2(
                AddrV2 { addresses: read_addresses(listed(inner(message, "addrv2"), "addresses")) },
            ),
        )
    } else if carries(message) {
        Some(Msg::Other)
    } else {
        None
    }
}

/// Whether this is a message event with these fields.
pub open spec fn is_message_event(value: MessageEvent, fields: Fields) -> bool {
    &&& is_metadata(value.meta, message_at(fields, "meta"@))
    &&& is_msg(value.msg, fields)
}

fn read_message_event(message: Option<&DynamicMessage>) -> (value: MessageEvent)
    ensures
        is_message_event(value, held_by(message)),
{
    MessageEvent { meta: read_metadata(inner(message, "meta")), msg: read_msg(message) }
}

/// Whether this is a connection with these fields.
pub open spec fn is_connection(value: Connection, fields: Fields) -> bool {
    &&& value.peer_id == long_at(fields, "peer_id"@)
    &&& value.addr@ == letters_at(fields, "addr"@)
    &&& value.conn_type == int_at(fields, "conn_type"@)
    &&& value.network == word_at(fields, "network"@)
}

fn read_connection(message: Option<&DynamicMessage>) -> (value: Connection)
    ensures
        is_connection(value, held_by(message)),
{
    Connection {
        peer_id: long(message, "peer_id"),
        addr: letters(message, "addr"),
        conn_type: signed(message, "conn_type"),
        network: word(message, "network"),
    }
}

/// Whether this is a connection that ended with these fields.
pub open spec fn is_closed(value: ClosedConnection, fields: Fields) -> bool {
    &&& is_connection(value.conn, message_at(fields, "conn"@))
    &&& value.time_established == long_at(fields, "time_established"@)
}

fn read_closed(message: Option<&DynamicMessage>) -> (value: ClosedConnection)
    ensures
        is_closed(value, held_by(message)),
{
    ClosedConnection {
        conn: read_connection(inner(message, "conn")),
        time_established: long(message, "time_established"),
    }
}

/// Whether this is a connection from a peer with these fields.
pub open spec fn is_inbound(value: InboundConnection, fields: Fields) -> bool {
    &&& is_connection(value.conn, message_at(fields, "conn"@))
    &&& value.existing_connections == long_at(fields, "existing_connections"@)
}

fn read_inbound(message: Option<&DynamicMessage>) -> (value: InboundConnection)
    ensures
        is_inbound(value, held_by(message)),
{
    InboundConnection {
        conn: read_connection(inner(message, "conn")),
        existing_connections: long(message, "existing_connections"),
    }
}

/// Whether this is a connection to a peer with these fields.
pub open spec fn is_outbound(value: OutboundConnection, fields: Fields) -> bool {
    &&& is_connection(value.conn, message_at(fields, "conn"@))
    &&& value.existing_connections == long_at(fields, "existing_connections"@)
}

fn read_outbound(message: Option<&DynamicMessage>) -> (value: OutboundConnection)
    ensures
        is_outbound(value, held_by(message)),
{
    OutboundConnection {
        conn: read_connection(inner(message, "conn")),
        existing_connections: long(message, "existing_connections"),
    }
}

/// Whether this is a complaint about a peer with these fields.
pub open spec fn is_misbehaving(value: MisbehavingConnection, fields: Fields) -> bool {
    &&& value.id == long_at(fields, "id"@)
    &&& value.message@ == letters_at(fields, "message"@)
}

fn read_misbehaving(message: Option<&DynamicMessage>) -> (value: MisbehavingConnection)
    ensures
        is_misbehaving(value, held_by(message)),
{
    MisbehavingConnection {
        id: long(message, "id"),
        message: letters(message, "message"),
    }
}

/// Whether this is what a connection event with these fields.
pub open spec fn is_conn_event(value: Option<ConnEvent>, fields: Fields) -> bool {
    if sets(fields, "closed"@) {
        value matches Some(ConnEvent::Closed(inner)) && is_closed(inner, message_at(fields, "closed"@))
    } else if sets(fields, "inbound_evicted"@) {
        value matches Some(ConnEvent::InboundEvicted(inner)) && is_closed(inner, message_at(fields, "inbound_evicted"@))
    } else if sets(fields, "inbound"@) {
        value matches Some(ConnEvent::Inbound(inner)) && is_inbound(inner, message_at(fields, "inbound"@))
    } else if sets(fields, "outbound"@) {
        value matches Some(ConnEvent::Outbound(inner)) && is_outbound(inner, message_at(fields, "outbound"@))
    } else if sets(fields, "misbehaving"@) {
        value matches Some(ConnEvent::Misbehaving(inner)) && is_misbehaving(inner, message_at(fields, "misbehaving"@))
    } else {
        value is None
    }
}

fn read_conn_event(message: Option<&DynamicMessage>) -> (value: Option<ConnEvent>)
    ensures
        is_conn_event(value, held_by(message)),
{
    if is_set(message, "closed") {
        Some(ConnEvent::Closed(read_closed(inner(message, "closed"))))
    } else if is_set(message, "inbound_evicted") {
        Some(ConnEvent::InboundEvicted(read_closed(inner(message, "inbound_evicted"))))
    } else if is_set(message, "inbound") {
        Some(ConnEvent::Inbound(read_inbound(inner(message, "inbound"))))
    } else if is_set(message, "outbound") {
        Some(ConnEvent::Outbound(read_outbound(inner(message, "outbound"))))
    } else if is_set(message, "misbehaving") {
        Some(ConnEvent::Misbehaving(read_misbehaving(inner(message, "misbehaving"))))
    } else {
        None
    }
}

/// Whether this is what a mempool event with these fields.
pub open spec fn is_mempool_change(value: Option<MempoolChange>, fields: Fields) -> bool {
    if sets(fields, "added"@) {
        value == Some(MempoolChange::Added)
    } else if sets(fields, "replaced"@) {
        value == Some(MempoolChange::Replaced)
    } else if sets(fields, "removed"@) {
        value == Some(MempoolChange::Removed)
    } else if sets(fields, "rejected"@) {
        value == Some(MempoolChange::Rejected)
    } else {
        value is None
    }
}

fn read_mempool_change(message: Option<&DynamicMessage>) -> (value: Option<MempoolChange>)
    ensures
        is_mempool_change(value, held_by(message)),
{
    if is_set(message, "added") {
        Some(MempoolChange::Added)
    } else if is_set(message, "replaced") {
        Some(MempoolChange::Replaced)
    } else if is_set(message, "removed") {
        Some(MempoolChange::Removed)
    } else if is_set(message, "rejected") {
        Some(MempoolChange::Rejected)
    } else {
        None
    }
}

/// Whether this is what a validation event with these fields.
pub open spec fn is_validated(value: Option<Validated>, fields: Fields) -> bool {
    if sets(fields, "block_connected"@) {
        value == Some(Validated::BlockConnected)
    } else {
        value is None
    }
}

fn read_validated(message: Option<&DynamicMessage>) -> (value: Option<Validated>)
    ensures
        is_validated(value, held_by(message)),
{
    if is_set(message, "block_connected") {
        Some(Validated::BlockConnected)
    } else {
        None
    }
}

/// Whether this is a connection event with these fields.
pub open spec fn is_connection_event(value: ConnectionEvent, fields: Fields) -> bool {
    is_conn_event(value.event, fields)
}

fn read_connection_event(message: Option<&DynamicMessage>) -> (value: ConnectionEvent)
    ensures
        is_connection_event(value, held_by(message)),
{
    ConnectionEvent { event: read_conn_event(message) }
}

/// Whether this is a mempool event with these fields.
pub open spec fn is_mempool_event(value: MempoolEvent, fields: Fields) -> bool {
    is_mempool_change(value.event, fields)
}

fn read_mempool_event(message: Option<&DynamicMessage>) -> (value: MempoolEvent)
    ensures
        is_mempool_event(value, held_by(message)),
{
    MempoolEvent { event: read_mempool_change(message) }
}

/// Whether this is a validation event with these fields.
pub open spec fn is_validation_event(value: ValidationEvent, fields: Fields) -> bool {
    is_validated(value.event, fields)
}

fn read_validation_event(message: Option<&DynamicMessage>) -> (value: ValidationEvent)
    ensures
        is_validation_event(value, held_by(message)),
{
    ValidationEvent { event: read_validated(message) }
}

/// Whether this is what the eBPF extractor saw with these fields.
pub open spec fn is_ebpf_event(value: Option<EbpfEvent>, fields: Fields) -> bool {
    if sets(fields, "message"@) {
        value matches Some(EbpfEvent::Message(inner)) && is_message_event(inner, message_at(fields, "message"@))
    } else if sets(fields, "connection"@) {
        value matches Some(EbpfEvent::Connection(inner)) && is_connection_event(inner, message_at(fields, "connection"@))
    } else if sets(fields, "mempool"@) {
        value matches Some(EbpfEvent::Mempool(inner)) && is_mempool_event(inner, message_at(fields, "mempool"@))
    } else if sets(fields, "validation"@) {
        value matches Some(EbpfEvent::Validation(inner)) && is_validation_event(inner, message_at(fields, "validation"@))
    } else {
        value is None
    }
}

fn read_ebpf_event(message: Option<&DynamicMessage>) -> (value: Option<EbpfEvent>)
    ensures
        is_ebpf_event(value, held_by(message)),
{
    if is_set(message, "message") {
        Some(EbpfEvent::Message(read_message_event(inner(message, "message"))))
    } else if is_set(message, "connection") {
        Some(EbpfEvent::Connection(read_connection_event(inner(message, "connection"))))
    } else if is_set(message, "mempool") {
        Some(EbpfEvent::Mempool(read_mempool_event(inner(message, "mempool"))))
    } else if is_set(message, "validation") {
        Some(EbpfEvent::Validation(read_validation_event(inner(message, "validation"))))
    } else {
        None
    }
}

/// Whether this is an event of the eBPF extractor with these fields.
pub open spec fn is_ebpf(value: Ebpf, fields: Fields) -> bool {
    is_ebpf_event(value.ebpf_event, fields)
}

fn read_ebpf(message: Option<&DynamicMessage>) -> (value: Ebpf)
    ensures
        is_ebpf(value, held_by(message)),
{
    Ebpf { ebpf_event: read_ebpf_event(message) }
}

/// Whether this is what a poll says of a peer with these fields.
pub open spec fn is_peer_info(value: PeerInfo, fields: Fields) -> bool {
    &&& value.id == word_at(fields, "id"@)
    &&& value.subversion@ == letters_at(fields, "subversion"@)
}

fn read_peer_info(message: Option<&DynamicMessage>) -> (value: PeerInfo)
    ensures
        is_peer_info(value, held_by(message)),
{
    PeerInfo {
        id: word(message, "id"),
        subversion: letters(message, "subversion"),
    }
}

/// Whether these are what a poll says of peers, one for each of some values.
pub open spec fn are_peer_infos_list(values: Seq<PeerInfo>, list: Seq<Raw>) -> bool {
    &&& values.len() == list.len()
    &&& forall|i: int|
        #![trigger values[i]]
        0 <= i < values.len() ==> is_peer_info(values[i], fields_in(list[i]))
}

fn read_peer_infos_list(list: Option<&[Value]>) -> (values: Vec<PeerInfo>)
    ensures
        are_peer_infos_list(values@, held_in(list)),
{
    let mut values: Vec<PeerInfo> = Vec::new();
    if let Some(items) = list {
        let mut i: usize = 0;
        while i < items.len()
            invariant
                i <= items@.len(),
                list == Some(items),
                values@.len() == i,
                forall|k: int|
                    #![trigger values@[k]]
                    0 <= k < i ==> is_peer_info(values@[k], fields_in(held_in(list)[k])),
            decreases items@.len() - i,
        {
            assert(held_in(list)[i as int] == reflect::held(items@[i as int]));
            let message = message_in(&items[i]);
            assert(held_by(message) =~= fields_in(held_in(list)[i as int]));
            values.push(read_peer_info(message));
            i = i + 1;
        }
    }
    values
}

/// Whether this is a poll of the peers with these fields.
pub open spec fn is_peer_infos(value: PeerInfos, fields: Fields) -> bool {
    &&& are_peer_infos_list(value.infos@, list_at(fields, "infos"@))
}

fn read_peer_infos(message: Option<&DynamicMessage>) -> (value: PeerInfos)
    ensures
        is_peer_infos(value, held_by(message)),
{
    PeerInfos {
        infos: read_peer_infos_list(listed(message, "infos")),
    }
}

/// Whether this is the answer to a poll with these fields.
pub open spec fn is_rpc_event(value: Option<RpcEvent>, fields: Fields) -> bool {
    if sets(fields, "peer_infos"@) {
        value matches Some(RpcEvent::PeerInfos(inner)) && is_peer_infos(inner, message_at(fields, "peer_infos"@))
    } else if sets(fields, "mempool_info"@) {
        value == Some(RpcEvent::MempoolInfo)
    } else if sets(fields, "uptime"@) {
        value == Some(RpcEvent::Uptime)
    } else if sets(fields, "net_totals"@) {
        value == Some(RpcEvent::NetTotals)
    } else if sets(fields, "memory_info"@) {
        value == Some(RpcEvent::MemoryInfo)
    } else if sets(fields, "addrman_info"@) {
        value == Some(RpcEvent::AddrmanInfo)
    } else if sets(fields, "chain_tx_stats"@) {
        value == Some(RpcEvent::ChainTxStats)
    } else if sets(fields, "network_info"@) {
        value == Some(RpcEvent::NetworkInfo)
    } else if sets(fields, "blockchain_info"@) {
        value == Some(RpcEvent::BlockchainInfo)
    } else if sets(fields, "orphan_txs"@) {
        value == Some(RpcEvent::OrphanTxs)
    } else if sets(fields, "addrman"@) {
        value == Some(RpcEvent::Addrman)
    } else if sets(fields, "estimate_smart_fee"@) {
        value == Some(RpcEvent::EstimateSmartFee)
    } else {
        value is None
    }
}

fn read_rpc_event(message: Option<&DynamicMessage>) -> (value: Option<RpcEvent>)
    ensures
        is_rpc_event(value, held_by(message)),
{
    if is_set(message, "peer_infos") {
        Some(RpcEvent::PeerInfos(read_peer_infos(inner(message, "peer_infos"))))
    } else if is_set(message, "mempool_info") {
        Some(RpcEvent::MempoolInfo)
    } else if is_set(message, "uptime") {
        Some(RpcEvent::Uptime)
    } else if is_set(message, "net_totals") {
        Some(RpcEvent::NetTotals)
    } else if is_set(message, "memory_info") {
        Some(RpcEvent::MemoryInfo)
    } else if is_set(message, "addrman_info") {
        Some(RpcEvent::AddrmanInfo)
    } else if is_set(message, "chain_tx_stats") {
        Some(RpcEvent::ChainTxStats)
    } else if is_set(message, "network_info") {
        Some(RpcEvent::NetworkInfo)
    } else if is_set(message, "blockchain_info") {
        Some(RpcEvent::BlockchainInfo)
    } else if is_set(message, "orphan_txs") {
        Some(RpcEvent::OrphanTxs)
    } else if is_set(message, "addrman") {
        Some(RpcEvent::Addrman)
    } else if is_set(message, "estimate_smart_fee") {
        Some(RpcEvent::EstimateSmartFee)
    } else {
        None
    }
}

/// Whether this is an event of the RPC extractor with these fields.
pub open spec fn is_rpc(value: Rpc, fields: Fields) -> bool {
    is_rpc_event(value.rpc_event, fields)
}

fn read_rpc(message: Option<&DynamicMessage>) -> (value: Rpc)
    ensures
        is_rpc(value, held_by(message)),
{
    Rpc { rpc_event: read_rpc_event(message) }
}

/// Whether this is what the P2P extractor saw with these fields.
pub open spec fn is_p2p_event(value: Option<P2pEvent>, fields: Fields) -> bool {
    if sets(fields, "ping_duration"@) {
        value == Some(P2pEvent::PingDuration)
    } else if sets(fields, "address_announcement"@) {
        value == Some(P2pEvent::AddressAnnouncement)
    } else if sets(fields, "inventory_announcement"@) {
        value == Some(P2pEvent::InventoryAnnouncement)
    } else if sets(fields, "feefilter_announcement"@) {
        value == Some(P2pEvent::FeefilterAnnouncement)
    } else {
        value is None
    }
}

fn read_p2p_event(message: Option<&DynamicMessage>) -> (value: Option<P2pEvent>)
    ensures
        is_p2p_event(value, held_by(message)),
{
    if is_set(message, "ping_duration") {
        Some(P2pEvent::PingDuration)
    } else if is_set(message, "address_announcement") {
        Some(P2pEvent::AddressAnnouncement)
    } else if is_set(message, "inventory_announcement") {
        Some(P2pEvent::InventoryAnnouncement)
    } else if is_set(message, "feefilter_announcement") {
        Some(P2pEvent::FeefilterAnnouncement)
    } else {
        None
    }
}

/// Whether this is an event of the P2P extractor with these fields.
pub open spec fn is_p2p(value: P2p, fields: Fields) -> bool {
    is_p2p_event(value.p2p_event, fields)
}

fn read_p2p(message: Option<&DynamicMessage>) -> (value: P2p)
    ensures
        is_p2p(value, held_by(message)),
{
    P2p { p2p_event: read_p2p_event(message) }
}

/// Whether this is what the log extractor read with these fields.
pub open spec fn is_log_event(value: Option<LogEvent>, fields: Fields) -> bool {
    if sets(fields, "unknown_log_message"@) {
        value == Some(LogEvent::UnknownLogMessage)
    } else if sets(fields, "block_connected_log"@) {
        value == Some(LogEvent::BlockConnectedLog)
    } else if sets(fields, "block_checked_log"@) {
        value == Some(LogEvent::BlockCheckedLog)
    } else if sets(fields, "saw_new_header_log"@) {
        value == Some(LogEvent::SawNewHeaderLog)
    } else if sets(fields, "compact_block_reconstructed_log"@) {
        value == Some(LogEvent::CompactBlockReconstructedLog)
    } else {
        value is None
    }
}

fn read_log_event(message: Option<&DynamicMessage>) -> (value: Option<LogEvent>)
    ensures
        is_log_event(value, held_by(message)),
{
    if is_set(message, "unknown_log_message") {
        Some(LogEvent::UnknownLogMessage)
    } else if is_set(message, "block_connected_log") {
        Some(LogEvent::BlockConnectedLog)
    } else if is_set(message, "block_checked_log") {
        Some(LogEvent::BlockCheckedLog)
    } else if is_set(message, "saw_new_header_log") {
        Some(LogEvent::SawNewHeaderLog)
    } else if is_set(message, "compact_block_reconstructed_log") {
        Some(LogEvent::CompactBlockReconstructedLog)
    } else {
        None
    }
}

/// Whether this is an event of the log extractor with these fields.
pub open spec fn is_log(value: Log, fields: Fields) -> bool {
    is_log_event(value.log_event, fields)
}

fn read_log(message: Option<&DynamicMessage>) -> (value: Log)
    ensures
        is_log(value, held_by(message)),
{
    Log { log_event: read_log_event(message) }
}

/// Whether this is what the IPC extractor saw with these fields.
pub open spec fn is_ipc_event(value: Option<IpcEvent>, fields: Fields) -> bool {
    if sets(fields, "block_tip"@) {
        value == Some(IpcEvent::BlockTip)
    } else {
        value is None
    }
}

fn read_ipc_event(message: Option<&DynamicMessage>) -> (value: Option<IpcEvent>)
    ensures
        is_ipc_event(value, held_by(message)),
{
    if is_set(message, "block_tip") {
        Some(IpcEvent::BlockTip)
    } else {
        None
    }
}

/// Whether this is an event of the IPC extractor with these fields.
pub open spec fn is_ipc(value: Ipc, fields: Fields) -> bool {
    is_ipc_event(value.ipc_event, fields)
}

fn read_ipc(message: Option<&DynamicMessage>) -> (value: Ipc)
    ensures
        is_ipc(value, held_by(message)),
{
    Ipc { ipc_event: read_ipc_event(message) }
}

/// Whether this is what an extractor saw with these fields.
pub open spec fn is_extracted(value: Option<PeerObserverEvent>, fields: Fields) -> bool {
    if sets(fields, "ebpf_extractor"@) {
        value matches Some(PeerObserverEvent::EbpfExtractor(inner)) && is_ebpf(inner, message_at(fields, "ebpf_extractor"@))
    } else if sets(fields, "rpc_extractor"@) {
        value matches Some(PeerObserverEvent::RpcExtractor(inner)) && is_rpc(inner, message_at(fields, "rpc_extractor"@))
    } else if sets(fields, "p2p_extractor"@) {
        value matches Some(PeerObserverEvent::P2pExtractor(inner)) && is_p2p(inner, message_at(fields, "p2p_extractor"@))
    } else if sets(fields, "log_extractor"@) {
        value matches Some(PeerObserverEvent::LogExtractor(inner)) && is_log(inner, message_at(fields, "log_extractor"@))
    } else if sets(fields, "ipc_extractor"@) {
        value matches Some(PeerObserverEvent::IpcExtractor(inner)) && is_ipc(inner, message_at(fields, "ipc_extractor"@))
    } else {
        value is None
    }
}

fn read_extracted(message: Option<&DynamicMessage>) -> (value: Option<PeerObserverEvent>)
    ensures
        is_extracted(value, held_by(message)),
{
    if is_set(message, "ebpf_extractor") {
        Some(PeerObserverEvent::EbpfExtractor(read_ebpf(inner(message, "ebpf_extractor"))))
    } else if is_set(message, "rpc_extractor") {
        Some(PeerObserverEvent::RpcExtractor(read_rpc(inner(message, "rpc_extractor"))))
    } else if is_set(message, "p2p_extractor") {
        Some(PeerObserverEvent::P2pExtractor(read_p2p(inner(message, "p2p_extractor"))))
    } else if is_set(message, "log_extractor") {
        Some(PeerObserverEvent::LogExtractor(read_log(inner(message, "log_extractor"))))
    } else if is_set(message, "ipc_extractor") {
        Some(PeerObserverEvent::IpcExtractor(read_ipc(inner(message, "ipc_extractor"))))
    } else {
        None
    }
}

/// Whether this is an event with these fields.
pub open spec fn is_event(value: Event, fields: Fields) -> bool {
    &&& value.timestamp == long_at(fields, "timestamp"@)
    &&& is_extracted(value.peer_observer_event, fields)
}

fn read_event(message: Option<&DynamicMessage>) -> (value: Event)
    ensures
        is_event(value, held_by(message)),
{
    Event { timestamp: long(message, "timestamp"), peer_observer_event: read_extracted(message) }
}

/// What a record turned out to hold.
#[derive(Debug, PartialEq, Eq)]
pub enum Decoded {
    Header(ArchiveHeader),
    Event(Event),
    /// It could not be decoded.
    Nothing,
}

/// Whether this is what a record holds by a descriptor set: the first of a file is
/// its header, any other is an event.
pub open spec fn holds(decoded: Decoded, set: Seq<u8>, index: u64, bytes: Seq<u8>) -> bool {
    if index == 0 {
        match reflect::decoded(set, HEADER_MESSAGE@, bytes) {
            Ok(fields) => decoded matches Decoded::Header(header) && is_header(header, fields),
            Err(_) => decoded is Nothing,
        }
    } else {
        match reflect::decoded(set, EVENT_MESSAGE@, bytes) {
            Ok(fields) => decoded matches Decoded::Event(event) && is_event(event, fields),
            Err(_) => decoded is Nothing,
        }
    }
}

/// The two messages an archive is made of.
pub struct Messages {
    header: MessageDescriptor,
    event: MessageDescriptor,
}

/// Why a descriptor set will not do.
fn missing(name: &str) -> (reason: String)
    ensures
        reason@ == name@ + " is missing from the descriptor set"@,
{
    let mut reason: String = name.to_owned();
    reason.append(" is missing from the descriptor set");
    reason
}

impl Messages {
    /// The descriptor set they were found in.
    pub closed spec fn source(&self) -> Seq<u8> {
        reflect::message_source(self.event).0
    }

    pub closed spec fn wf(&self) -> bool {
        &&& reflect::message_source(self.event).1 == EVENT_MESSAGE@
        &&& reflect::message_source(self.header) == (self.source(), HEADER_MESSAGE@)
        &&& reflect::sound(self.source())
    }

    /// Find them in a serialized `FileDescriptorSet`.
    pub fn new(descriptor_set: &[u8]) -> (messages: Result<Messages, String>)
        ensures
            match messages {
                Ok(messages) => {
                    &&& messages.wf()
                    &&& messages.source() == descriptor_set@
                    &&& schema::objection(descriptor_set@) is None
                    &&& reflect::has_message(descriptor_set@, EVENT_MESSAGE@)
                    &&& reflect::has_message(descriptor_set@, HEADER_MESSAGE@)
                },
                Err(reason) => match schema::objection(descriptor_set@) {
                    Some(words) => reason@ == "could not read the descriptor set: "@ + words,
                    None => if !reflect::has_message(descriptor_set@, EVENT_MESSAGE@) {
                        reason@ == EVENT_MESSAGE@ + " is missing from the descriptor set"@
                    } else {
                        &&& !reflect::has_message(descriptor_set@, HEADER_MESSAGE@)
                        &&& reason@ == HEADER_MESSAGE@ + " is missing from the descriptor set"@
                    },
                },
            },
    {
        let pool = match open_pool(descriptor_set) {
            Ok(pool) => pool,
            Err(words) => {
                let mut reason: String = "could not read the descriptor set: ".to_owned();
                reason.append(words.as_str());
                return Err(reason);
            },
        };
        match find_message(&pool, EVENT_MESSAGE) {
            Some(event) => match find_message(&pool, HEADER_MESSAGE) {
                Some(header) => Ok(Messages { header, event }),
                None => Err(missing(HEADER_MESSAGE)),
            },
            None => Err(missing(EVENT_MESSAGE)),
        }
    }

    /// Decode a record that is an event.
    pub(crate) fn decode_event(&self, bytes: &[u8]) -> (message: Option<DynamicMessage>)
        requires
            self.wf(),
        ensures
            match message {
                Some(message) => {
                    &&& reflect::decoded(self.source(), EVENT_MESSAGE@, bytes@) == Ok::<_, Seq<char>>(
                        reflect::contents(message),
                    )
                    &&& reflect::type_of(message) == (self.source(), EVENT_MESSAGE@)
                    &&& reflect::nesting(message) <= reflect::DEEPEST
                    &&& reflect::sound(self.source())
                },
                None => reflect::decoded(self.source(), EVENT_MESSAGE@, bytes@) is Err,
            },
    {
        match decode_message(&self.event, bytes) {
            Ok(message) => Some(message),
            Err(_) => None,
        }
    }

    /// Decode a record, by its place in its file.
    pub fn decode(&self, index: u64, bytes: &[u8]) -> (decoded: Decoded)
        requires
            self.wf(),
        ensures
            holds(decoded, self.source(), index, bytes@),
    {
        if index == 0 {
            match decode_message(&self.header, bytes) {
                Ok(message) => Decoded::Header(read_header(Some(&message))),
                Err(_) => Decoded::Nothing,
            }
        } else {
            match self.decode_event(bytes) {
                Some(message) => Decoded::Event(read_event(Some(&message))),
                None => Decoded::Nothing,
            }
        }
    }
}

} // verus!
