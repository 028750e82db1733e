//! Generic rendering of a single event, via protobuf reflection.
//!
//! Hand-writing a renderer for the ~60 message types in the schema would be a
//! lot of code that goes stale the moment upstream adds a message. Instead the
//! event's retained bytes are decoded against a descriptor set, so field names
//! come from the schema itself and new message types appear without any change
//! here.
//!
//! Bytes fields render as hex rather than protobuf-JSON's base64: these are
//! txids, block hashes and raw transactions, and base64 is unreadable for those.

use crate::analysis::Analysis;
use crate::reflect;
use crate::reflect::{
    decode_message, entries_in, enum_name, fields_of, find_message, is_map_entry, key_in, list_in,
    message_in, scalar_in, second_of, Key, Raw, RawKey, Scalar, Sort,
};
use crate::schema;
use crate::schema::open_pool;
use crate::text;
use prost_reflect::{DynamicMessage, MapKey, MessageDescriptor, Value};
use vstd::prelude::*;
use vstd::string::*;

verus! {

/// Fully-qualified name of the archived top-level message.
pub const EVENT_MESSAGE: &'static str = "event.Event";

/// The largest whole number a page can hold exactly.
pub const MAX_SAFE_INTEGER: u64 = 9_007_199_254_740_991;

/// A rendered value. Values that a page cannot hold exactly are text rather than
/// silently rounded.
#[derive(Debug, PartialEq, Eq)]
pub enum Json {
    Bool(bool),
    Int(i64),
    Uint(u64),
    /// A float, as its bits.
    F32(u32),
    /// A double, as its bits.
    F64(u64),
    Text(String),
    List(Vec<Json>),
    Object(Vec<(String, Json)>),
}

/// A nibble in hex.
pub open spec fn hex_digit(n: int) -> char {
    if n < 10 {
        text::digit(n)
    } else if n == 10 {
        'a'
    } else if n == 11 {
        'b'
    } else if n == 12 {
        'c'
    } else if n == 13 {
        'd'
    } else if n == 14 {
        'e'
    } else {
        'f'
    }
}

/// Bytes in hex.
pub open spec fn hex_text(bytes: Seq<u8>) -> Seq<char> {
    Seq::new(
        2 * bytes.len(),
        |i: int|
            hex_digit(
                if i % 2 == 0 {
                    bytes[i / 2] as int / 16
                } else {
                    bytes[i / 2] as int % 16
                },
            ),
    )
}

/// A key as text.
pub open spec fn key_text(key: RawKey) -> Seq<char> {
    match key {
        RawKey::Bool(true) => "true"@,
        RawKey::Bool(false) => "false"@,
        RawKey::I32(v) => text::signed_digits(v as int),
        RawKey::I64(v) => text::signed_digits(v as int),
        RawKey::U32(v) => text::digits(v as nat),
        RawKey::U64(v) => text::digits(v as nat),
        RawKey::Text(v) => v,
    }
}

/// Whether this renders an unsigned number.
pub open spec fn is_number(json: Json, value: u64) -> bool {
    if value <= MAX_SAFE_INTEGER {
        json == Json::Uint(value)
    } else {
        json matches Json::Text(shown) && shown@ == text::digits(value as nat)
    }
}

/// Whether this renders a signed number.
pub open spec fn is_signed_number(json: Json, value: i64) -> bool {
    if -MAX_SAFE_INTEGER <= value <= MAX_SAFE_INTEGER {
        json == Json::Int(value)
    } else {
        json matches Json::Text(shown) && shown@ == text::signed_digits(value as int)
    }
}

/// Whether this renders an enum number: by its name, in brackets where the schema
/// has no name for it, and as it is where the field is no enum.
pub open spec fn is_variant(json: Json, number: i32, sort: Sort) -> bool {
    match sort {
        Sort::Enum(names) => json matches Json::Text(shown) && shown@ == (if names.dom().contains(
            number,
        ) {
            names[number]
        } else {
            "("@ + text::signed_digits(number as int) + ")"@
        }),
        _ => json == Json::Int(number as i64),
    }
}

/// Whether this renders a zero as a negative one. In a map it may be either.
pub open spec fn is_negative_zero(json: Json, raw: Raw) -> bool {
    match raw {
        Raw::F32(bits) => bits == 0 && json == Json::F32(reflect::NEGATIVE_ZERO_32),
        Raw::F64(bits) => bits == 0 && json == Json::F64(reflect::NEGATIVE_ZERO_64),
        _ => false,
    }
}

/// Whether this renders a value of a field.
pub open spec fn renders(json: Json, raw: Raw, sort: Sort) -> bool
    decreases raw,
{
    match raw {
        Raw::Bool(v) => json == Json::Bool(v),
        Raw::I32(v) => json == Json::Int(v as i64),
        Raw::I64(v) => is_signed_number(json, v),
        Raw::U32(v) => json == Json::Uint(v as u64),
        Raw::U64(v) => is_number(json, v),
        Raw::F32(v) => json == Json::F32(v),
        Raw::F64(v) => json == Json::F64(v),
        Raw::Text(v) => json matches Json::Text(shown) && shown@ == v,
        Raw::Bytes(v) => json matches Json::Text(shown) && shown@ == hex_text(v),
        Raw::Enum(v) => is_variant(json, v, sort),
        Raw::Message(fields) => {
            &&& json matches Json::Object(pairs)
            &&& pairs@.len() == fields.len()
            &&& forall|i: int|
                #![trigger fields[i]]
                0 <= i < fields.len() ==> pairs@[i].0@ == fields[i].0 && renders(
                    pairs@[i].1,
                    fields[i].2,
                    fields[i].1,
                )
        },
        Raw::List(items) => {
            &&& json matches Json::List(list)
            &&& list@.len() == items.len()
            &&& forall|i: int|
                #![trigger items[i]]
                0 <= i < items.len() ==> renders(list@[i], items[i], sort)
        },
        Raw::Entries(entries) => {
            &&& json matches Json::Object(pairs)
            &&& pairs@.len() == entries.len()
            &&& exists|places: Seq<int>|
                {
                    &&& #[trigger] reflect::is_rearrangement(places, entries.len() as int)
                    &&& forall|i: int|
                        #![trigger places[i]]
                        0 <= i < entries.len() ==> 0 <= places[i] < entries.len() && pairs@[i].0@
                            == key_text(entries[places[i]].0) && (renders(
                            pairs@[i].1,
                            entries[places[i]].1,
                            reflect::item_sort(sort),
                        ) || is_negative_zero(pairs@[i].1, entries[places[i]].1))
                }
        },
    }
}

/// A nibble in hex.
fn hex_digit_text(n: u8) -> (digit: &'static str)
    requires
        n < 16,
    ensures
        digit@ == seq![hex_digit(n as int)],
{
    proof {
        reveal_strlit("0");
        reveal_strlit("1");
        reveal_strlit("2");
        reveal_strlit("3");
        reveal_strlit("4");
        reveal_strlit("5");
        reveal_strlit("6");
        reveal_strlit("7");
        reveal_strlit("8");
        reveal_strlit("9");
        reveal_strlit("a");
        reveal_strlit("b");
        reveal_strlit("c");
        reveal_strlit("d");
        reveal_strlit("e");
        reveal_strlit("f");
    }
    let digit: &'static str = match n {
        0 => "0",
        1 => "1",
        2 => "2",
        3 => "3",
        4 => "4",
        5 => "5",
        6 => "6",
        7 => "7",
        8 => "8",
        9 => "9",
        10 => "a",
        11 => "b",
        12 => "c",
        13 => "d",
        14 => "e",
        _ => "f",
    };
    assert(digit@ =~= seq![hex_digit(n as int)]);
    digit
}

/// Bytes in hex.
pub fn hex(bytes: &[u8]) -> (out: String)
    ensures
        out@ == hex_text(bytes@),
{
    let mut out: String = String::new();
    let mut i: usize = 0;
    assert(out@ =~= hex_text(bytes@.take(0)));
    while i < bytes.len()
        invariant
            i <= bytes@.len(),
            out@ == hex_text(bytes@.take(i as int)),
        decreases bytes@.len() - i,
    {
        let ghost before = out@;
        let byte: u8 = bytes[i];
        out.append(hex_digit_text(byte / 16));
        out.append(hex_digit_text(byte % 16));
        i = i + 1;
        proof {
            let now = hex_text(bytes@.take(i as int));
            let high = hex_digit(byte as int / 16);
            let low = hex_digit(byte as int % 16);
            assert(out@ =~= before.push(high).push(low));
            assert forall|k: int| 0 <= k < now.len() implies now[k] == before.push(high).push(
                low,
            )[k] by {
                if k < before.len() {
                    assert(before[k] == hex_text(bytes@.take(i - 1))[k]);
                    assert(bytes@.take(i - 1)[k / 2] == bytes@.take(i as int)[k / 2]);
                } else {
                    assert(k / 2 == i - 1);
                }
            }
            assert(now =~= before.push(high).push(low));
        }
    }
    assert(bytes@.take(i as int) =~= bytes@);
    out
}

/// Values that a page cannot hold exactly are emitted as text rather than silently
/// rounded.
pub fn number(value: u64) -> (json: Json)
    ensures
        is_number(json, value),
{
    if value <= MAX_SAFE_INTEGER {
        Json::Uint(value)
    } else {
        Json::Text(text::decimal(value))
    }
}

/// The same for a signed number.
pub fn signed_number(value: i64) -> (json: Json)
    ensures
        is_signed_number(json, value),
{
    if -9_007_199_254_740_991 <= value && value <= 9_007_199_254_740_991 {
        Json::Int(value)
    } else {
        Json::Text(text::signed_decimal(value))
    }
}

/// A key as text.
pub fn map_key_to_string(key: &Key) -> (out: String)
    ensures
        out@ == key_text(key@),
{
    match key {
        Key::Bool(v) => if *v {
            "true".to_owned()
        } else {
            "false".to_owned()
        },
        Key::I32(v) => text::signed_decimal(*v as i64),
        Key::I64(v) => text::signed_decimal(*v),
        Key::U32(v) => text::decimal(*v as u64),
        Key::U64(v) => text::decimal(*v),
        Key::Text(v) => v.clone(),
    }
}

/// An enum number, given what the schema calls it: `None` where the field is no
/// enum, `Some(None)` where the enum has no name for it.
pub fn variant_to_json(number: i32, name: Option<Option<String>>) -> (json: Json)
    ensures
        match name {
            Some(Some(name)) => json matches Json::Text(shown) && shown@ == name@,
            // A value this build's schema does not know, from a newer archive.
            Some(None) => json matches Json::Text(shown) && shown@ == "("@ + text::signed_digits(
                number as int,
            ) + ")"@,
            None => json == Json::Int(number as i64),
        },
{
    match name {
        Some(Some(name)) => Json::Text(name),
        Some(None) => {
            let mut shown: String = "(".to_owned();
            shown.append(text::signed_decimal(number as i64).as_str());
            shown.append(")");
            Json::Text(shown)
        },
        None => Json::Int(number as i64),
    }
}

/// What a type says about its values, whether or not they stand in a map.
pub open spec fn shown_as(kind: prost_reflect::Kind, mapped: bool) -> Sort {
    if mapped {
        reflect::inner_sort(kind)
    } else {
        reflect::sort_of(kind)
    }
}

/// Render a value that holds no others.
fn scalar_to_json(scalar: Scalar, kind: &prost_reflect::Kind, mapped: bool) -> (json: Json)
    ensures
        renders(json, scalar.raw(), shown_as(*kind, mapped)),
{
    match scalar {
        Scalar::Bool(v) => Json::Bool(v),
        Scalar::I32(v) => Json::Int(v as i64),
        Scalar::I64(v) => signed_number(v),
        Scalar::U32(v) => Json::Uint(v as u64),
        Scalar::U64(v) => number(v),
        Scalar::F32(v) => Json::F32(v),
        Scalar::F64(v) => Json::F64(v),
        Scalar::Text(v) => Json::Text(v),
        Scalar::Bytes(v) => Json::Text(hex(v.as_slice())),
        Scalar::Enum(v) => variant_to_json(v, enum_name(kind, v)),
    }
}

/// Render a message. Only the fields actually present are there, which is what we
/// want: an inspector should show what the event carries, not the whole schema.
fn message_to_json(message: &DynamicMessage) -> (json: Json)
    ensures
        forall|sort: Sort| #[trigger] renders(json, Raw::Message(reflect::contents(*message)), sort),
    decreases Raw::Message(reflect::contents(*message)), 0int,
{
    let fields = fields_of(message);
    let ghost raw = reflect::contents(*message);
    let mut pairs: Vec<(String, Json)> = Vec::new();
    let mut i: usize = 0;
    while i < fields.len()
        invariant
            i <= fields@.len(),
            pairs@.len() == i,
            raw == reflect::contents(*message),
            fields@.len() == raw.len(),
            forall|k: int|
                0 <= k < fields@.len() ==> raw[k] == (
                    (#[trigger] fields@[k]).name@,
                    reflect::sort_of(fields@[k].kind),
                    reflect::held(fields@[k].value),
                ),
            forall|k: int|
                #![trigger raw[k]]
                0 <= k < i ==> pairs@[k].0@ == raw[k].0 && renders(
                    pairs@[k].1,
                    raw[k].2,
                    raw[k].1,
                ),
        decreases fields@.len() - i,
    {
        let field = &fields[i];
        assert(raw[i as int].2 == reflect::held(field.value));
        proof {
            let whole = Raw::Message(raw);
            assert(decreases_to!(whole => whole->Message_0));
            assert(decreases_to!(raw => raw[i as int]));
            assert(decreases_to!(raw[i as int] => raw[i as int].2));
        }
        let shown = value_to_json(&field.value, &field.kind, false);
        pairs.push((field.name.clone(), shown));
        i = i + 1;
    }
    Json::Object(pairs)
}

/// Render a list.
fn list_to_json(
    list: &[Value],
    kind: &prost_reflect::Kind,
    mapped: bool,
    raw: Ghost<Seq<Raw>>,
) -> (json: Json)
    requires
        raw@ == Seq::new(list@.len(), |i: int| reflect::held(list@[i])),
    ensures
        renders(json, Raw::List(raw@), shown_as(*kind, mapped)),
    decreases Raw::List(raw@), 0int,
{
    let mut items: Vec<Json> = Vec::new();
    let mut i: usize = 0;
    while i < list.len()
        invariant
            i <= list@.len(),
            items@.len() == i,
            raw@ == Seq::new(list@.len(), |k: int| reflect::held(list@[k])),
            forall|k: int|
                #![trigger raw@[k]]
                0 <= k < i ==> renders(items@[k], raw@[k], shown_as(*kind, mapped)),
        decreases list@.len() - i,
    {
        assert(raw@[i as int] == reflect::held(list@[i as int]));
        proof {
            let whole = Raw::List(raw@);
            assert(decreases_to!(whole => whole->List_0));
            assert(decreases_to!(raw@ => raw@[i as int]));
        }
        items.push(value_to_json(&list[i], kind, mapped));
        i = i + 1;
    }
    Json::List(items)
}

proof fn lemma_entries_rendered(
    json: Json,
    raw: Seq<(RawKey, Raw)>,
    sort: Sort,
    places: Seq<int>,
)
    requires
        json is Object,
        json->Object_0@.len() == raw.len(),
        reflect::is_rearrangement(places, raw.len() as int),
        forall|k: int|
            #![trigger places[k]]
            0 <= k < raw.len() ==> 0 <= places[k] < raw.len() && json->Object_0@[k].0@ == key_text(
                raw[places[k]].0,
            ) && (renders(json->Object_0@[k].1, raw[places[k]].1, reflect::item_sort(sort))
                || is_negative_zero(json->Object_0@[k].1, raw[places[k]].1)),
    ensures
        renders(json, Raw::Entries(raw), sort),
{
    let pairs = json->Object_0;
    assert(json == Json::Object(pairs));
    assert(pairs@.len() == raw.len());
    assert forall|k: int|
        #![trigger places[k]]
        0 <= k < raw.len() implies 0 <= places[k] < raw.len() && pairs@[k].0@ == key_text(
        raw[places[k]].0,
    ) && (renders(pairs@[k].1, raw[places[k]].1, reflect::item_sort(sort)) || is_negative_zero(
        pairs@[k].1,
        raw[places[k]].1,
    )) by {}
    assert(reflect::is_rearrangement(places, raw.len() as int));
    assert(exists|places: Seq<int>|
        {
            &&& #[trigger] reflect::is_rearrangement(places, raw.len() as int)
            &&& forall|k: int|
                #![trigger places[k]]
                0 <= k < raw.len() ==> 0 <= places[k] < raw.len() && pairs@[k].0@ == key_text(
                    raw[places[k]].0,
                ) && (renders(pairs@[k].1, raw[places[k]].1, reflect::item_sort(sort))
                    || is_negative_zero(pairs@[k].1, raw[places[k]].1))
        });
}

/// Render the entries of a map.
fn entries_to_json(
    entries: &Vec<(MapKey, Value)>,
    kind: &prost_reflect::Kind,
    mapped: bool,
    raw: Ghost<Seq<(RawKey, Raw)>>,
) -> (json: Json)
    requires
        reflect::rearranges(reflect::as_entries(entries@), raw@),
    ensures
        renders(json, Raw::Entries(raw@), shown_as(*kind, mapped)),
    decreases Raw::Entries(raw@), 0int,
{
    // The type of the map's values lives on the synthetic entry message's field 2.
    let value_kind: Option<prost_reflect::Kind> = if !mapped && is_map_entry(kind) {
        second_of(kind)
    } else {
        None
    };
    let (item, inside): (&prost_reflect::Kind, bool) = match &value_kind {
        Some(value_kind) => (value_kind, true),
        None => (kind, mapped),
    };
    let ghost sort = shown_as(*kind, mapped);
    assert(shown_as(*item, inside) == reflect::item_sort(sort));
    let ghost given = reflect::as_entries(entries@);
    let ghost places = choose|places: Seq<int>| #[trigger]
        reflect::is_rearrangement(places, raw@.len() as int) && forall|i: int|
            0 <= i < given.len() ==> #[trigger] given[i] == raw@[places[i]];
    let mut pairs: Vec<(String, Json)> = Vec::new();
    let mut i: usize = 0;
    while i < entries.len()
        invariant
            i <= entries@.len(),
            pairs@.len() == i,
            given == reflect::as_entries(entries@),
            given.len() == raw@.len(),
            reflect::is_rearrangement(places, raw@.len() as int),
            forall|k: int| 0 <= k < given.len() ==> #[trigger] given[k] == raw@[places[k]],
            shown_as(*item, inside) == reflect::item_sort(sort),
            forall|k: int|
                #![trigger places[k]]
                0 <= k < i ==> 0 <= places[k] < raw@.len() && pairs@[k].0@ == key_text(
                    raw@[places[k]].0,
                ) && (renders(pairs@[k].1, raw@[places[k]].1, reflect::item_sort(sort))
                    || is_negative_zero(pairs@[k].1, raw@[places[k]].1)),
        decreases entries@.len() - i,
    {
        let entry = &entries[i];
        proof {
            let at = places[i as int];
            assert(given[i as int] == raw@[at]);
            assert(reflect::in_map(reflect::held(entry.1)) == raw@[at].1);
            let whole = Raw::Entries(raw@);
            assert(decreases_to!(whole => whole->Entries_0));
            assert(decreases_to!(raw@ => raw@[at]));
            assert(decreases_to!(raw@[at] => raw@[at].1));
        }
        let key = key_in(&entry.0);
        let shown = match scalar_in(&entry.1) {
            Some(scalar) => scalar_to_json(scalar, item, inside),
            None => value_to_json(&entry.1, item, inside),
        };
        pairs.push((map_key_to_string(&key), shown));
        i = i + 1;
    }
    let json = Json::Object(pairs);
    proof {
        lemma_entries_rendered(json, raw@, sort, places);
    }
    json
}

/// Render a value of a field of this type, which may stand in a map.
fn value_to_json(value: &Value, kind: &prost_reflect::Kind, mapped: bool) -> (json: Json)
    ensures
        renders(json, reflect::held(*value), shown_as(*kind, mapped)),
    decreases reflect::held(*value), 1int,
{
    if let Some(scalar) = scalar_in(value) {
        return scalar_to_json(scalar, kind, mapped);
    }
    if let Some(message) = message_in(value) {
        return message_to_json(message);
    }
    if let Some(list) = list_in(value) {
        return list_to_json(list, kind, mapped, Ghost(reflect::held(*value)->List_0));
    }
    match entries_in(value) {
        Some(entries) => entries_to_json(
            &entries,
            kind,
            mapped,
            Ghost(reflect::held(*value)->Entries_0),
        ),
        // A value is a scalar, a message, a list or a map.
        None => Json::Object(Vec::new()),
    }
}

/// The schema, decoded once and reused.
pub struct Schema {
    event: MessageDescriptor,
}

impl Schema {
    /// The descriptor set the schema was read from.
    pub closed spec fn source(&self) -> Seq<u8> {
        reflect::message_source(self.event).0
    }

    pub closed spec fn wf(&self) -> bool {
        &&& reflect::message_source(self.event).1 == EVENT_MESSAGE@
        &&& reflect::sound(self.source())
    }

    /// Read the schema from a serialized `FileDescriptorSet`.
    pub fn new(descriptor_set: &[u8]) -> (schema: Result<Schema, String>)
        ensures
            match schema {
                Ok(schema) => {
                    &&& schema.wf()
                    &&& schema.source() == descriptor_set@
                    &&& schema::objection(descriptor_set@) is None
                    &&& reflect::has_message(descriptor_set@, EVENT_MESSAGE@)
                },
                Err(reason) => match schema::objection(descriptor_set@) {
                    Some(words) => reason@ == "could not read the embedded descriptor set: "@ + words,
                    None => {
                        &&& !reflect::has_message(descriptor_set@, EVENT_MESSAGE@)
                        &&& reason@ == EVENT_MESSAGE@ + " is missing from the descriptor set"@
                    },
                },
            },
    {
        let pool = match open_pool(descriptor_set) {
            Ok(pool) => pool,
            Err(words) => {
                let mut reason: String = "could not read the embedded descriptor set: ".to_owned();
                reason.append(words.as_str());
                return Err(reason);
            },
        };
        match find_message(&pool, EVENT_MESSAGE) {
            Some(event) => Ok(Schema { event }),
            None => {
                let mut reason: String = EVENT_MESSAGE.to_owned();
                reason.append(" is missing from the descriptor set");
                Err(reason)
            },
        }
    }

    /// Decode one event's bytes and render them. The entries of a map come in whatever
    /// order it hands them out, and nothing is said of the sign of a zero in one.
    pub fn event_to_json(&self, bytes: &[u8]) -> (json: Result<Json, String>)
        requires
            self.wf(),
        ensures
            is_event_json(json, self.source(), bytes@),
    {
        match decode_message(&self.event, bytes) {
            Ok(message) => Ok(message_to_json(&message)),
            Err(words) => {
                let mut reason: String = "could not decode the event: ".to_owned();
                reason.append(words.as_str());
                Err(reason)
            },
        }
    }
}

/// Whether this is what an event's bytes render to.
pub open spec fn is_event_json(
    json: Result<Json, String>,
    set: Seq<u8>,
    bytes: Seq<u8>,
) -> bool {
    match (reflect::decoded(set, EVENT_MESSAGE@, bytes), json) {
        (Ok(fields), Ok(json)) => renders(json, Raw::Message(fields), Sort::Plain),
        (Err(words), Err(reason)) => reason@ == "could not decode the event: "@ + words,
        _ => false,
    }
}

/// Render a retained event by its index in the store.
pub fn event_json(analysis: &Analysis, schema: &Schema, index: u32) -> (json: Result<Json, String>)
    requires
        analysis.wf(),
        schema.wf(),
    ensures
        if index < analysis.store@.events.len() {
            is_event_json(json, schema.source(), analysis.store@.events[index as int].bytes)
        } else {
            json matches Err(reason) && reason@ == "event "@ + text::digits(index as nat)
                + " was not retained"@
        },
{
    match analysis.store.bytes(index) {
        Some(bytes) => schema.event_to_json(bytes),
        None => {
            let mut reason: String = "event ".to_owned();
            reason.append(text::decimal(index as u64).as_str());
            reason.append(" was not retained");
            Err(reason)
        },
    }
}

/// What a hex digit stands for.
pub open spec fn nibble(c: char) -> int {
    if '0' <= c && c <= '9' {
        c as int - '0' as int
    } else {
        c as int - 'a' as int + 10
    }
}

/// Bytes read back from their hex: two digits each, the higher one first, in lower case.
pub proof fn law_hex_reads_back(bytes: Seq<u8>, i: int)
    requires
        0 <= i < bytes.len(),
    ensures
        hex_text(bytes).len() == 2 * bytes.len(),
        bytes[i] == 16 * nibble(hex_text(bytes)[2 * i]) + nibble(hex_text(bytes)[2 * i + 1]),
        ({
            let (a, b) = (hex_text(bytes)[2 * i], hex_text(bytes)[2 * i + 1]);
            &&& '0' <= a && a <= '9' || 'a' <= a && a <= 'f'
            &&& '0' <= b && b <= '9' || 'a' <= b && b <= 'f'
        }),
{
    assert((2 * i) / 2 == i && (2 * i) % 2 == 0);
    assert((2 * i + 1) / 2 == i && (2 * i + 1) % 2 == 1);
    lemma_nibble(bytes[i] as int / 16);
    lemma_nibble(bytes[i] as int % 16);
}

proof fn lemma_nibble(n: int)
    requires
        0 <= n < 16,
    ensures
        nibble(hex_digit(n)) == n,
        '0' <= hex_digit(n) && hex_digit(n) <= '9' || 'a' <= hex_digit(n) && hex_digit(n) <= 'f',
{
}

/// A number is shown as one as long as a page holds it exactly, which is below two to the
/// power of fifty-three, and as its digits beyond; either way it is that number.
pub proof fn law_a_number_is_shown_exactly(json: Json, number: u64, signed: i64)
    ensures
        is_number(json, number) ==> match json {
            Json::Uint(shown) => shown == number && number < 0x20_0000_0000_0000,
            Json::Text(shown) => text::value(shown@) == number && number >= 0x20_0000_0000_0000,
            _ => false,
        },
        is_signed_number(json, signed) ==> match json {
            Json::Int(shown) => shown == signed && -0x20_0000_0000_0000 < signed
                < 0x20_0000_0000_0000,
            Json::Text(shown) => {
                &&& signed >= 0x20_0000_0000_0000 || signed <= -0x20_0000_0000_0000
                &&& signed > 0 ==> text::value(shown@) == signed
                &&& signed < 0 ==> shown@[0] == '-' && text::value(shown@.drop_first()) == -signed
            },
            _ => false,
        },
{
    text::law_a_number_reads_back(number as nat);
    if signed >= 0 {
        text::law_a_number_reads_back(signed as nat);
    } else {
        text::law_a_number_reads_back((-signed) as nat);
        let digits = text::digits((-signed) as nat);
        assert((seq!['-'] + digits).drop_first() =~= digits);
    }
}

} // verus!
