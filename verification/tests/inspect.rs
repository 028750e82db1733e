use archive_viewer::analysis::Analysis;
use archive_viewer::inspect::{
    event_json, hex, map_key_to_string, number, signed_number, variant_to_json, Json, Schema,
    MAX_SAFE_INTEGER,
};
use archive_viewer::reflect::Key;
use archive_viewer::store::NO_PEER;
use prost::Message;
use prost_reflect::{DescriptorPool, DynamicMessage, MapKey, Value};

// Field types, by their numbers in a descriptor.
const DOUBLE: u64 = 1;
const UINT64: u64 = 4;
const INT32: u64 = 5;
const BOOL: u64 = 8;
const STRING: u64 = 9;
const MESSAGE: u64 = 11;
const BYTES: u64 = 12;
const UINT32: u64 = 13;
const ENUM: u64 = 14;
const SINT64: u64 = 18;

fn number_field(tag: u64, value: u64) -> Vec<u8> {
    let mut out = Vec::new();
    prost::encoding::encode_varint(tag << 3, &mut out);
    prost::encoding::encode_varint(value, &mut out);
    out
}

fn bytes_field(tag: u64, bytes: &[u8]) -> Vec<u8> {
    let mut out = Vec::new();
    prost::encoding::encode_varint(tag << 3 | 2, &mut out);
    prost::encoding::encode_varint(bytes.len() as u64, &mut out);
    out.extend_from_slice(bytes);
    out
}

fn labelled(name: &str, number: u64, label: u64, kind: u64, of: &str, oneof: bool) -> Vec<u8> {
    let mut out = bytes_field(1, name.as_bytes());
    out.extend(number_field(3, number));
    out.extend(number_field(4, label));
    out.extend(number_field(5, kind));
    if !of.is_empty() {
        out.extend(bytes_field(6, of.as_bytes()));
    }
    if oneof {
        out.extend(number_field(9, 0));
    }
    out
}

fn field(name: &str, number: u64, kind: u64, of: &str) -> Vec<u8> {
    labelled(name, number, 1, kind, of, false)
}

fn arm(name: &str, number: u64, kind: u64, of: &str) -> Vec<u8> {
    labelled(name, number, 1, kind, of, true)
}

fn repeated(name: &str, number: u64, kind: u64, of: &str) -> Vec<u8> {
    labelled(name, number, 3, kind, of, false)
}

fn message(name: &str, oneof: Option<&str>, fields: &[Vec<u8>]) -> Vec<u8> {
    let mut out = bytes_field(1, name.as_bytes());
    for field in fields {
        out.extend(bytes_field(2, field));
    }
    if let Some(oneof) = oneof {
        out.extend(bytes_field(8, &bytes_field(1, oneof.as_bytes())));
    }
    out
}

/// A schema with the parts of the archive's that are needed here.
fn descriptor_set() -> Vec<u8> {
    let mut conn_type = bytes_field(1, b"ConnType");
    for (i, name) in ["Unknown", "Inbound", "OutboundFullRelay", "BlockRelayOnly", "Feeler"]
        .iter()
        .enumerate()
    {
        let mut value = bytes_field(1, name.as_bytes());
        value.extend(number_field(2, i as u64));
        conn_type.extend(bytes_field(2, &value));
    }

    let mut entry = message(
        "CountsEntry",
        None,
        &[
            field("key", 1, INT32, ""),
            field("value", 2, UINT64, ""),
        ],
    );
    // It is the entry of a map.
    entry.extend(bytes_field(7, &number_field(7, 1)));
    let mut tally = message(
        "Tally",
        None,
        &[
            repeated("counts", 1, MESSAGE, ".event.Tally.CountsEntry"),
            repeated("types", 2, ENUM, ".event.ConnType"),
            field("shift", 3, SINT64, ""),
            field("ratio", 4, DOUBLE, ""),
            field("slot", 5, UINT32, ""),
            field("offset", 6, INT32, ""),
        ],
    );
    tally.extend(bytes_field(3, &entry));

    let mut file = bytes_field(1, b"event.proto");
    file.extend(bytes_field(2, b"event"));
    for part in [
        message(
            "Event",
            Some("peer_observer_event"),
            &[
                field("timestamp", 1, UINT64, ""),
                arm("ebpf_extractor", 2, MESSAGE, ".event.Ebpf"),
                arm("rpc_extractor", 3, MESSAGE, ".event.Tally"),
            ],
        ),
        message(
            "Ebpf",
            Some("ebpf_event"),
            &[arm("message", 1, MESSAGE, ".event.MessageEvent")],
        ),
        message(
            "MessageEvent",
            Some("msg"),
            &[
                field("meta", 1, MESSAGE, ".event.Metadata"),
                arm("unknown", 2, MESSAGE, ".event.UnknownMessage"),
                arm("verack", 3, BOOL, ""),
                arm("ping", 4, MESSAGE, ".event.Ping"),
            ],
        ),
        message(
            "Metadata",
            None,
            &[
                field("peer_id", 1, UINT64, ""),
                field("addr", 2, STRING, ""),
                field("conn_type", 3, ENUM, ".event.ConnType"),
                field("command", 4, STRING, ""),
                field("inbound", 5, BOOL, ""),
                field("size", 6, UINT64, ""),
            ],
        ),
        message(
            "UnknownMessage",
            None,
            &[
                field("command", 1, STRING, ""),
                field("payload", 2, BYTES, ""),
            ],
        ),
        message("Ping", None, &[field("value", 1, UINT64, "")]),
        tally,
    ] {
        file.extend(bytes_field(4, &part));
    }
    file.extend(bytes_field(5, &conn_type));
    file.extend(bytes_field(12, b"proto2"));
    bytes_field(1, &file)
}

fn schema() -> Schema {
    Schema::new(&descriptor_set()).expect("descriptor set loads")
}

fn dynamic(name: &str) -> DynamicMessage {
    let pool = DescriptorPool::decode(descriptor_set().as_slice()).expect("a descriptor set");
    DynamicMessage::new(pool.get_message_by_name(name).expect("a message type"))
}

/// An event with one P2P message, whose arm is `arm`.
fn encoded_event(arm: &str, value: Value, command: &str) -> Vec<u8> {
    let mut meta = dynamic("event.Metadata");
    meta.set_field_by_name("peer_id", Value::U64(42));
    meta.set_field_by_name("addr", Value::String("10.0.0.1:8333".to_string()));
    meta.set_field_by_name("conn_type", Value::EnumNumber(3));
    meta.set_field_by_name("command", Value::String(command.to_string()));
    meta.set_field_by_name("inbound", Value::Bool(true));
    meta.set_field_by_name("size", Value::U64(99));
    let mut message = dynamic("event.MessageEvent");
    message.set_field_by_name("meta", Value::Message(meta));
    message.set_field_by_name(arm, value);
    let mut ebpf = dynamic("event.Ebpf");
    ebpf.set_field_by_name("message", Value::Message(message));
    let mut event = dynamic("event.Event");
    event.set_field_by_name("timestamp", Value::U64(1_700_000_000_123));
    event.set_field_by_name("ebpf_extractor", Value::Message(ebpf));
    event.encode_to_vec()
}

fn unknown(command: &str, payload: Vec<u8>) -> Value {
    let mut unknown = dynamic("event.UnknownMessage");
    unknown.set_field_by_name("command", Value::String(command.to_string()));
    unknown.set_field_by_name("payload", Value::Bytes(payload.into()));
    Value::Message(unknown)
}

/// What stands under a path of names.
fn at<'a>(json: &'a Json, path: &[&str]) -> Option<&'a Json> {
    let mut here = json;
    for name in path {
        let Json::Object(pairs) = here else {
            return None;
        };
        here = &pairs.iter().find(|(key, _)| key == name)?.1;
    }
    Some(here)
}

fn text(value: &str) -> Json {
    Json::Text(value.to_string())
}

#[test]
fn renders_field_names_and_nesting_from_the_schema() {
    let bytes = encoded_event("unknown", unknown("weird", vec![0xDE, 0xAD]), "weird");
    let json = schema().event_to_json(&bytes).expect("renders");

    assert_eq!(
        at(&json, &["timestamp"]),
        Some(&Json::Uint(1_700_000_000_123))
    );
    let meta = at(&json, &["ebpf_extractor", "message", "meta"]).expect("meta is there");
    assert_eq!(at(meta, &["peer_id"]), Some(&Json::Uint(42)));
    assert_eq!(at(meta, &["addr"]), Some(&text("10.0.0.1:8333")));
    assert_eq!(at(meta, &["inbound"]), Some(&Json::Bool(true)));
}

/// Hashes and payloads must be readable, so bytes render as hex rather than
/// protobuf-JSON's base64 or an array of numbers.
#[test]
fn bytes_fields_render_as_hex() {
    let bytes = encoded_event(
        "unknown",
        unknown("x", vec![0x00, 0xDE, 0xAD, 0xBE, 0xEF]),
        "x",
    );
    let json = schema().event_to_json(&bytes).expect("renders");

    assert_eq!(
        at(&json, &["ebpf_extractor", "message", "unknown", "payload"]),
        Some(&text("00deadbeef"))
    );
}

#[test]
fn enums_render_by_name() {
    let bytes = encoded_event("verack", Value::Bool(true), "verack");
    let json = schema().event_to_json(&bytes).expect("renders");

    assert_eq!(
        at(&json, &["ebpf_extractor", "message", "meta", "conn_type"]),
        Some(&text("BlockRelayOnly"))
    );
}

/// The oneof arm is rendered under its own field name, so the event type is
/// visible in the output rather than having to be inferred.
#[test]
fn oneof_arms_appear_by_name() {
    let bytes = encoded_event("verack", Value::Bool(true), "verack");
    let json = schema().event_to_json(&bytes).expect("renders");

    assert!(matches!(
        at(&json, &["ebpf_extractor", "message", "verack"]),
        Some(Json::Bool(_))
    ));
    assert!(
        at(&json, &["rpc_extractor"]).is_none(),
        "unset arms are absent"
    );
}

#[test]
fn a_u64_beyond_javascript_precision_becomes_a_string() {
    let mut ping = dynamic("event.Ping");
    ping.set_field_by_name("value", Value::U64(u64::MAX));
    let bytes = encoded_event("ping", Value::Message(ping), "ping");
    let json = schema().event_to_json(&bytes).expect("renders");

    assert_eq!(
        at(&json, &["ebpf_extractor", "message", "ping", "value"]),
        Some(&text(&u64::MAX.to_string()))
    );
}

#[test]
fn undecodable_bytes_report_an_error() {
    assert!(schema().event_to_json(&[0x08]).is_err());
}

#[test]
fn lists_maps_and_numbers_render_by_their_type() {
    let mut tally = dynamic("event.Tally");
    tally.set_field_by_name(
        "counts",
        Value::Map(
            [(-3, 7u64), (12, u64::MAX)]
                .into_iter()
                .map(|(key, value)| (MapKey::I32(key), Value::U64(value)))
                .collect(),
        ),
    );
    tally.set_field_by_name(
        "types",
        Value::List(vec![Value::EnumNumber(1), Value::EnumNumber(77)]),
    );
    tally.set_field_by_name("shift", Value::I64(-5));
    tally.set_field_by_name("ratio", Value::F64(0.25));
    tally.set_field_by_name("slot", Value::U32(4_000_000_000));
    tally.set_field_by_name("offset", Value::I32(-1));
    let mut event = dynamic("event.Event");
    event.set_field_by_name("timestamp", Value::U64(1));
    event.set_field_by_name("rpc_extractor", Value::Message(tally));

    let json = schema()
        .event_to_json(&event.encode_to_vec())
        .expect("renders");
    let rpc = at(&json, &["rpc_extractor"]).expect("the arm is there");
    assert_eq!(at(rpc, &["counts", "-3"]), Some(&Json::Uint(7)));
    assert_eq!(
        at(rpc, &["counts", "12"]),
        Some(&text("18446744073709551615"))
    );
    assert_eq!(
        at(rpc, &["types"]),
        Some(&Json::List(vec![text("Inbound"), text("(77)")])),
        "a number without a name is shown in brackets"
    );
    assert_eq!(at(rpc, &["shift"]), Some(&Json::Int(-5)));
    assert_eq!(at(rpc, &["ratio"]), Some(&Json::F64(0.25f64.to_bits())));
    assert_eq!(at(rpc, &["slot"]), Some(&Json::Uint(4_000_000_000)));
    assert_eq!(at(rpc, &["offset"]), Some(&Json::Int(-1)));
}

#[test]
fn a_schema_has_to_hold_the_event_message() {
    assert!(Schema::new(&[0xFF]).is_err());
    assert_eq!(
        Schema::new(&[]).err().as_deref(),
        Some("event.Event is missing from the descriptor set")
    );
}

#[test]
fn a_retained_event_is_shown_by_its_index() {
    let mut analysis = Analysis::new(1 << 20);
    let bytes = encoded_event("verack", Value::Bool(true), "verack");
    assert!(analysis.store.push(1, 0, NO_PEER, 0, 0, &bytes));
    assert!(analysis.store.push(2, 0, NO_PEER, 0, 0, &[0x08]));

    let schema = schema();
    let json = event_json(&analysis, &schema, 0).expect("renders");
    assert_eq!(
        at(&json, &["timestamp"]),
        Some(&Json::Uint(1_700_000_000_123))
    );
    let undecodable = event_json(&analysis, &schema, 1).expect_err("half a field");
    assert!(undecodable.starts_with("could not decode the event: "));
    assert_eq!(
        event_json(&analysis, &schema, 2),
        Err("event 2 was not retained".to_string())
    );
}

#[test]
fn scalars_render_at_their_limits() {
    assert_eq!(hex(&[]), "");
    assert_eq!(hex(&[0x0F, 0xF0]), "0ff0");
    assert_eq!(number(MAX_SAFE_INTEGER), Json::Uint(MAX_SAFE_INTEGER));
    assert_eq!(number(MAX_SAFE_INTEGER + 1), text("9007199254740992"));
    assert_eq!(
        signed_number(-(MAX_SAFE_INTEGER as i64)),
        Json::Int(-9_007_199_254_740_991)
    );
    assert_eq!(signed_number(i64::MIN), text("-9223372036854775808"));
    assert_eq!(map_key_to_string(&Key::Bool(true)), "true");
    assert_eq!(map_key_to_string(&Key::I64(-2)), "-2");
    assert_eq!(map_key_to_string(&Key::Text("a".to_string())), "a");
    assert_eq!(variant_to_json(3, None), Json::Int(3));
    assert_eq!(variant_to_json(3, Some(None)), text("(3)"));
    assert_eq!(
        variant_to_json(3, Some(Some("Named".to_string()))),
        text("Named")
    );
}
