//! Protobuf messages that are read by their descriptors.
//!
//! What prost-reflect makes of bytes is modelled as what it holds: the fields that
//! are set, by their names.

use prost::Message;
use prost_reflect::prost_types::{DescriptorProto, FileDescriptorSet};
use prost_reflect::{Cardinality, DescriptorPool, DynamicMessage, MapKey, MessageDescriptor, Value};
use std::borrow::Cow;
use vstd::prelude::*;

verus! {

/// A key of a protobuf map.
#[derive(Debug, PartialEq, Eq)]
pub enum Key {
    Bool(bool),
    I32(i32),
    I64(i64),
    U32(u32),
    U64(u64),
    Text(String),
}

/// A key of a protobuf map.
pub enum RawKey {
    Bool(bool),
    I32(i32),
    I64(i64),
    U32(u32),
    U64(u64),
    Text(Seq<char>),
}

impl View for Key {
    type V = RawKey;

    open spec fn view(&self) -> RawKey {
        match self {
            Key::Bool(v) => RawKey::Bool(*v),
            Key::I32(v) => RawKey::I32(*v),
            Key::I64(v) => RawKey::I64(*v),
            Key::U32(v) => RawKey::U32(*v),
            Key::U64(v) => RawKey::U64(*v),
            Key::Text(v) => RawKey::Text(v@),
        }
    }
}

/// What a field's type says about the values it can have.
pub enum Sort {
    /// An enum, with the names of its numbers.
    Enum(Map<i32, Seq<char>>),
    /// The entries of a map, with what its values can be.
    Entry(Box<Sort>),
    /// Nothing that matters here.
    Plain,
}

/// What a protobuf value holds.
pub enum Raw {
    Bool(bool),
    I32(i32),
    I64(i64),
    U32(u32),
    U64(u64),
    /// A float, as its bits.
    F32(u32),
    /// A double, as its bits.
    F64(u64),
    Text(Seq<char>),
    Bytes(Seq<u8>),
    Enum(i32),
    /// The fields that are set: their names, what they can be, what they hold.
    Message(Seq<(Seq<char>, Sort, Raw)>),
    List(Seq<Raw>),
    /// The entries, in no order that means anything.
    Entries(Seq<(RawKey, Raw)>),
}

/// A set of protobuf descriptors.
#[verifier::external_type_specification]
#[verifier::external_body]
pub struct ExDescriptorPool(DescriptorPool);

/// The descriptor of one message type.
#[verifier::external_type_specification]
#[verifier::external_body]
pub struct ExMessageDescriptor(MessageDescriptor);

/// A message decoded against its descriptor.
#[verifier::external_type_specification]
#[verifier::external_body]
pub struct ExDynamicMessage(DynamicMessage);

/// A value in such a message.
#[verifier::external_type_specification]
#[verifier::external_body]
pub struct ExValue(Value);

/// The type of a field.
#[verifier::external_type_specification]
#[verifier::external_body]
pub struct ExKind(prost_reflect::Kind);

/// A key of a map in such a message.
#[verifier::external_type_specification]
#[verifier::external_body]
pub struct ExMapKey(MapKey);

/// The definition of a message type.
#[verifier::external_type_specification]
#[verifier::external_body]
pub struct ExDescriptorProto(DescriptorProto);

/// The descriptor set a pool was read from.
pub uninterp spec fn pool_source(pool: DescriptorPool) -> Seq<u8>;

/// The descriptor set a message type was found in, and its name there.
pub uninterp spec fn message_source(descriptor: MessageDescriptor) -> (Seq<u8>, Seq<char>);

/// The fields set in a message, in the order of their numbers.
pub uninterp spec fn contents(message: DynamicMessage) -> Seq<(Seq<char>, Sort, Raw)>;

/// What a value holds.
pub uninterp spec fn held(value: Value) -> Raw;

/// The type of a message: the descriptor set it is from, and its name there.
pub uninterp spec fn type_of(message: DynamicMessage) -> (Seq<u8>, Seq<char>);

/// How deep messages stand in each other in a message, whether or not its type has
/// the fields they stand in.
pub uninterp spec fn nesting(message: DynamicMessage) -> nat;

/// How deep messages can stand in each other for prost to read them.
pub const DEEPEST: u32 = 100;

/// The names of an enum type's numbers. `None` for a type that is no enum.
pub uninterp spec fn enum_names(kind: prost_reflect::Kind) -> Option<Map<i32, Seq<char>>>;

/// Whether a type is that of a map's entries.
pub uninterp spec fn is_entry(kind: prost_reflect::Kind) -> bool;

/// The type of the second field of a message type, if it is one that has it.
pub uninterp spec fn second_kind(kind: prost_reflect::Kind) -> Option<prost_reflect::Kind>;

/// Whether a type is that of a map's entries, and they have values.
pub open spec fn maps(kind: prost_reflect::Kind) -> bool {
    is_entry(kind) && second_kind(kind) is Some
}

/// What a type says about its values, where they stand in a map. A map cannot stand
/// in another.
pub open spec fn inner_sort(kind: prost_reflect::Kind) -> Sort {
    match enum_names(kind) {
        Some(names) if !maps(kind) => Sort::Enum(names),
        _ => Sort::Plain,
    }
}

/// What a type says about its values.
pub open spec fn sort_of(kind: prost_reflect::Kind) -> Sort {
    if maps(kind) {
        Sort::Entry(Box::new(inner_sort(second_kind(kind)->0)))
    } else {
        inner_sort(kind)
    }
}

/// Whether a key can be one of a map whose keys are of a type.
pub uninterp spec fn key_fits(kind: prost_reflect::Kind, key: RawKey) -> bool;

/// What a key is.
pub uninterp spec fn key_of(key: MapKey) -> RawKey;

/// What is wrong with a descriptor set, in prost-reflect's words. `None` if nothing
/// is.
pub uninterp spec fn refused(set: Seq<u8>) -> Option<Seq<char>>;

/// Whether a descriptor set has a message type of this name.
pub uninterp spec fn has_message(set: Seq<u8>, name: Seq<char>) -> bool;

/// The fields that bytes set in a message of a type, by its descriptor set and name,
/// or what is wrong with the bytes, in prost's words.
pub uninterp spec fn decoded(set: Seq<u8>, name: Seq<char>, bytes: Seq<u8>) -> Result<
    Seq<(Seq<char>, Sort, Raw)>,
    Seq<char>,
>;

/// A file of a descriptor set.
pub struct FileOutline {
    pub name: String,
    pub package: String,
    /// Which syntax it is written in, if it says so.
    pub syntax: Option<String>,
    /// The files it imports, by name.
    pub imports: Vec<String>,
    /// Which of those count as imported by whoever imports this one.
    pub public_imports: Vec<i32>,
    /// The messages defined in it that are in no other message.
    pub messages: Vec<DescriptorProto>,
    /// What the extensions in it that are in no message hold by default.
    pub defaults: Vec<String>,
}

/// A file of a descriptor set.
pub struct FileShape {
    pub name: Seq<char>,
    pub package: Seq<char>,
    pub syntax: Option<Seq<char>>,
    pub imports: Seq<Seq<char>>,
    pub public_imports: Seq<i32>,
    pub messages: Seq<DescriptorProto>,
    pub defaults: Seq<Seq<char>>,
}

/// Texts, as what they hold.
pub open spec fn texts(list: Seq<String>) -> Seq<Seq<char>> {
    Seq::new(list.len(), |i: int| list[i]@)
}

impl View for FileOutline {
    type V = FileShape;

    open spec fn view(&self) -> FileShape {
        FileShape {
            name: self.name@,
            package: self.package@,
            syntax: match self.syntax {
                Some(syntax) => Some(syntax@),
                None => None,
            },
            imports: texts(self.imports@),
            public_imports: self.public_imports@,
            messages: self.messages@,
            defaults: texts(self.defaults@),
        }
    }
}

/// Files, as what they hold.
pub open spec fn shapes(files: Seq<FileOutline>) -> Seq<FileShape> {
    Seq::new(files.len(), |i: int| files[i]@)
}

/// The files of a descriptor set, or what is wrong with its bytes, in prost's words.
pub uninterp spec fn files_in(set: Seq<u8>) -> Result<Seq<FileShape>, Seq<char>>;

/// `FileDescriptorSet::decode`: the files of a descriptor set, or what is wrong with
/// its bytes.
#[verifier::external_body]
pub(crate) fn read_files(set: &[u8]) -> (files: Result<Vec<FileOutline>, String>)
    ensures
        match files {
            Ok(files) => files_in(set@) == Ok::<_, Seq<char>>(shapes(files@)),
            Err(words) => files_in(set@) == Err::<Seq<FileShape>, _>(words@),
        },
{
    let set = FileDescriptorSet::decode(set).map_err(|error| error.to_string())?;
    Ok(
        set.file.iter().map(
            |file|
                FileOutline {
                    name: file.name().to_string(),
                    package: file.package().to_string(),
                    syntax: file.syntax.clone(),
                    imports: file.dependency.clone(),
                    public_imports: file.public_dependency.clone(),
                    messages: file.message_type.clone(),
                    defaults: file.extension.iter().map(|item| item.default_value().to_string()).collect(),
                },
        ).collect(),
    )
}

/// Whether a file counts as importing whatever another one does.
pub open spec fn passes_on(files: Seq<FileShape>, i: int, j: int) -> bool {
    exists|k: int| #[trigger] passes_on_at(files, i, j, k)
}

/// Whether a file does so by one of its imports.
pub open spec fn passes_on_at(files: Seq<FileShape>, i: int, j: int, k: int) -> bool {
    &&& 0 <= k < files[i].imports.len()
    &&& files[i].public_imports.contains(k as i32)
    &&& files[i].imports[k] == files[j].name
}

/// Whether these are levels on which every file stands above those it passes on.
pub open spec fn layered(files: Seq<FileShape>, levels: Seq<nat>) -> bool {
    &&& levels.len() == files.len()
    &&& forall|i: int, j: int|
        0 <= i < files.len() && 0 <= j < files.len() && #[trigger] passes_on(files, i, j)
            ==> levels[j] < levels[i]
}

/// Whether public imports lead round in a circle.
pub open spec fn circular(files: Seq<FileShape>) -> bool {
    forall|levels: Seq<nat>| !(#[trigger] layered(files, levels))
}

/// How many public imports a set can have.
pub const MOST_PUBLIC_IMPORTS: usize = 32;

/// How many public imports the first `upto` files have.
pub open spec fn public_imports(files: Seq<FileShape>, upto: int) -> nat
    decreases upto,
{
    if upto <= 0 {
        0
    } else {
        public_imports(files, upto - 1) + files[upto - 1].public_imports.len()
    }
}

/// Whether a set has more public imports than can be followed: the ways that lead along
/// them soon are many more than they are.
pub open spec fn entangled(files: Seq<FileShape>) -> bool {
    public_imports(files, files.len() as int) > MOST_PUBLIC_IMPORTS
}

/// The definition of a message type.
pub struct MessageOutline {
    pub name: String,
    /// What its fields, and the extensions in it, hold by default.
    pub defaults: Vec<String>,
    /// The messages defined in it.
    pub nested: Vec<DescriptorProto>,
}

/// The definition of a message type.
pub struct MessageShape {
    pub name: Seq<char>,
    pub defaults: Seq<Seq<char>>,
    pub nested: Seq<DescriptorProto>,
}

impl View for MessageOutline {
    type V = MessageShape;

    open spec fn view(&self) -> MessageShape {
        MessageShape {
            name: self.name@,
            defaults: texts(self.defaults@),
            nested: self.nested@,
        }
    }
}

/// What is in the definition of a message type.
pub uninterp spec fn definition(message: DescriptorProto) -> MessageShape;

/// The fields of `prost_types::DescriptorProto`: what is in the definition of a message
/// type.
#[verifier::external_body]
pub(crate) fn outline_of(message: &DescriptorProto) -> (outline: MessageOutline)
    ensures
        outline@ == definition(*message),
{
    MessageOutline {
        name: message.name().to_string(),
        defaults: message.field.iter().chain(message.extension.iter()).map(
            |field| field.default_value().to_string(),
        ).collect(),
        nested: message.nested_type.clone(),
    }
}

/// The full name of what is defined in a scope.
pub open spec fn full_name(scope: Seq<char>, name: Seq<char>) -> Seq<char> {
    if scope.len() == 0 {
        name
    } else {
        scope + "."@ + name
    }
}

/// Whether a name is that of one of the messages in which descriptors keep their
/// options.
pub open spec fn is_reserved(name: Seq<char>) -> bool {
    ||| name == "google.protobuf.FileOptions"@
    ||| name == "google.protobuf.MessageOptions"@
    ||| name == "google.protobuf.FieldOptions"@
    ||| name == "google.protobuf.OneofOptions"@
    ||| name == "google.protobuf.EnumOptions"@
    ||| name == "google.protobuf.EnumValueOptions"@
    ||| name == "google.protobuf.ServiceOptions"@
    ||| name == "google.protobuf.MethodOptions"@
    ||| name == "google.protobuf.ExtensionRangeOptions"@
}

/// Whether a message type, or one defined in it down to a depth, is one in which
/// descriptors keep their options.
pub open spec fn keeps_options(message: DescriptorProto, scope: Seq<char>, depth: nat) -> bool
    decreases depth,
{
    let shape = definition(message);
    let name = full_name(scope, shape.name);
    ||| is_reserved(name)
    ||| depth > 0 && exists|i: int|
        0 <= i < shape.nested.len() && keeps_options(
            #[trigger] shape.nested[i],
            name,
            (depth - 1) as nat,
        )
}

/// Whether a set brings its own definition of what descriptors keep their options in.
pub open spec fn redefines_options(files: Seq<FileShape>) -> bool {
    exists|i: int, j: int|
        0 <= i < files.len() && 0 <= j < files[i].messages.len() && #[trigger] keeps_options(
            files[i].messages[j],
            files[i].package,
            DEEPEST as nat,
        )
}

/// Whether a file is written in a syntax that has descriptors here.
pub open spec fn known_syntax(syntax: Option<Seq<char>>) -> bool {
    match syntax {
        Some(syntax) => syntax == "proto2"@ || syntax == "proto3"@,
        None => true,
    }
}

/// Whether every file is.
pub open spec fn syntax_known(files: Seq<FileShape>) -> bool {
    forall|i: int| 0 <= i < files.len() ==> known_syntax((#[trigger] files[i]).syntax)
}

/// A digit of a number in octal.
pub open spec fn is_octal(c: char) -> bool {
    '0' <= c <= '7'
}

/// Whether what follows a backslash is a number in octal that is more than a byte, or an
/// `x` with something close behind it that is no hex digit in any case.
pub open spec fn misread(text: Seq<char>, at: int) -> bool {
    ||| at + 2 < text.len() && '4' <= text[at] <= '7' && is_octal(text[at + 1]) && is_octal(
        text[at + 2],
    )
    ||| at < text.len() && (text[at] == 'x' || text[at] == 'X') && {
        ||| at + 1 < text.len() && text[at + 1] > '\u{7f}'
        ||| at + 2 < text.len() && text[at + 2] > '\u{7f}'
    }
}

/// Whether a backslash in a text is followed by what cannot be read.
pub open spec fn garbled(text: Seq<char>) -> bool {
    exists|i: int| 0 <= i < text.len() && #[trigger] text[i] == '\\' && misread(text, i + 1)
}

/// Whether one of some texts is garbled.
pub open spec fn any_garbled(texts: Seq<Seq<char>>) -> bool {
    exists|i: int| 0 <= i < texts.len() && garbled(#[trigger] texts[i])
}

/// Whether something in a message type, or in one defined in it down to a depth, holds
/// a garbled text by default.
pub open spec fn holds_garbled(message: DescriptorProto, depth: nat) -> bool
    decreases depth,
{
    let shape = definition(message);
    ||| any_garbled(shape.defaults)
    ||| depth > 0 && exists|i: int|
        0 <= i < shape.nested.len() && holds_garbled(
            #[trigger] shape.nested[i],
            (depth - 1) as nat,
        )
}

/// Whether something in a file holds a garbled text by default.
pub open spec fn file_garbled(file: FileShape) -> bool {
    ||| any_garbled(file.defaults)
    ||| exists|j: int|
        0 <= j < file.messages.len() && #[trigger] holds_garbled(file.messages[j], DEEPEST as nat)
}

/// Whether something in a set does.
pub open spec fn defaults_garbled(files: Seq<FileShape>) -> bool {
    exists|i: int| 0 <= i < files.len() && file_garbled(#[trigger] files[i])
}

/// Whether the files of a set can be linked to each other.
pub open spec fn linkable(set: Seq<u8>) -> bool {
    &&& files_in(set) matches Ok(files)
    &&& !circular(files)
    &&& !entangled(files)
    &&& syntax_known(files)
    &&& !redefines_options(files)
    &&& !defaults_garbled(files)
}

/// `DescriptorPool::decode`: reads a descriptor set, or says what is wrong with it.
///
/// It follows public imports without looking out for circles, and along every way there
/// is; it cannot say that it does not know a file's syntax; it reads options by the set's
/// own definition of them if there is one; and it trips over some escapes in the bytes a
/// field holds by default. Such sets are left out. Messages are never defined deeper in
/// each other than prost reads them.
#[verifier::external_body]
pub(crate) fn read_pool(set: &[u8]) -> (pool: Result<DescriptorPool, String>)
    requires
        linkable(set@),
    ensures
        match pool {
            Ok(pool) => refused(set@) is None && pool_source(pool) == set@,
            Err(words) => refused(set@) == Some(words@),
        },
{
    DescriptorPool::decode(set).map_err(|error| error.to_string())
}

/// A field of a message type.
pub struct SlotOutline {
    /// Whether it holds any number of values.
    pub repeated: bool,
    /// Whether holding nothing differs from not being set.
    pub presence: bool,
}

/// A message type.
pub struct TypeOutline {
    /// Whether it is that of a map's entries.
    pub entry: bool,
    /// The types of its first two fields, by their numbers.
    pub first: Option<prost_reflect::Kind>,
    pub second: Option<prost_reflect::Kind>,
    pub slots: Vec<SlotOutline>,
}

/// A message type.
pub struct TypeShape {
    pub entry: bool,
    pub first: Option<prost_reflect::Kind>,
    pub second: Option<prost_reflect::Kind>,
    pub slots: Seq<SlotOutline>,
}

impl View for TypeOutline {
    type V = TypeShape;

    open spec fn view(&self) -> TypeShape {
        TypeShape {
            entry: self.entry,
            first: self.first,
            second: self.second,
            slots: self.slots@,
        }
    }
}

/// The message types of a descriptor set.
pub uninterp spec fn types_in(set: Seq<u8>) -> Seq<TypeShape>;

/// `DescriptorPool::all_messages`: the message types of a descriptor set, those that
/// are defined in others included.
#[verifier::external_body]
pub(crate) fn types_of(pool: &DescriptorPool) -> (types: Vec<TypeOutline>)
    ensures
        types_in(pool_source(*pool)) == Seq::new(types@.len(), |i: int| types@[i]@),
{
    pool.all_messages().map(
        |message|
            TypeOutline {
                entry: message.is_map_entry(),
                first: message.get_field(1).map(|field| field.kind()),
                second: message.get_field(2).map(|field| field.kind()),
                slots: message.fields().map(
                    |field|
                        SlotOutline {
                            repeated: field.cardinality() == Cardinality::Repeated,
                            presence: field.supports_presence(),
                        },
                ).collect(),
            },
    ).collect()
}

/// `MapKey::is_valid`: whether a key can be one of a map whose keys are of a type.
#[verifier::external_body]
pub(crate) fn takes_key(kind: &prost_reflect::Kind, key: Key) -> (yes: bool)
    ensures
        yes == key_fits(*kind, key@),
{
    let key = match key {
        Key::Bool(v) => MapKey::Bool(v),
        Key::I32(v) => MapKey::I32(v),
        Key::I64(v) => MapKey::I64(v),
        Key::U32(v) => MapKey::U32(v),
        Key::U64(v) => MapKey::U64(v),
        Key::Text(v) => MapKey::String(v),
    };
    key.is_valid(kind)
}

/// Whether some key can be one of a map whose keys are of a type.
pub open spec fn keys_a_map(kind: prost_reflect::Kind) -> bool {
    ||| key_fits(kind, RawKey::Bool(false))
    ||| key_fits(kind, RawKey::I32(0))
    ||| key_fits(kind, RawKey::I64(0))
    ||| key_fits(kind, RawKey::U32(0))
    ||| key_fits(kind, RawKey::U64(0))
    ||| key_fits(kind, RawKey::Text(""@))
}

/// Whether a message type is one that protobuf has: the entries of a map have a key
/// and a value, and a field of any number of values has no presence.
pub open spec fn well_made(shape: TypeShape) -> bool {
    &&& shape.entry ==> (shape.first matches Some(kind) && keys_a_map(kind)) && shape.second is Some
    &&& forall|i: int|
        0 <= i < shape.slots.len() ==> !((#[trigger] shape.slots[i]).repeated
            && shape.slots[i].presence)
}

/// Whether every message type of a descriptor set is one that protobuf has.
pub open spec fn sound(set: Seq<u8>) -> bool {
    forall|i: int| 0 <= i < types_in(set).len() ==> well_made(#[trigger] types_in(set)[i])
}

/// `DescriptorPool::get_message_by_name`: the descriptor of a message type, if the
/// set has one of that name.
#[verifier::external_body]
pub(crate) fn find_message(pool: &DescriptorPool, name: &str) -> (found: Option<MessageDescriptor>)
    ensures
        found is Some <==> has_message(pool_source(*pool), name@),
        found matches Some(descriptor) ==> message_source(descriptor) == (
            pool_source(*pool),
            name@,
        ),
{
    pool.get_message_by_name(name)
}

/// `DynamicMessage::decode`: decodes bytes as a message, or says what is wrong with
/// them. A map whose entries have no key or no value cannot be decoded.
#[verifier::external_body]
pub(crate) fn decode_message(descriptor: &MessageDescriptor, bytes: &[u8]) -> (message: Result<
    DynamicMessage,
    String,
>)
    requires
        sound(message_source(*descriptor).0),
    ensures
        ({
            let (set, name) = message_source(*descriptor);
            match message {
                Ok(message) => {
                    &&& decoded(set, name, bytes@) == Ok::<_, Seq<char>>(contents(message))
                    &&& type_of(message) == (set, name)
                    &&& nesting(message) <= DEEPEST
                },
                Err(words) => decoded(set, name, bytes@) == Err::<Seq<(Seq<char>, Sort, Raw)>, _>(
                    words@,
                ),
            }
        }),
{
    DynamicMessage::decode(descriptor.clone(), bytes).map_err(|error| error.to_string())
}

/// A field that is set.
pub struct Field {
    pub name: String,
    pub kind: prost_reflect::Kind,
    pub value: Value,
}

/// `DynamicMessage::fields`: the fields that are set, with their names and types.
#[verifier::external_body]
pub(crate) fn fields_of(message: &DynamicMessage) -> (fields: Vec<Field>)
    ensures
        fields@.len() == contents(*message).len(),
        forall|i: int|
            0 <= i < fields@.len() ==> contents(*message)[i] == (
                (#[trigger] fields@[i]).name@,
                sort_of(fields@[i].kind),
                held(fields@[i].value),
            ),
{
    message.fields().map(
        |(field, value)|
            Field {
                name: field.name().to_string(),
                kind: field.kind(),
                value: value.clone(),
            },
    ).collect()
}

/// What a value holds, if it is no message, list or map.
pub enum Scalar {
    Bool(bool),
    I32(i32),
    I64(i64),
    U32(u32),
    U64(u64),
    F32(u32),
    F64(u64),
    Text(String),
    Bytes(Vec<u8>),
    Enum(i32),
}

impl Scalar {
    pub open spec fn raw(&self) -> Raw {
        match self {
            Scalar::Bool(v) => Raw::Bool(*v),
            Scalar::I32(v) => Raw::I32(*v),
            Scalar::I64(v) => Raw::I64(*v),
            Scalar::U32(v) => Raw::U32(*v),
            Scalar::U64(v) => Raw::U64(*v),
            Scalar::F32(v) => Raw::F32(*v),
            Scalar::F64(v) => Raw::F64(*v),
            Scalar::Text(v) => Raw::Text(v@),
            Scalar::Bytes(v) => Raw::Bytes(v@),
            Scalar::Enum(v) => Raw::Enum(*v),
        }
    }
}

/// The variants of `prost_reflect::Value` that hold no other values.
#[verifier::external_body]
pub(crate) fn scalar_in(value: &Value) -> (scalar: Option<Scalar>)
    ensures
        match scalar {
            Some(scalar) => held(*value) == scalar.raw(),
            None => held(*value) is Message || held(*value) is List || held(*value) is Entries,
        },
{
    match value.clone() {
        Value::Bool(v) => Some(Scalar::Bool(v)),
        Value::I32(v) => Some(Scalar::I32(v)),
        Value::I64(v) => Some(Scalar::I64(v)),
        Value::U32(v) => Some(Scalar::U32(v)),
        Value::U64(v) => Some(Scalar::U64(v)),
        Value::F32(v) => Some(Scalar::F32(v.to_bits())),
        Value::F64(v) => Some(Scalar::F64(v.to_bits())),
        Value::String(v) => Some(Scalar::Text(v)),
        Value::Bytes(v) => Some(Scalar::Bytes(v.to_vec())),
        Value::EnumNumber(v) => Some(Scalar::Enum(v)),
        _ => None,
    }
}

/// `Value::as_message`: the message a value is, if it is one.
#[verifier::external_body]
pub(crate) fn message_in(value: &Value) -> (message: Option<&DynamicMessage>)
    ensures
        message is Some <==> held(*value) is Message,
        message matches Some(message) ==> held(*value) == Raw::Message(contents(*message)),
{
    value.as_message()
}

/// `Value::as_list`: the values in a list, if a value is one.
#[verifier::external_body]
pub(crate) fn list_in(value: &Value) -> (list: Option<&[Value]>)
    ensures
        list is Some <==> held(*value) is List,
        list matches Some(list) ==> held(*value) == Raw::List(
            Seq::new(list@.len(), |i: int| held(list@[i])),
        ),
{
    value.as_list()
}

/// Whether these are the places `0..len`, each once, in some order.
pub open spec fn is_rearrangement(places: Seq<int>, len: int) -> bool {
    &&& places.len() == len
    &&& places.no_duplicates()
    &&& forall|i: int| 0 <= i < len ==> 0 <= #[trigger] places[i] < len
}

/// Whether a sequence is another in whatever order.
pub open spec fn rearranges<T>(a: Seq<T>, b: Seq<T>) -> bool {
    &&& a.len() == b.len()
    &&& exists|places: Seq<int>| #[trigger]
        is_rearrangement(places, b.len() as int) && forall|i: int|
            0 <= i < a.len() ==> #[trigger] a[i] == b[places[i]]
}

/// What counts of a value in a map. There, a zero has no sign: it is not written, and
/// so not read, whichever it has.
pub open spec fn in_map(raw: Raw) -> Raw {
    match raw {
        Raw::F32(bits) if bits == NEGATIVE_ZERO_32 => Raw::F32(0),
        Raw::F64(bits) if bits == NEGATIVE_ZERO_64 => Raw::F64(0),
        other => other,
    }
}

/// The bits of a float that is zero and negative.
pub const NEGATIVE_ZERO_32: u32 = 0x8000_0000;

/// The bits of a double that is zero and negative.
pub const NEGATIVE_ZERO_64: u64 = 0x8000_0000_0000_0000;

/// Entries, as what they hold.
pub open spec fn as_entries(entries: Seq<(MapKey, Value)>) -> Seq<(RawKey, Raw)> {
    Seq::new(entries.len(), |i: int| (key_of(entries[i].0), in_map(held(entries[i].1))))
}

/// `Value::as_map`: the entries of a map, if a value is one, in whatever order the
/// map hands them out. Which sign a zero among the values has is left open.
#[verifier::external_body]
pub(crate) fn entries_in(value: &Value) -> (entries: Option<Vec<(MapKey, Value)>>)
    ensures
        entries is Some <==> held(*value) is Entries,
        entries matches Some(entries) ==> held(*value) matches Raw::Entries(raw) && rearranges(
            as_entries(entries@),
            raw,
        ),
{
    value.as_map().map(|map| map.iter().map(|(key, item)| (key.clone(), item.clone())).collect())
}

/// The variants of `prost_reflect::MapKey`.
#[verifier::external_body]
pub(crate) fn key_in(key: &MapKey) -> (found: Key)
    ensures
        found@ == key_of(*key),
{
    match key.clone() {
        MapKey::Bool(v) => Key::Bool(v),
        MapKey::I32(v) => Key::I32(v),
        MapKey::I64(v) => Key::I64(v),
        MapKey::U32(v) => Key::U32(v),
        MapKey::U64(v) => Key::U64(v),
        MapKey::String(v) => Key::Text(v),
    }
}

/// `EnumDescriptor::get_value`: the name of a number, if the enum has one for it.
/// `None` for a type that is no enum. The entries of a map are no enum.
#[verifier::external_body]
pub(crate) fn enum_name(kind: &prost_reflect::Kind, number: i32) -> (name: Option<Option<String>>)
    ensures
        match (enum_names(*kind), name) {
            (Some(names), Some(Some(name))) => names.dom().contains(number) && name@
                == names[number],
            (Some(names), Some(None)) => !names.dom().contains(number),
            (None, None) => true,
            _ => false,
        },
        name is Some ==> !is_entry(*kind),
{
    match kind {
        prost_reflect::Kind::Enum(names) => Some(names.get_value(number).map(|value| value.name().to_string())),
        _ => None,
    }
}

/// `MessageDescriptor::is_map_entry`: whether a type is that of a map's entries.
#[verifier::external_body]
pub(crate) fn is_map_entry(kind: &prost_reflect::Kind) -> (yes: bool)
    ensures
        yes == is_entry(*kind),
{
    kind.as_message().is_some_and(|message| message.is_map_entry())
}

/// `MessageDescriptor::get_field`, of the field with the number of a map's values: the
/// type of that field, if a type is a message that has it.
#[verifier::external_body]
pub(crate) fn second_of(kind: &prost_reflect::Kind) -> (found: Option<prost_reflect::Kind>)
    ensures
        found == second_kind(*kind),
{
    kind.as_message().and_then(|message| message.get_field(2)).map(|field| field.kind())
}

/// What the values of a map can be.
pub open spec fn item_sort(sort: Sort) -> Sort {
    match sort {
        Sort::Entry(item) => *item,
        other => other,
    }
}

/// What the first field of this name holds, from `from` on, if one is set.
pub open spec fn lookup_from(
    fields: Seq<(Seq<char>, Sort, Raw)>,
    name: Seq<char>,
    from: int,
) -> Option<Raw>
    decreases fields.len() - from,
{
    if from >= fields.len() {
        None
    } else if fields[from].0 == name {
        Some(fields[from].2)
    } else {
        lookup_from(fields, name, from + 1)
    }
}

/// What the field of this name holds, if it is set. No two fields of a message have
/// the same name.
pub open spec fn lookup(fields: Seq<(Seq<char>, Sort, Raw)>, name: Seq<char>) -> Option<Raw> {
    lookup_from(fields, name, 0)
}

/// `DynamicMessage::has_field_by_name`: whether the field of this name is set. A name
/// the message does not have is never set.
pub assume_specification[ DynamicMessage::has_field_by_name ](
    message: &DynamicMessage,
    name: &str,
) -> (yes: bool)
    ensures
        yes == (lookup(contents(*message), name@) is Some),
;

/// `DynamicMessage::get_field_by_name`: what the field of this name holds, if it is
/// set. Of a field that is not, nothing is stated.
#[verifier::external_body]
pub(crate) fn field_in<'a>(message: &'a DynamicMessage, name: &str) -> (value: Option<&'a Value>)
    ensures
        lookup(contents(*message), name@) matches Some(raw) ==> (value matches Some(value) && held(
            *value,
        ) == raw),
{
    match message.get_field_by_name(name) {
        Some(Cow::Borrowed(value)) => Some(value),
        _ => None,
    }
}

/// The fields without those of a name.
pub open spec fn without(
    fields: Seq<(Seq<char>, Sort, Raw)>,
    name: Seq<char>,
) -> Seq<(Seq<char>, Sort, Raw)>
    decreases fields.len(),
{
    if fields.len() == 0 {
        fields
    } else {
        let front = without(fields.drop_last(), name);
        if fields.last().0 == name {
            front
        } else {
            front.push(fields.last())
        }
    }
}

/// The fields with something else in those of a name.
pub open spec fn with_field(
    fields: Seq<(Seq<char>, Sort, Raw)>,
    name: Seq<char>,
    raw: Raw,
) -> Seq<(Seq<char>, Sort, Raw)> {
    Seq::new(
        fields.len(),
        |i: int|
            if fields[i].0 == name {
                (fields[i].0, fields[i].1, raw)
            } else {
                fields[i]
            },
    )
}

/// `DynamicMessage::clear_field_by_name`: the field of this name is no longer set.
pub assume_specification[ DynamicMessage::clear_field_by_name ](
    message: &mut DynamicMessage,
    name: &str,
)
    ensures
        contents(*final(message)) == without(contents(*old(message)), name@),
        type_of(*final(message)) == type_of(*old(message)),
        nesting(*final(message)) <= nesting(*old(message)),
;

/// Whether what became of a message can stand where the message stood.
pub open spec fn may_replace(before: DynamicMessage, after: DynamicMessage) -> bool {
    type_of(after) == type_of(before) && nesting(after) <= nesting(before)
}

/// `DynamicMessage::get_field_by_name_mut`, for a message in a field. A field of a
/// message is set whatever the message holds. Nothing is stated of a message that
/// another type or a deeper one is put into.
#[verifier::external_body]
pub(crate) fn message_in_mut<'a>(
    message: &'a mut DynamicMessage,
    name: &str,
) -> (inner: &'a mut DynamicMessage)
    requires
        lookup(contents(*old(message)), name@) matches Some(raw) && raw is Message,
    ensures
        lookup(contents(*old(message)), name@) == Some(Raw::Message(contents(*inner))),
        may_replace(*inner, *final(inner)) ==> {
            &&& contents(*final(message)) == with_field(
                contents(*old(message)),
                name@,
                Raw::Message(contents(*final(inner))),
            )
            &&& may_replace(*old(message), *final(message))
        },
{
    message.get_field_by_name_mut(name).unwrap().as_message_mut().unwrap()
}

/// `Value::as_list_mut`, for a message in a list in a field. A list that is not empty
/// is set.
#[verifier::external_body]
pub(crate) fn listed_mut<'a>(
    message: &'a mut DynamicMessage,
    name: &str,
    at: usize,
) -> (inner: &'a mut DynamicMessage)
    requires
        lookup(contents(*old(message)), name@) matches Some(Raw::List(items)) && at < items.len()
            && items[at as int] is Message,
    ensures
        lookup(contents(*old(message)), name@)->0->List_0[at as int] == Raw::Message(
            contents(*inner),
        ),
        may_replace(*inner, *final(inner)) ==> {
            &&& contents(*final(message)) == with_field(
                contents(*old(message)),
                name@,
                Raw::List(
                    lookup(contents(*old(message)), name@)->0->List_0.update(
                        at as int,
                        Raw::Message(contents(*final(inner))),
                    ),
                ),
            )
            &&& may_replace(*old(message), *final(message))
        },
{
    let list = message.get_field_by_name_mut(name).unwrap().as_list_mut().unwrap();
    list[at].as_message_mut().unwrap()
}

/// Whether bytes are decoded as a message of a type with these fields.
pub open spec fn reads_as(
    bytes: Seq<u8>,
    kind: (Seq<u8>, Seq<char>),
    fields: Seq<(Seq<char>, Sort, Raw)>,
) -> bool {
    decoded(kind.0, kind.1, bytes) == Ok::<_, Seq<char>>(fields)
}

/// `Message::encode_to_vec`: bytes from which the same message is decoded again, as
/// long as its type is one that protobuf has and messages do not stand too deep in it.
#[verifier::external_body]
pub(crate) fn encode_message(message: &DynamicMessage) -> (bytes: Vec<u8>)
    requires
        sound(type_of(*message).0),
        nesting(*message) <= DEEPEST,
    ensures
        reads_as(bytes@, type_of(*message), contents(*message)),
{
    message.encode_to_vec()
}

} // verus!
