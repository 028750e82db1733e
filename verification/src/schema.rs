//! Descriptor sets that a schema can be read from.
//!
//! What the protobuf compiler writes for the second and third syntax is one, as long as
//! the definition of options is not among it. Anything else may not be: files of a later
//! syntax, files whose public imports lead round in a circle, maps whose entries have no
//! key. Such sets are told apart before anything is decoded by them.

use crate::reflect;
use crate::reflect::{
    outline_of, read_files, read_pool, takes_key, types_of, FileOutline, FileShape, Key,
    TypeOutline,
};
use crate::text;
use prost_reflect::prost_types::DescriptorProto;
use prost_reflect::DescriptorPool;
use vstd::prelude::*;
use vstd::string::*;

verus! {

/// Why a descriptor set will not do, if it will not.
pub open spec fn objection(set: Seq<u8>) -> Option<Seq<char>> {
    match reflect::files_in(set) {
        Err(words) => Some(words),
        Ok(files) => if reflect::circular(files) {
            Some("public imports lead round in a circle"@)
        } else if reflect::entangled(files) {
            Some("there are too many public imports"@)
        } else if !reflect::syntax_known(files) {
            Some("a file is in an unknown syntax"@)
        } else if reflect::redefines_options(files) {
            Some("the options of descriptors are defined anew"@)
        } else if reflect::defaults_garbled(files) {
            Some("a default is garbled"@)
        } else {
            match reflect::refused(set) {
                Some(words) => Some(words),
                None => if reflect::sound(set) {
                    None
                } else {
                    Some("a message type is malformed"@)
                },
            }
        },
    }
}

/// Read a descriptor set, or say why it will not do.
pub(crate) fn open_pool(set: &[u8]) -> (pool: Result<DescriptorPool, String>)
    ensures
        match pool {
            Ok(pool) => {
                &&& objection(set@) is None
                &&& reflect::sound(set@)
                &&& reflect::pool_source(pool) == set@
            },
            Err(words) => objection(set@) == Some(words@),
        },
{
    let files = match read_files(set) {
        Ok(files) => files,
        Err(words) => {
            return Err(words);
        },
    };
    if !imports_end(&files) {
        return Err("public imports lead round in a circle".to_owned());
    }
    if is_entangled(&files) {
        return Err("there are too many public imports".to_owned());
    }
    if !all_known(&files) {
        return Err("a file is in an unknown syntax".to_owned());
    }
    if any_reserved(&files) {
        return Err("the options of descriptors are defined anew".to_owned());
    }
    if any_file_garbled(&files) {
        return Err("a default is garbled".to_owned());
    }
    let pool = match read_pool(set) {
        Ok(pool) => pool,
        Err(words) => {
            return Err(words);
        },
    };
    let types = types_of(&pool);
    if !all_well_made(&types) {
        assert(!reflect::sound(set@)) by {
            let i = choose|i: int|
                0 <= i < types@.len() && !reflect::well_made((#[trigger] types@[i])@);
            assert(reflect::types_in(set@)[i] == types@[i]@);
        }
        return Err("a message type is malformed".to_owned());
    }
    assert(reflect::sound(set@)) by {
        assert forall|i: int| 0 <= i < reflect::types_in(set@).len() implies reflect::well_made(
            #[trigger] reflect::types_in(set@)[i],
        ) by {
            assert(reflect::types_in(set@)[i] == types@[i]@);
        }
    }
    Ok(pool)
}

/// Whether a number is one of some.
fn has_number(list: &Vec<i32>, number: i32) -> (yes: bool)
    ensures
        yes == list@.contains(number),
{
    let mut i: usize = 0;
    while i < list.len()
        invariant
            i <= list@.len(),
            forall|k: int| 0 <= k < i ==> list@[k] != number,
        decreases list@.len() - i,
    {
        if list[i] == number {
            assert(list@[i as int] == number);
            return true;
        }
        i = i + 1;
    }
    false
}

/// Whether a file counts as importing whatever another one does.
fn does_pass_on(files: &Vec<FileOutline>, i: usize, j: usize) -> (yes: bool)
    requires
        i < files@.len(),
        j < files@.len(),
    ensures
        yes == reflect::passes_on(reflect::shapes(files@), i as int, j as int),
{
    let ghost shapes = reflect::shapes(files@);
    let mut k: usize = 0;
    while k < files[i].imports.len()
        invariant
            i < files@.len(),
            j < files@.len(),
            k <= files@[i as int].imports@.len(),
            shapes == reflect::shapes(files@),
            forall|m: int| 0 <= m < k ==> !(#[trigger] reflect::passes_on_at(
                shapes,
                i as int,
                j as int,
                m,
            )),
        decreases files@[i as int].imports@.len() - k,
    {
        if has_number(&files[i].public_imports, k as i32) && text::same(
            files[i].imports[k].as_str(),
            files[j].name.as_str(),
        ) {
            assert(reflect::passes_on_at(shapes, i as int, j as int, k as int));
            return true;
        }
        assert(!reflect::passes_on_at(shapes, i as int, j as int, k as int));
        k = k + 1;
    }
    assert forall|m: int| !(#[trigger] reflect::passes_on_at(shapes, i as int, j as int, m)) by {}
    false
}

/// Whether every file that a file passes on is settled.
fn rests_on_settled(files: &Vec<FileOutline>, settled: &Vec<bool>, i: usize) -> (yes: bool)
    requires
        i < files@.len(),
        settled@.len() == files@.len(),
    ensures
        yes == (forall|j: int|
            0 <= j < files@.len() && #[trigger] reflect::passes_on(
                reflect::shapes(files@),
                i as int,
                j,
            ) ==> settled@[j]),
{
    let ghost shapes = reflect::shapes(files@);
    let mut j: usize = 0;
    while j < files.len()
        invariant
            i < files@.len(),
            j <= files@.len(),
            settled@.len() == files@.len(),
            shapes == reflect::shapes(files@),
            forall|m: int|
                0 <= m < j && #[trigger] reflect::passes_on(shapes, i as int, m) ==> settled@[m],
        decreases files@.len() - j,
    {
        if !settled[j] && does_pass_on(files, i, j) {
            assert(reflect::passes_on(shapes, i as int, j as int));
            return false;
        }
        j = j + 1;
    }
    true
}

/// Files of which each passes on another lead round in a circle.
proof fn lemma_no_levels(
    files: Seq<FileShape>,
    settled: Seq<bool>,
    levels: Seq<nat>,
    i: int,
)
    requires
        settled.len() == files.len(),
        0 <= i < files.len(),
        !settled[i],
        forall|k: int|
            0 <= k < files.len() && !(#[trigger] settled[k]) ==> exists|j: int|
                0 <= j < files.len() && !settled[j] && #[trigger] reflect::passes_on(files, k, j),
    ensures
        !reflect::layered(files, levels),
    decreases levels[i],
{
    let j = choose|j: int|
        0 <= j < files.len() && !settled[j] && #[trigger] reflect::passes_on(files, i, j);
    if reflect::layered(files, levels) {
        lemma_no_levels(files, settled, levels, j);
    }
}

/// How many of these hold.
spec fn tally(flags: Seq<bool>) -> nat
    decreases flags.len(),
{
    if flags.len() == 0 {
        0
    } else {
        tally(flags.drop_last()) + (if flags.last() {
            1nat
        } else {
            0nat
        })
    }
}

proof fn lemma_tally(flags: Seq<bool>, i: int)
    requires
        0 <= i < flags.len(),
        !flags[i],
    ensures
        tally(flags.update(i, true)) == tally(flags) + 1,
        tally(flags) < flags.len(),
    decreases flags.len(),
{
    let front = flags.drop_last();
    let changed = flags.update(i, true);
    lemma_tally_bound(front);
    if i == flags.len() - 1 {
        assert(changed.drop_last() =~= front);
    } else {
        assert(changed.drop_last() =~= front.update(i, true));
        lemma_tally(front, i);
    }
}

proof fn lemma_tally_bound(flags: Seq<bool>)
    ensures
        tally(flags) <= flags.len(),
    decreases flags.len(),
{
    if flags.len() > 0 {
        lemma_tally_bound(flags.drop_last());
    }
}

/// Whether public imports come to an end: settle the files that pass on only settled
/// ones until there are no more of those, and see whether any is left.
fn imports_end(files: &Vec<FileOutline>) -> (yes: bool)
    ensures
        yes == !reflect::circular(reflect::shapes(files@)),
{
    let ghost shapes = reflect::shapes(files@);
    let mut settled: Vec<bool> = Vec::new();
    let mut n: usize = 0;
    while n < files.len()
        invariant
            n <= files@.len(),
            settled@.len() == n,
            forall|k: int| 0 <= k < n ==> !(#[trigger] settled@[k]),
        decreases files@.len() - n,
    {
        settled.push(false);
        n = n + 1;
    }
    let ghost mut levels: Seq<nat> = Seq::new(files@.len(), |k: int| 0nat);
    let ghost mut count: nat = 0;
    loop
        invariant
            shapes == reflect::shapes(files@),
            settled@.len() == files@.len(),
            levels.len() == files@.len(),
            forall|k: int| 0 <= k < levels.len() && #[trigger] settled@[k] ==> levels[k] < count,
            forall|k: int, j: int|
                0 <= k < levels.len() && 0 <= j < levels.len() && settled@[k]
                    && #[trigger] reflect::passes_on(shapes, k, j) ==> settled@[j] && levels[j]
                    < levels[k],
        decreases files@.len() - tally(settled@),
    {
        let mut i: usize = 0;
        while i < files.len() && (settled[i] || !rests_on_settled(files, &settled, i))
            invariant
                i <= files@.len(),
                shapes == reflect::shapes(files@),
                settled@.len() == files@.len(),
                forall|k: int|
                    0 <= k < i && !(#[trigger] settled@[k]) ==> exists|j: int|
                        0 <= j < files@.len() && !settled@[j] && #[trigger] reflect::passes_on(
                            shapes,
                            k,
                            j,
                        ),
            decreases files@.len() - i,
        {
            i = i + 1;
        }
        if i == files.len() {
            let mut k: usize = 0;
            while k < settled.len()
                invariant
                    k <= settled@.len(),
                    shapes == reflect::shapes(files@),
                    settled@.len() == files@.len(),
                    forall|m: int| 0 <= m < k ==> #[trigger] settled@[m],
                    forall|m: int|
                        0 <= m < files@.len() && !(#[trigger] settled@[m]) ==> exists|j: int|
                            0 <= j < files@.len() && !settled@[j] && #[trigger] reflect::passes_on(
                                shapes,
                                m,
                                j,
                            ),
                decreases settled@.len() - k,
            {
                if !settled[k] {
                    assert forall|levels: Seq<nat>| !(#[trigger] reflect::layered(
                        shapes,
                        levels,
                    )) by {
                        lemma_no_levels(shapes, settled@, levels, k as int);
                    }
                    return false;
                }
                k = k + 1;
            }
            assert(reflect::layered(shapes, levels));
            return true;
        }
        proof {
            lemma_tally(settled@, i as int);
            levels = levels.update(i as int, count);
            count = count + 1;
        }
        settled.set(i, true);
    }
}

proof fn lemma_public_imports(files: Seq<FileShape>, upto: int, more: int)
    requires
        upto <= more,
    ensures
        reflect::public_imports(files, upto) <= reflect::public_imports(files, more),
    decreases more,
{
    if upto < more && more > 0 {
        lemma_public_imports(files, upto, more - 1);
    }
}

/// Whether a set has more public imports than can be followed.
fn is_entangled(files: &Vec<FileOutline>) -> (yes: bool)
    ensures
        yes == reflect::entangled(reflect::shapes(files@)),
{
    let ghost shapes = reflect::shapes(files@);
    let mut count: usize = 0;
    let mut i: usize = 0;
    while i < files.len()
        invariant
            i <= files@.len(),
            shapes == reflect::shapes(files@),
            count == reflect::public_imports(shapes, i as int),
            count <= reflect::MOST_PUBLIC_IMPORTS,
        decreases files@.len() - i,
    {
        proof {
            assert(shapes[i as int] == files@[i as int]@);
            lemma_public_imports(shapes, i + 1, shapes.len() as int);
        }
        if files[i].public_imports.len() > reflect::MOST_PUBLIC_IMPORTS - count {
            return true;
        }
        count = count + files[i].public_imports.len();
        i = i + 1;
    }
    false
}

/// Whether a name is one that descriptors keep their options under.
fn is_reserved(name: &str) -> (yes: bool)
    ensures
        yes == reflect::is_reserved(name@),
{
    text::same(name, "google.protobuf.FileOptions")
        || text::same(name, "google.protobuf.MessageOptions")
        || text::same(name, "google.protobuf.FieldOptions")
        || text::same(name, "google.protobuf.OneofOptions")
        || text::same(name, "google.protobuf.EnumOptions")
        || text::same(name, "google.protobuf.EnumValueOptions")
        || text::same(name, "google.protobuf.ServiceOptions")
        || text::same(name, "google.protobuf.MethodOptions")
        || text::same(name, "google.protobuf.ExtensionRangeOptions")
}

/// The full name of what is defined in a scope.
fn full_name(scope: &str, name: &str) -> (full: String)
    ensures
        full@ == reflect::full_name(scope@, name@),
{
    proof {
        reveal_strlit("");
        assert(""@ =~= Seq::<char>::empty());
        if scope@.len() == 0 {
            assert(scope@ =~= Seq::<char>::empty());
        }
    }
    if text::same(scope, "") {
        name.to_owned()
    } else {
        let mut full: String = scope.to_owned();
        full.append(".");
        full.append(name);
        full
    }
}

/// Whether a message type, or one defined in it down to a depth, is one in which
/// descriptors keep their options.
fn keeps_options(message: &DescriptorProto, scope: &str, depth: u32) -> (yes: bool)
    ensures
        yes == reflect::keeps_options(*message, scope@, depth as nat),
    decreases depth,
{
    let outline = outline_of(message);
    let ghost shape = reflect::definition(*message);
    let name = full_name(scope, outline.name.as_str());
    if is_reserved(name.as_str()) {
        return true;
    }
    if depth == 0 {
        return false;
    }
    let mut i: usize = 0;
    while i < outline.nested.len()
        invariant
            depth > 0,
            i <= outline.nested@.len(),
            shape == reflect::definition(*message),
            shape.nested == outline.nested@,
            name@ == reflect::full_name(scope@, shape.name),
            !reflect::is_reserved(name@),
            forall|k: int|
                0 <= k < i ==> !reflect::keeps_options(
                    #[trigger] shape.nested[k],
                    name@,
                    (depth - 1) as nat,
                ),
        decreases outline.nested@.len() - i,
    {
        if keeps_options(&outline.nested[i], name.as_str(), depth - 1) {
            assert(reflect::keeps_options(shape.nested[i as int], name@, (depth - 1) as nat));
            return true;
        }
        i = i + 1;
    }
    false
}

/// Whether a set brings its own definition of what descriptors keep their options in.
fn any_reserved(files: &Vec<FileOutline>) -> (yes: bool)
    ensures
        yes == reflect::redefines_options(reflect::shapes(files@)),
{
    let ghost shapes = reflect::shapes(files@);
    let mut i: usize = 0;
    while i < files.len()
        invariant
            i <= files@.len(),
            shapes == reflect::shapes(files@),
            forall|m: int, k: int|
                0 <= m < i && 0 <= k < shapes[m].messages.len()
                    ==> !(#[trigger] reflect::keeps_options(
                    shapes[m].messages[k],
                    shapes[m].package,
                    reflect::DEEPEST as nat,
                )),
        decreases files@.len() - i,
    {
        let mut j: usize = 0;
        while j < files[i].messages.len()
            invariant
                i < files@.len(),
                j <= files@[i as int].messages@.len(),
                shapes == reflect::shapes(files@),
                forall|k: int|
                    0 <= k < j ==> !(#[trigger] reflect::keeps_options(
                        shapes[i as int].messages[k],
                        shapes[i as int].package,
                        reflect::DEEPEST as nat,
                    )),
            decreases files@[i as int].messages@.len() - j,
        {
            assert(shapes[i as int] == files@[i as int]@);
            if keeps_options(&files[i].messages[j], files[i].package.as_str(), reflect::DEEPEST) {
                assert(reflect::keeps_options(
                    shapes[i as int].messages[j as int],
                    shapes[i as int].package,
                    reflect::DEEPEST as nat,
                ));
                return true;
            }
            j = j + 1;
        }
        i = i + 1;
    }
    false
}

/// Whether every file is in a known syntax.
fn all_known(files: &Vec<FileOutline>) -> (yes: bool)
    ensures
        yes == reflect::syntax_known(reflect::shapes(files@)),
{
    let ghost shapes = reflect::shapes(files@);
    let mut i: usize = 0;
    while i < files.len()
        invariant
            i <= files@.len(),
            shapes == reflect::shapes(files@),
            forall|k: int| 0 <= k < i ==> reflect::known_syntax((#[trigger] shapes[k]).syntax),
        decreases files@.len() - i,
    {
        assert(shapes[i as int] == files@[i as int]@);
        let known = match &files[i].syntax {
            Some(syntax) => text::same(syntax.as_str(), "proto2") || text::same(
                syntax.as_str(),
                "proto3",
            ),
            None => true,
        };
        if !known {
            assert(!reflect::known_syntax(shapes[i as int].syntax));
            return false;
        }
        i = i + 1;
    }
    true
}

/// Whether what follows a backslash cannot be read.
fn is_misread(text: &str, len: usize, at: usize) -> (yes: bool)
    requires
        at <= len == text@.len(),
    ensures
        yes == reflect::misread(text@, at as int),
{
    if at == len {
        return false;
    }
    let first: char = text.get_char(at);
    let hex = first == 'x' || first == 'X';
    if hex && len - at > 1 && text.get_char(at + 1) > '\u{7f}' {
        return true;
    }
    if len - at <= 2 {
        return false;
    }
    let (second, third): (char, char) = (text.get_char(at + 1), text.get_char(at + 2));
    hex && third > '\u{7f}' || '4' <= first && first <= '7' && '0' <= second && second <= '7'
        && '0' <= third && third <= '7'
}

/// Whether a backslash in a text is followed by what cannot be read.
fn is_garbled(text: &str) -> (yes: bool)
    ensures
        yes == reflect::garbled(text@),
{
    let len: usize = text.unicode_len();
    let mut i: usize = 0;
    while i < len
        invariant
            i <= len == text@.len(),
            forall|k: int|
                0 <= k < i && #[trigger] text@[k] == '\\' ==> !reflect::misread(text@, k + 1),
        decreases len - i,
    {
        if text.get_char(i) == '\\' && is_misread(text, len, i + 1) {
            assert(text@[i as int] == '\\');
            return true;
        }
        i = i + 1;
    }
    false
}

/// Whether one of some texts is garbled.
fn is_any_garbled(list: &Vec<String>) -> (yes: bool)
    ensures
        yes == reflect::any_garbled(reflect::texts(list@)),
{
    let ghost texts = reflect::texts(list@);
    let mut i: usize = 0;
    while i < list.len()
        invariant
            i <= list@.len(),
            texts == reflect::texts(list@),
            forall|k: int| 0 <= k < i ==> !reflect::garbled(#[trigger] texts[k]),
        decreases list@.len() - i,
    {
        assert(texts[i as int] == list@[i as int]@);
        if is_garbled(list[i].as_str()) {
            assert(reflect::garbled(texts[i as int]));
            return true;
        }
        i = i + 1;
    }
    false
}

/// Whether something in a message type, or in one defined in it down to a depth, holds
/// a garbled text by default.
fn holds_garbled(message: &DescriptorProto, depth: u32) -> (yes: bool)
    ensures
        yes == reflect::holds_garbled(*message, depth as nat),
    decreases depth,
{
    let outline = outline_of(message);
    let ghost shape = reflect::definition(*message);
    if is_any_garbled(&outline.defaults) {
        return true;
    }
    if depth == 0 {
        return false;
    }
    let mut i: usize = 0;
    while i < outline.nested.len()
        invariant
            depth > 0,
            i <= outline.nested@.len(),
            shape == reflect::definition(*message),
            shape.nested == outline.nested@,
            !reflect::any_garbled(shape.defaults),
            forall|k: int|
                0 <= k < i ==> !reflect::holds_garbled(
                    #[trigger] shape.nested[k],
                    (depth - 1) as nat,
                ),
        decreases outline.nested@.len() - i,
    {
        if holds_garbled(&outline.nested[i], depth - 1) {
            assert(reflect::holds_garbled(shape.nested[i as int], (depth - 1) as nat));
            return true;
        }
        i = i + 1;
    }
    false
}

/// Whether something in a file holds a garbled text by default.
fn is_file_garbled(file: &FileOutline) -> (yes: bool)
    ensures
        yes == reflect::file_garbled(file@),
{
    if is_any_garbled(&file.defaults) {
        return true;
    }
    let mut j: usize = 0;
    while j < file.messages.len()
        invariant
            j <= file.messages@.len(),
            forall|k: int|
                0 <= k < j ==> !(#[trigger] reflect::holds_garbled(
                    file@.messages[k],
                    reflect::DEEPEST as nat,
                )),
        decreases file.messages@.len() - j,
    {
        if holds_garbled(&file.messages[j], reflect::DEEPEST) {
            assert(reflect::holds_garbled(file@.messages[j as int], reflect::DEEPEST as nat));
            return true;
        }
        j = j + 1;
    }
    false
}

/// Whether something in a set does.
fn any_file_garbled(files: &Vec<FileOutline>) -> (yes: bool)
    ensures
        yes == reflect::defaults_garbled(reflect::shapes(files@)),
{
    let ghost shapes = reflect::shapes(files@);
    let mut i: usize = 0;
    while i < files.len()
        invariant
            i <= files@.len(),
            shapes == reflect::shapes(files@),
            forall|k: int| 0 <= k < i ==> !reflect::file_garbled(#[trigger] shapes[k]),
        decreases files@.len() - i,
    {
        assert(shapes[i as int] == files@[i as int]@);
        if is_file_garbled(&files[i]) {
            return true;
        }
        i = i + 1;
    }
    false
}

/// Whether some key can be one of a map whose keys are of a type.
fn keys_a_map(kind: &prost_reflect::Kind) -> (yes: bool)
    ensures
        yes == reflect::keys_a_map(*kind),
{
    let empty: String = "".to_owned();
    takes_key(kind, Key::Bool(false)) || takes_key(kind, Key::I32(0)) || takes_key(
        kind,
        Key::I64(0),
    ) || takes_key(kind, Key::U32(0)) || takes_key(kind, Key::U64(0)) || takes_key(
        kind,
        Key::Text(empty),
    )
}

/// Whether a message type is one that protobuf has.
fn is_well_made(outline: &TypeOutline) -> (yes: bool)
    ensures
        yes == reflect::well_made(outline@),
{
    if outline.entry {
        let keyed = match &outline.first {
            Some(kind) => keys_a_map(kind),
            None => false,
        };
        if !keyed || outline.second.is_none() {
            return false;
        }
    }
    let mut i: usize = 0;
    while i < outline.slots.len()
        invariant
            i <= outline.slots@.len(),
            forall|k: int|
                0 <= k < i ==> !((#[trigger] outline.slots@[k]).repeated
                    && outline.slots@[k].presence),
        decreases outline.slots@.len() - i,
    {
        if outline.slots[i].repeated && outline.slots[i].presence {
            assert(outline@.slots[i as int].repeated && outline@.slots[i as int].presence);
            return false;
        }
        i = i + 1;
    }
    true
}

/// Whether every one of some message types is one that protobuf has.
fn all_well_made(types: &Vec<TypeOutline>) -> (yes: bool)
    ensures
        yes == (forall|i: int| 0 <= i < types@.len() ==> reflect::well_made((#[trigger] types@[i])@)),
{
    let mut i: usize = 0;
    while i < types.len()
        invariant
            i <= types@.len(),
            forall|k: int| 0 <= k < i ==> reflect::well_made((#[trigger] types@[k])@),
        decreases types@.len() - i,
    {
        if !is_well_made(&types[i]) {
            assert(!reflect::well_made(types@[i as int]@));
            return false;
        }
        i = i + 1;
    }
    true
}

} // verus!
