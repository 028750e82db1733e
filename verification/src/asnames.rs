//! ASN naming.
//!
//! The tables behind this are large, and names are only ever shown with networks,
//! so a page asks for them on demand, a whole table of networks at once.

use vstd::prelude::*;
use vstd::string::*;

verus! {

/// What is known of an autonomous system.
#[derive(Debug, PartialEq, Eq)]
pub struct AsName {
    pub handle: String,
    pub description: String,
    /// ISO 3166-1 alpha-2 country code.
    pub country: String,
}

/// What is known of an autonomous system.
pub struct Named {
    pub handle: Seq<char>,
    pub description: Seq<char>,
    pub country: Seq<char>,
}

impl View for AsName {
    type V = Named;

    open spec fn view(&self) -> Named {
        Named {
            handle: self.handle@,
            description: self.description@,
            country: self.country@,
        }
    }
}

/// What asinfo's tables hold on an autonomous system.
pub uninterp spec fn as_entry(asn: u32) -> Option<Named>;

/// `asinfo::lookup`: what the tables that are built into the crate hold on an
/// autonomous system, if anything.
#[verifier::external_body]
fn as_lookup(asn: u32) -> (found: Option<AsName>)
    ensures
        match found {
            Some(name) => as_entry(asn) == Some(name@),
            None => as_entry(asn) is None,
        },
{
    asinfo::lookup(asn).map(
        |info|
            AsName {
                handle: info.handle.to_string(),
                description: info.description.to_string(),
                country: info.country.as_str().to_string(),
            },
    )
}

/// Names by number, in the order in which they were asked for.
pub struct Names {
    pub rows: Vec<(u32, AsName)>,
}

impl View for Names {
    type V = Seq<(u32, Named)>;

    open spec fn view(&self) -> Seq<(u32, Named)> {
        Seq::new(self.rows@.len(), |i: int| (self.rows@[i].0, self.rows@[i].1@))
    }
}

/// Whether a number is listed.
pub open spec fn lists(names: Seq<(u32, Named)>, asn: u32) -> bool {
    exists|i: int| 0 <= i < names.len() && (#[trigger] names[i]).0 == asn
}

/// Names with one more, unless nothing is known of it or it is there already.
pub open spec fn with_name(
    names: Seq<(u32, Named)>,
    asn: u32,
    found: Option<Named>,
) -> Seq<(u32, Named)> {
    match found {
        Some(name) if !lists(names, asn) => names.push((asn, name)),
        _ => names,
    }
}

/// The names of the first `upto` of some autonomous systems.
pub open spec fn names_of(asns: Seq<u32>, upto: int) -> Seq<(u32, Named)>
    decreases upto,
{
    if upto <= 0 {
        Seq::empty()
    } else {
        with_name(names_of(asns, upto - 1), asns[upto - 1], as_entry(asns[upto - 1]))
    }
}

/// What is known of an autonomous system, as a view.
pub open spec fn name_in(found: Option<AsName>) -> Option<Named> {
    match found {
        Some(name) => Some(name@),
        None => None,
    }
}

impl Names {
    pub fn new() -> (names: Self)
        ensures
            names@ == Seq::<(u32, Named)>::empty(),
    {
        let names = Names { rows: Vec::new() };
        assert(names@ =~= Seq::<(u32, Named)>::empty());
        names
    }

    /// Add what was found on an autonomous system.
    pub fn insert(&mut self, asn: u32, found: Option<AsName>)
        ensures
            final(self)@ == with_name(old(self)@, asn, name_in(found)),
    {
        let ghost before = self@;
        let mut i: usize = 0;
        while i < self.rows.len()
            invariant
                i <= self.rows@.len(),
                self@ == before,
                forall|k: int| 0 <= k < i ==> (#[trigger] before[k]).0 != asn,
            decreases self.rows@.len() - i,
        {
            assert(before[i as int].0 == self.rows@[i as int].0);
            if self.rows[i].0 == asn {
                assert(lists(before, asn));
                return ;
            }
            i = i + 1;
        }
        assert(!lists(before, asn));
        if let Some(name) = found {
            self.rows.push((asn, name));
            assert(self@ =~= before.push((asn, name@)));
        }
    }
}

/// The numbers in a JSON array, or what is wrong with the text, in serde_json's words.
pub uninterp spec fn numbers_in(json: Seq<char>) -> Result<Seq<u32>, Seq<char>>;

/// `serde_json::from_str`, for an array of numbers: the numbers, or what is wrong with
/// the text.
#[verifier::external_body]
fn read_numbers(json: &str) -> (asns: Result<Vec<u32>, String>)
    ensures
        match asns {
            Ok(asns) => numbers_in(json@) == Ok::<_, Seq<char>>(asns@),
            Err(words) => numbers_in(json@) == Err::<Seq<u32>, _>(words@),
        },
{
    serde_json::from_str::<Vec<u32>>(json).map_err(|error| error.to_string())
}

/// Describe the autonomous systems that a JSON array lists by number, or say why it
/// cannot be read.
pub fn describe_listed(asns_json: &str) -> (names: Result<Names, String>)
    ensures
        match names {
            Ok(names) => numbers_in(asns_json@) matches Ok(asns) && names@ == names_of(
                asns,
                asns.len() as int,
            ),
            Err(reason) => numbers_in(asns_json@) matches Err(words) && reason@
                == "expected a JSON array of ASNs: "@ + words,
        },
{
    match read_numbers(asns_json) {
        Ok(asns) => Ok(describe_many(&asns)),
        Err(words) => {
            let mut reason: String = "expected a JSON array of ASNs: ".to_owned();
            reason.append(words.as_str());
            Err(reason)
        },
    }
}

/// Describe many autonomous systems at once, keyed by number, so a whole table of
/// networks is named in one call.
pub fn describe_many(asns: &Vec<u32>) -> (names: Names)
    ensures
        names@ == names_of(asns@, asns@.len() as int),
{
    let mut names = Names::new();
    let mut i: usize = 0;
    while i < asns.len()
        invariant
            i <= asns@.len(),
            names@ == names_of(asns@, i as int),
        decreases asns@.len() - i,
    {
        names.insert(asns[i], as_lookup(asns[i]));
        i = i + 1;
    }
    names
}

/// Every autonomous system that is asked for and known is named once, whatever else was
/// asked for and however often, and none other is.
pub proof fn law_every_known_number_is_named_once(asns: Seq<u32>, asn: u32)
    ensures
        ({
            let names = names_of(asns, asns.len() as int);
            &&& (exists|i: int| 0 <= i < names.len() && (#[trigger] names[i]).0 == asn)
                <==> asns.contains(asn) && as_entry(asn) is Some
            &&& forall|i: int|
                0 <= i < names.len() ==> as_entry((#[trigger] names[i]).0) == Some(names[i].1)
            &&& forall|i: int, j: int|
                #![trigger names[i], names[j]]
                0 <= i < j < names.len() ==> names[i].0 != names[j].0
        }),
{
    lemma_names(asns, asns.len() as int, asn);
    if asns.contains(asn) {
        let k = choose|k: int| 0 <= k < asns.len() && asns[k] == asn;
        assert(asns[k] == asn);
    }
}

proof fn lemma_names(asns: Seq<u32>, upto: int, asn: u32)
    requires
        0 <= upto <= asns.len(),
    ensures
        ({
            let names = names_of(asns, upto);
            &&& lists(names, asn) <==> as_entry(asn) is Some && exists|k: int|
                0 <= k < upto && #[trigger] asns[k] == asn
            &&& forall|i: int|
                0 <= i < names.len() ==> as_entry((#[trigger] names[i]).0) == Some(names[i].1)
            &&& forall|i: int, j: int|
                #![trigger names[i], names[j]]
                0 <= i < j < names.len() ==> names[i].0 != names[j].0
        }),
    decreases upto,
{
    if upto > 0 {
        lemma_names(asns, upto - 1, asn);
        let before = names_of(asns, upto - 1);
        let names = names_of(asns, upto);
        let last = asns[upto - 1];
        if lists(before, asn) {
            let i = choose|i: int| 0 <= i < before.len() && (#[trigger] before[i]).0 == asn;
            assert(names[i].0 == asn);
            let k = choose|k: int| 0 <= k < upto - 1 && #[trigger] asns[k] == asn;
            assert(asns[k] == asn);
        }
        if last == asn && as_entry(asn) is Some && !lists(before, asn) {
            assert(names[before.len() as int].0 == asn);
        }
        if lists(names, asn) && !lists(before, asn) {
            let i = choose|i: int| 0 <= i < names.len() && (#[trigger] names[i]).0 == asn;
            if i < before.len() {
                assert(before[i].0 == asn);
            }
            assert(asns[upto - 1] == asn);
        }
        if exists|k: int| 0 <= k < upto && #[trigger] asns[k] == asn {
            let k = choose|k: int| 0 <= k < upto && #[trigger] asns[k] == asn;
            if k < upto - 1 {
                assert(asns[k] == asn);
            }
        }
        assert forall|i: int, j: int|
            #![trigger names[i], names[j]]
            0 <= i < j < names.len() implies names[i].0 != names[j].0 by {
            assert(names[i] == before[i]);
            if j < before.len() {
                assert(names[j] == before[j]);
            } else if names[i].0 == names[j].0 {
                assert(lists(before, last)) by {
                    assert(before[i].0 == last);
                }
            }
        }
    }
}

} // verus!
