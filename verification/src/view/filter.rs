//! What a page asks to see of the retained events.

use crate::analysis::Analysis;
use vstd::prelude::*;

verus! {

/// Filter for the raw event table. Absent fields mean "no constraint".
#[derive(Debug, PartialEq, Eq)]
pub struct Filter {
    /// Kind ids to include.
    pub kinds: Vec<u16>,
    /// Group names to include, e.g. `message`, `connection`.
    pub groups: Vec<String>,
    /// Peers to include. Empty means every peer; several are allowed so a
    /// sequence diagram can show a conversation across more than one peer.
    pub peer_ids: Vec<u64>,
    pub time_from: Option<u64>,
    pub time_to: Option<u64>,
    /// Substring match against the kind name and the peer address.
    pub text: String,
}

/// What a filter asks for.
#[verifier::ext_equal]
pub struct Asked {
    pub kinds: Seq<u16>,
    pub groups: Seq<Seq<char>>,
    pub peer_ids: Seq<u64>,
    pub time_from: Option<u64>,
    pub time_to: Option<u64>,
    pub text: Seq<char>,
}

/// Some pieces of text.
pub open spec fn texts(list: Seq<String>) -> Seq<Seq<char>> {
    Seq::new(list.len(), |i: int| list[i]@)
}

impl View for Filter {
    type V = Asked;

    open spec fn view(&self) -> Asked {
        Asked {
            kinds: self.kinds@,
            groups: texts(self.groups@),
            peer_ids: self.peer_ids@,
            time_from: self.time_from,
            time_to: self.time_to,
            text: self.text@,
        }
    }
}

impl Asked {
    /// A filter that asks for nothing in particular.
    pub open spec fn anything() -> Asked {
        Asked {
            kinds: Seq::empty(),
            groups: Seq::empty(),
            peer_ids: Seq::empty(),
            time_from: None,
            time_to: None,
            text: Seq::empty(),
        }
    }

    /// Where the time asked for starts, in an archive that starts at `first`.
    pub open spec fn from(self, first: Option<u64>) -> u64 {
        match (self.time_from, first) {
            (Some(from), _) => from,
            (None, Some(first)) => first,
            (None, None) => 0,
        }
    }

    /// Where the time asked for ends, in an archive that ends at `last`.
    pub open spec fn to(self, last: Option<u64>) -> u64 {
        match (self.time_to, last) {
            (Some(to), _) => to,
            (None, Some(last)) => last,
            (None, None) => 0,
        }
    }
}

impl Default for Filter {
    fn default() -> (filter: Self)
        ensures
            filter@ == Asked::anything(),
    {
        let filter = Filter {
            kinds: Vec::new(),
            groups: Vec::new(),
            peer_ids: Vec::new(),
            time_from: None,
            time_to: None,
            text: String::new(),
        };
        assert(filter@ =~= Asked::anything());
        filter
    }
}

/// The time window a chart of the archive covers.
pub fn activity_span(analysis: &Analysis, filter: &Filter) -> (span: (u64, u64))
    ensures
        span.0 == filter@.from(analysis.first_timestamp),
        span.1 == filter@.to(analysis.last_timestamp),
{
    let start: u64 = match (filter.time_from, analysis.first_timestamp) {
        (Some(from), _) => from,
        (None, Some(first)) => first,
        (None, None) => 0,
    };
    let end: u64 = match (filter.time_to, analysis.last_timestamp) {
        (Some(to), _) => to,
        (None, Some(last)) => last,
        (None, None) => 0,
    };
    (start, end)
}

/// A chart covers what is asked for, and where nothing is, all there is; an archive with
/// nothing in it covers no time.
pub proof fn law_a_span_is_what_is_asked_for(asked: Asked, first: Option<u64>, last: Option<u64>)
    ensures
        asked.time_from is Some ==> asked.from(first) == asked.time_from->0,
        asked.time_from is None && first is Some ==> asked.from(first) == first->0,
        asked.time_from is None && first is None ==> asked.from(first) == 0,
        asked.time_to is Some ==> asked.to(last) == asked.time_to->0,
        asked.time_to is None && last is Some ==> asked.to(last) == last->0,
        asked.time_to is None && last is None ==> asked.to(last) == 0,
{
}

} // verus!
