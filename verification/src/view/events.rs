//! The raw event table and the sequence diagram.

use crate::analysis::Analysis;
use crate::exchange;
use crate::exchange::{Tie, Turn};
use crate::kind::{Category, EventKind, KindInfo};
use crate::order;
use crate::peers;
use crate::peers::{Directory, Peer, PeerStats};
use crate::store;
use crate::store::{EventRow, Retained, Retention, NO_PEER};
use crate::text;
use crate::view::filter::{Asked, Filter};
use vstd::prelude::*;

verus! {

/// The dense index events of a peer carry. A peer the archive never saw has none.
pub open spec fn index_of(peers: Seq<Peer>, peer_id: u64) -> u32 {
    match peers::place(peers, peer_id) {
        Some(at) => peers[at].index,
        None => NO_PEER,
    }
}

/// Whether an event is about one of these peers. One that is about no peer is about
/// none of them.
pub open spec fn by_peer(asked: Asked, peers: Seq<Peer>, event: Retained) -> bool {
    &&& event.peer != NO_PEER
    &&& exists|i: int|
        0 <= i < asked.peer_ids.len() && #[trigger] index_of(peers, asked.peer_ids[i])
            == event.peer
}

/// Whether a kind is one of those asked for, by itself or by its group.
pub open spec fn by_kind(asked: Asked, kinds: Seq<EventKind>, kind: u16) -> bool {
    &&& kind < kinds.len()
    &&& asked.kinds.contains(kind) || asked.groups.contains(kinds[kind as int].group.text())
}

/// Whether the kind of an event or the address of its peer has the needle in it.
pub open spec fn by_text(
    needle: Seq<char>,
    kinds: Seq<EventKind>,
    peers: Seq<Peer>,
    event: Retained,
) -> bool {
    ||| event.kind < kinds.len() && text::occurs_in(
        needle,
        text::lowercase(kinds[event.kind as int].name),
    )
    ||| event.peer != NO_PEER && event.peer < peers.len() && (peers[event.peer as int].addr matches Some(
        addr,
    ) && text::occurs_in(needle, text::lowercase(addr)))
}

/// Whether an event is one of those asked for. Every constraint has to hold;
/// absent fields are none.
pub open spec fn passes(
    asked: Asked,
    kinds: Seq<EventKind>,
    peers: Seq<Peer>,
    event: Retained,
) -> bool {
    &&& asked.time_from matches Some(from) ==> event.timestamp >= from
    &&& asked.time_to matches Some(to) ==> event.timestamp <= to
    &&& asked.peer_ids.len() > 0 ==> by_peer(asked, peers, event)
    &&& asked.kinds.len() > 0 || asked.groups.len() > 0 ==> by_kind(asked, kinds, event.kind)
    &&& asked.text.len() > 0 && text::lowercase(asked.text).len() > 0 ==> by_text(
        text::lowercase(asked.text),
        kinds,
        peers,
        event,
    )
}

/// How many of the retained events have a row number.
pub open spec fn numbered(events: Seq<Retained>) -> int {
    if events.len() <= u32::MAX {
        events.len() as int
    } else {
        u32::MAX + 1
    }
}

/// The rows of the first `upto` events that are asked for.
pub open spec fn matching(
    asked: Asked,
    kinds: Seq<EventKind>,
    peers: Seq<Peer>,
    events: Seq<Retained>,
    upto: int,
) -> Seq<u32>
    decreases upto,
{
    if upto <= 0 {
        Seq::empty()
    } else if passes(asked, kinds, peers, events[upto - 1]) {
        matching(asked, kinds, peers, events, upto - 1).push((upto - 1) as u32)
    } else {
        matching(asked, kinds, peers, events, upto - 1)
    }
}

/// The rows of an analysis that are asked for.
pub open spec fn found(asked: Asked, analysis: Analysis) -> Seq<u32> {
    matching(
        asked,
        analysis.kinds@,
        analysis.peers@.peers,
        analysis.store@.events,
        numbered(analysis.store@.events),
    )
}

impl Filter {
    /// Whether this asks for nothing in particular.
    pub fn is_unconstrained(&self) -> (yes: bool)
        ensures
            yes == (self@ == Asked::anything()),
    {
        let yes = self.kinds.len() == 0 && self.groups.len() == 0 && self.peer_ids.len() == 0
            && self.time_from.is_none() && self.time_to.is_none() && text::same(
            self.text.as_str(),
            "",
        );
        proof {
            reveal_strlit("");
            assert(""@ =~= Seq::empty());
            if yes {
                assert(self@ =~= Asked::anything());
            }
            if self@ == Asked::anything() {
                assert(self@.groups.len() == self.groups@.len());
                assert(self.text@ == Seq::<char>::empty());
                assert(yes);
            }
        }
        yes
    }

    /// Whether two filters ask for the same.
    fn same_as(&self, other: &Filter) -> (same: bool)
        ensures
            same == (self@ == other@),
    {
        let same = same_numbers16(&self.kinds, &other.kinds) && same_texts(
            &self.groups,
            &other.groups,
        ) && same_numbers64(&self.peer_ids, &other.peer_ids) && same_option(
            self.time_from,
            other.time_from,
        ) && same_option(self.time_to, other.time_to) && text::same(
            self.text.as_str(),
            other.text.as_str(),
        );
        same
    }

    /// The same filter once more.
    fn copy(&self) -> (copy: Filter)
        ensures
            copy@ == self@,
    {
        let mut kinds: Vec<u16> = Vec::new();
        let mut i: usize = 0;
        while i < self.kinds.len()
            invariant
                i <= self.kinds@.len(),
                kinds@ == self.kinds@.take(i as int),
            decreases self.kinds@.len() - i,
        {
            kinds.push(self.kinds[i]);
            i = i + 1;
            assert(kinds@ =~= self.kinds@.take(i as int));
        }
        let mut groups: Vec<String> = Vec::new();
        let mut j: usize = 0;
        while j < self.groups.len()
            invariant
                j <= self.groups@.len(),
                groups@.len() == j,
                forall|k: int| 0 <= k < j ==> (#[trigger] groups@[k])@ == self.groups@[k]@,
            decreases self.groups@.len() - j,
        {
            groups.push(self.groups[j].clone());
            j = j + 1;
        }
        let mut peer_ids: Vec<u64> = Vec::new();
        let mut n: usize = 0;
        while n < self.peer_ids.len()
            invariant
                n <= self.peer_ids@.len(),
                peer_ids@ == self.peer_ids@.take(n as int),
            decreases self.peer_ids@.len() - n,
        {
            peer_ids.push(self.peer_ids[n]);
            n = n + 1;
            assert(peer_ids@ =~= self.peer_ids@.take(n as int));
        }
        let copy = Filter {
            kinds,
            groups,
            peer_ids,
            time_from: self.time_from,
            time_to: self.time_to,
            text: self.text.clone(),
        };
        assert(copy@ =~= self@) by {
            assert(copy@.kinds =~= self@.kinds);
            assert(copy@.groups =~= self@.groups);
            assert(copy@.peer_ids =~= self@.peer_ids);
        }
        copy
    }
}

fn same_option(a: Option<u64>, b: Option<u64>) -> (same: bool)
    ensures
        same == (a == b),
{
    match (a, b) {
        (Some(a), Some(b)) => a == b,
        (None, None) => true,
        _ => false,
    }
}

fn same_numbers16(a: &Vec<u16>, b: &Vec<u16>) -> (same: bool)
    ensures
        same == (a@ == b@),
{
    if a.len() != b.len() {
        return false;
    }
    let mut i: usize = 0;
    while i < a.len()
        invariant
            i <= a@.len(),
            a@.len() == b@.len(),
            forall|k: int| 0 <= k < i ==> #[trigger] a@[k] == b@[k],
        decreases a@.len() - i,
    {
        if a[i] != b[i] {
            return false;
        }
        i = i + 1;
    }
    assert(a@ =~= b@);
    true
}

fn same_numbers64(a: &Vec<u64>, b: &Vec<u64>) -> (same: bool)
    ensures
        same == (a@ == b@),
{
    if a.len() != b.len() {
        return false;
    }
    let mut i: usize = 0;
    while i < a.len()
        invariant
            i <= a@.len(),
            a@.len() == b@.len(),
            forall|k: int| 0 <= k < i ==> #[trigger] a@[k] == b@[k],
        decreases a@.len() - i,
    {
        if a[i] != b[i] {
            return false;
        }
        i = i + 1;
    }
    assert(a@ =~= b@);
    true
}

fn same_texts(a: &Vec<String>, b: &Vec<String>) -> (same: bool)
    ensures
        same == (crate::view::filter::texts(a@) == crate::view::filter::texts(b@)),
{
    let ghost x = crate::view::filter::texts(a@);
    let ghost y = crate::view::filter::texts(b@);
    if a.len() != b.len() {
        assert(x.len() != y.len());
        return false;
    }
    let mut i: usize = 0;
    while i < a.len()
        invariant
            i <= a@.len(),
            a@.len() == b@.len(),
            x == crate::view::filter::texts(a@),
            y == crate::view::filter::texts(b@),
            forall|k: int| 0 <= k < i ==> #[trigger] x[k] == y[k],
        decreases a@.len() - i,
    {
        assert(x[i as int] == a@[i as int]@ && y[i as int] == b@[i as int]@);
        if !text::same(a[i].as_str(), b[i].as_str()) {
            return false;
        }
        i = i + 1;
    }
    assert(x =~= y);
    true
}

/// Which kinds are asked for.
fn allowed_kinds(analysis: &Analysis, filter: &Filter) -> (allowed: Vec<bool>)
    requires
        analysis.wf(),
    ensures
        allowed@.len() == analysis.kinds@.len(),
        forall|kind: int|
            0 <= kind < allowed@.len() ==> #[trigger] allowed@[kind] == by_kind(
                filter@,
                analysis.kinds@,
                kind as u16,
            ),
{
    let kinds = analysis.kinds.iter();
    let mut allowed: Vec<bool> = Vec::new();
    let mut i: usize = 0;
    while i < kinds.len()
        invariant
            i <= kinds@.len(),
            allowed@.len() == i,
            kinds@.len() == analysis.kinds@.len(),
            kinds@.len() <= 65536,
            forall|k: int| 0 <= k < kinds@.len() ==> (#[trigger] kinds@[k])@ == analysis.kinds@[k],
            forall|kind: int|
                0 <= kind < i ==> #[trigger] allowed@[kind] == by_kind(
                    filter@,
                    analysis.kinds@,
                    kind as u16,
                ),
        decreases kinds@.len() - i,
    {
        let id: u16 = i as u16;
        assert(kinds@[i as int]@ == analysis.kinds@[i as int]);
        let by_id = holds(&filter.kinds, id);
        let by_group = text::listed(&filter.groups, kinds[i].group.as_str());
        proof {
            let name = analysis.kinds@[i as int].group.text();
            let groups = filter@.groups;
            if by_group {
                let k = choose|k: int|
                    0 <= k < filter.groups@.len() && #[trigger] filter.groups@[k]@ == name;
                assert(groups[k] == name);
            }
            if groups.contains(name) {
                let k = choose|k: int| 0 <= k < groups.len() && groups[k] == name;
                assert(filter.groups@[k]@ == name);
            }
        }
        allowed.push(by_id || by_group);
        i = i + 1;
    }
    allowed
}

/// Whether a number is listed.
fn holds(list: &Vec<u16>, id: u16) -> (found: bool)
    ensures
        found == list@.contains(id),
{
    let mut i: usize = 0;
    while i < list.len()
        invariant
            i <= list@.len(),
            forall|k: int| 0 <= k < i ==> #[trigger] list@[k] != id,
        decreases list@.len() - i,
    {
        if list[i] == id {
            assert(list@[i as int] == id);
            return true;
        }
        i = i + 1;
    }
    false
}

/// The dense indices of the peers asked for.
fn wanted_peers(analysis: &Analysis, filter: &Filter) -> (wanted: Vec<u32>)
    requires
        analysis.wf(),
    ensures
        wanted@.len() == filter@.peer_ids.len(),
        forall|i: int|
            0 <= i < wanted@.len() ==> #[trigger] wanted@[i] == index_of(
                analysis.peers@.peers,
                filter@.peer_ids[i],
            ),
{
    let mut wanted: Vec<u32> = Vec::new();
    let mut i: usize = 0;
    while i < filter.peer_ids.len()
        invariant
            i <= filter.peer_ids@.len(),
            wanted@.len() == i,
            analysis.wf(),
            forall|k: int|
                0 <= k < i ==> #[trigger] wanted@[k] == index_of(
                    analysis.peers@.peers,
                    filter@.peer_ids[k],
                ),
        decreases filter.peer_ids@.len() - i,
    {
        wanted.push(
            match analysis.peers.get(filter.peer_ids[i]) {
                Some(peer) => peer.index,
                None => NO_PEER,
            },
        );
        i = i + 1;
    }
    wanted
}

/// Whether an event is about one of the peers asked for.
fn about(
    wanted: &Vec<u32>,
    peer: u32,
    asked: Ghost<Asked>,
    peers: Ghost<Seq<Peer>>,
    event: Ghost<Retained>,
) -> (found: bool)
    requires
        event@.peer == peer,
        wanted@.len() == asked@.peer_ids.len(),
        forall|i: int|
            0 <= i < wanted@.len() ==> #[trigger] wanted@[i] == index_of(
                peers@,
                asked@.peer_ids[i],
            ),
    ensures
        found == by_peer(asked@, peers@, event@),
{
    if peer == NO_PEER {
        return false;
    }
    let mut i: usize = 0;
    while i < wanted.len()
        invariant
            i <= wanted@.len(),
            event@.peer == peer,
            peer != NO_PEER,
            wanted@.len() == asked@.peer_ids.len(),
            forall|k: int|
                0 <= k < wanted@.len() ==> #[trigger] wanted@[k] == index_of(
                    peers@,
                    asked@.peer_ids[k],
                ),
            forall|k: int|
                0 <= k < i ==> #[trigger] index_of(peers@, asked@.peer_ids[k]) != peer,
        decreases wanted@.len() - i,
    {
        assert(wanted@[i as int] == index_of(peers@, asked@.peer_ids[i as int]));
        if wanted[i] == peer {
            return true;
        }
        i = i + 1;
    }
    false
}

/// Whether the kind of an event or the address of its peer has the needle in it.
fn matches_text(
    analysis: &Analysis,
    kind: u16,
    peer: u32,
    needle: &str,
    event: Ghost<Retained>,
) -> (found: bool)
    requires
        event@.kind == kind,
        event@.peer == peer,
    ensures
        found == by_text(needle@, analysis.kinds@, analysis.peers@.peers, event@),
{
    if let Some(info) = analysis.kinds.get(kind) {
        let name = text::to_lowercase(info.name.as_str());
        if text::contains(name.as_str(), needle) {
            return true;
        }
    }
    if peer != NO_PEER {
        if let Some(stats) = analysis.peers.at(peer) {
            if let Some(addr) = &stats.addr {
                let addr = text::to_lowercase(addr.as_str());
                if text::contains(addr.as_str(), needle) {
                    return true;
                }
            }
        }
    }
    false
}

/// The rows that are asked for.
pub fn scan(analysis: &Analysis, filter: &Filter) -> (rows: Vec<u32>)
    requires
        analysis.wf(),
    ensures
        rows@ == found(filter@, *analysis),
{
    let timestamps = analysis.store.timestamps();
    let kinds = analysis.store.kinds();
    let peers = analysis.store.peers();
    let ghost events = analysis.store@.events;
    let ghost asked = filter@;

    // Resolve the filter to dense ids once rather than per row.
    let wanted = wanted_peers(analysis, filter);
    let allowed = allowed_kinds(analysis, filter);
    let limit_peers = filter.peer_ids.len() > 0;
    let limit_kinds = filter.kinds.len() > 0 || filter.groups.len() > 0;
    let needle = text::to_lowercase(filter.text.as_str());
    let limit_text = !text::same(filter.text.as_str(), "") && !text::same(needle.as_str(), "");
    proof {
        reveal_strlit("");
        assert(limit_text == (asked.text.len() > 0 && needle@.len() > 0)) by {
            if asked.text.len() == 0 {
                assert(asked.text =~= ""@);
            }
            if needle@.len() == 0 {
                assert(needle@ =~= ""@);
            }
        }
    }
    let mut rows: Vec<u32> = Vec::new();
    let mut i: usize = 0;
    while i < timestamps.len() && i as u64 <= u32::MAX as u64
        invariant
            i <= events.len(),
            i <= u32::MAX + 1,
            analysis.wf(),
            events == analysis.store@.events,
            asked == filter@,
            timestamps@ == Seq::new(events.len(), |k: int| events[k].timestamp),
            kinds@ == Seq::new(events.len(), |k: int| events[k].kind),
            peers@ == Seq::new(events.len(), |k: int| events[k].peer),
            limit_peers == (asked.peer_ids.len() > 0),
            limit_kinds == (asked.kinds.len() > 0 || asked.groups.len() > 0),
            needle@ == text::lowercase(asked.text),
            limit_text == (asked.text.len() > 0 && needle@.len() > 0),
            wanted@.len() == asked.peer_ids.len(),
            forall|k: int|
                0 <= k < wanted@.len() ==> #[trigger] wanted@[k] == index_of(
                    analysis.peers@.peers,
                    asked.peer_ids[k],
                ),
            allowed@.len() == analysis.kinds@.len(),
            forall|kind: int|
                0 <= kind < allowed@.len() ==> #[trigger] allowed@[kind] == by_kind(
                    asked,
                    analysis.kinds@,
                    kind as u16,
                ),
            rows@ == matching(
                asked,
                analysis.kinds@,
                analysis.peers@.peers,
                events,
                i as int,
            ),
        decreases events.len() - i,
    {
        let ghost event = events[i as int];
        let early = match filter.time_from {
            Some(from) => timestamps[i] < from,
            None => false,
        };
        let late = match filter.time_to {
            Some(to) => timestamps[i] > to,
            None => false,
        };
        let by_whom = !limit_peers || about(
            &wanted,
            peers[i],
            Ghost(asked),
            Ghost(analysis.peers@.peers),
            Ghost(event),
        );
        let kind: usize = kinds[i] as usize;
        assert(kind < allowed@.len() ==> allowed@[kind as int] == by_kind(
            asked,
            analysis.kinds@,
            event.kind,
        ));
        let of_kind = !limit_kinds || (kind < allowed.len() && allowed[kind]);
        let with_text = !limit_text || matches_text(
            analysis,
            kinds[i],
            peers[i],
            needle.as_str(),
            Ghost(event),
        );
        if !early && !late && by_whom && of_kind && with_text {
            rows.push(i as u32);
        }
        i = i + 1;
    }
    assert(i == numbered(events));
    rows
}

/// Caches the rows matching the last filter, so paging through a virtualized table
/// does not rescan every event on every scroll.
pub struct QueryCache {
    filter: Option<Filter>,
    /// `None` when the filter matches everything, in which case index == row.
    matches: Option<Vec<u32>>,
    total: usize,
    /// Retained-event count the cache was built against, to spot staleness.
    built_at_len: usize,
}

/// What a cache remembers.
#[verifier::ext_equal]
pub struct Remembered {
    pub asked: Option<Asked>,
    pub rows: Option<Seq<u32>>,
    pub total: usize,
    pub built_at_len: usize,
}

impl View for QueryCache {
    type V = Remembered;

    closed spec fn view(&self) -> Remembered {
        Remembered {
            asked: match self.filter {
                Some(filter) => Some(filter@),
                None => None,
            },
            rows: match self.matches {
                Some(rows) => Some(rows@),
                None => None,
            },
            total: self.total,
            built_at_len: self.built_at_len,
        }
    }
}

impl Remembered {
    /// Nothing yet.
    pub open spec fn blank() -> Remembered {
        Remembered { asked: None, rows: None, total: 0, built_at_len: 0 }
    }

    /// What there is to remember of a filter on an analysis.
    pub open spec fn of(asked: Asked, analysis: Analysis) -> Remembered {
        let len = analysis.store@.events.len();
        if asked == Asked::anything() {
            Remembered {
                asked: Some(asked),
                rows: None,
                total: len as usize,
                built_at_len: len as usize,
            }
        } else {
            Remembered {
                asked: Some(asked),
                rows: Some(found(asked, analysis)),
                total: found(asked, analysis).len() as usize,
                built_at_len: len as usize,
            }
        }
    }

    /// What is remembered once this filter on this analysis has been asked for. The
    /// same filter on as many retained events is not asked again.
    pub open spec fn refreshed(self, asked: Asked, analysis: Analysis) -> Remembered {
        if self.asked == Some(asked) && self.built_at_len == analysis.store@.events.len() {
            self
        } else {
            Remembered::of(asked, analysis)
        }
    }

    /// The rows remembered, of `len` retained events.
    pub open spec fn listed(self, events: Seq<Retained>) -> Seq<u32> {
        match self.rows {
            Some(rows) => rows,
            None => Seq::new(numbered(events) as nat, |i: int| i as u32),
        }
    }
}

impl Default for QueryCache {
    fn default() -> (cache: Self)
        ensures
            cache@ == Remembered::blank(),
    {
        QueryCache { filter: None, matches: None, total: 0, built_at_len: 0 }
    }
}

impl QueryCache {
    pub fn new() -> (cache: Self)
        ensures
            cache@ == Remembered::blank(),
    {
        QueryCache { filter: None, matches: None, total: 0, built_at_len: 0 }
    }

    /// Bring the cache up to date for a filter.
    fn refresh(&mut self, analysis: &Analysis, filter: &Filter)
        requires
            analysis.wf(),
        ensures
            final(self)@ == old(self)@.refreshed(filter@, *analysis),
    {
        let same = match &self.filter {
            Some(held) => held.same_as(filter),
            None => false,
        };
        if same && self.built_at_len == analysis.store.len() {
            return ;
        }
        if filter.is_unconstrained() {
            self.matches = None;
            self.total = analysis.store.len();
        } else {
            let matches = scan(analysis, filter);
            self.total = matches.len();
            self.matches = Some(matches);
        }
        self.filter = Some(filter.copy());
        self.built_at_len = analysis.store.len();
        assert(self@ =~= Remembered::of(filter@, *analysis));
    }

    /// The rows making up one page.
    fn page(&self, analysis: &Analysis, offset: usize, limit: usize) -> (rows: Vec<u32>)
        ensures
            rows@ == order::page_of(
                self@.listed(analysis.store@.events),
                offset as int,
                limit as int,
            ),
    {
        let mut rows: Vec<u32> = Vec::new();
        match &self.matches {
            Some(matches) => {
                let (start, end) = order::page_bounds(matches.len(), offset, limit);
                let mut at: usize = start;
                while at < end
                    invariant
                        start <= at <= end <= matches@.len(),
                        rows@ == matches@.subrange(start as int, at as int),
                    decreases end - at,
                {
                    rows.push(matches[at]);
                    at = at + 1;
                    assert(rows@ =~= matches@.subrange(start as int, at as int));
                }
            },
            None => {
                let ghost all = self@.listed(analysis.store@.events);
                let held: usize = analysis.store.len();
                let mut len: usize = held;
                if held as u64 > u32::MAX as u64 {
                    len = u32::MAX as usize + 1;
                }
                let (start, end) = order::page_bounds(len, offset, limit);
                let mut at: usize = start;
                while at < end
                    invariant
                        start <= at <= end <= all.len(),
                        end <= u32::MAX + 1,
                        forall|i: int| 0 <= i < all.len() ==> #[trigger] all[i] == i as u32,
                        rows@ == all.subrange(start as int, at as int),
                    decreases end - at,
                {
                    rows.push(at as u32);
                    at = at + 1;
                    assert(rows@ =~= all.subrange(start as int, at as int));
                }
            },
        }
        rows
    }
}

/// One line of the event table.
#[derive(Debug)]
pub struct EventLine<'a> {
    pub row: EventRow,
    pub info: Option<&'a KindInfo>,
    pub category: Option<Category>,
    pub label: Option<String>,
    pub peer: Option<&'a PeerStats>,
    pub inbound: Option<bool>,
}

/// Whether this is the line of a row.
pub open spec fn is_line_of(
    line: EventLine<'_>,
    index: u32,
    store: Retention,
    kinds: Seq<EventKind>,
    peers: Seq<Peer>,
) -> bool {
    &&& store::row_of(store, index) == Some(line.row)
    &&& line.inbound == store::direction(line.row.flags)
    &&& if line.row.kind < kinds.len() {
        let kind = kinds[line.row.kind as int];
        &&& line.info matches Some(info) && info@ == kind
        &&& line.category == Some(kind.group.of())
        &&& line.label matches Some(label) && label@ == kind.label()
    } else {
        line.info is None && line.category is None && line.label is None
    }
    &&& if line.row.peer != NO_PEER && line.row.peer < peers.len() {
        line.peer matches Some(peer) && peer@ == peers[line.row.peer as int]
    } else {
        line.peer is None
    }
}

/// The line of a row, if there is one.
fn event_row<'a>(analysis: &'a Analysis, index: u32) -> (line: Option<EventLine<'a>>)
    requires
        analysis.wf(),
    ensures
        line is Some <==> index < analysis.store@.events.len(),
        line matches Some(line) ==> is_line_of(
            line,
            index,
            analysis.store@,
            analysis.kinds@,
            analysis.peers@.peers,
        ),
{
    let row = match analysis.store.row(index) {
        Some(row) => row,
        None => {
            return None;
        },
    };
    let info = analysis.kinds.get(row.kind);
    let category: Option<Category> = match info {
        Some(info) => Some(info.category()),
        None => None,
    };
    let label: Option<String> = match info {
        Some(info) => Some(info.label()),
        None => None,
    };
    let peer: Option<&'a PeerStats> = if row.peer != NO_PEER {
        analysis.peers.at(row.peer)
    } else {
        None
    };
    Some(EventLine { row, info, category, label, peer, inbound: row.inbound() })
}

/// The rows among these that the store can produce.
pub open spec fn existing(rows: Seq<u32>, len: int) -> Seq<u32>
    decreases rows.len(),
{
    if rows.len() == 0 {
        Seq::empty()
    } else if rows.last() < len {
        existing(rows.drop_last(), len).push(rows.last())
    } else {
        existing(rows.drop_last(), len)
    }
}

/// A page of the raw event table.
#[derive(Debug)]
pub struct EventPage<'a> {
    pub total: usize,
    pub offset: usize,
    pub rows: Vec<EventLine<'a>>,
}

/// Whether these are the lines of these rows, as far as the store can produce them.
pub open spec fn are_lines_of(
    lines: Seq<EventLine<'_>>,
    rows: Seq<u32>,
    store: Retention,
    kinds: Seq<EventKind>,
    peers: Seq<Peer>,
) -> bool {
    let there = existing(rows, store.events.len() as int);
    &&& lines.len() == there.len()
    &&& forall|i: int|
        0 <= i < lines.len() ==> is_line_of(#[trigger] lines[i], there[i], store, kinds, peers)
}

/// The lines of some rows.
fn lines_of<'a>(analysis: &'a Analysis, rows: &Vec<u32>) -> (lines: Vec<EventLine<'a>>)
    requires
        analysis.wf(),
    ensures
        are_lines_of(
            lines@,
            rows@,
            analysis.store@,
            analysis.kinds@,
            analysis.peers@.peers,
        ),
{
    let mut lines: Vec<EventLine<'a>> = Vec::new();
    let ghost len = analysis.store@.events.len() as int;
    let mut i: usize = 0;
    while i < rows.len()
        invariant
            i <= rows@.len(),
            analysis.wf(),
            len == analysis.store@.events.len(),
            are_lines_of(
                lines@,
                rows@.take(i as int),
                analysis.store@,
                analysis.kinds@,
                analysis.peers@.peers,
            ),
        decreases rows@.len() - i,
    {
        assert(rows@.take(i + 1).drop_last() =~= rows@.take(i as int));
        assert(rows@.take(i + 1).last() == rows@[i as int]);
        if let Some(line) = event_row(analysis, rows[i]) {
            lines.push(line);
        }
        i = i + 1;
    }
    assert(rows@.take(i as int) =~= rows@);
    lines
}

/// A page of the raw event table.
pub fn query<'a>(
    analysis: &'a Analysis,
    cache: &mut QueryCache,
    filter: &Filter,
    offset: usize,
    limit: usize,
) -> (page: EventPage<'a>)
    requires
        analysis.wf(),
    ensures
        final(cache)@ == old(cache)@.refreshed(filter@, *analysis),
        page.total == final(cache)@.total,
        page.offset == offset,
        are_lines_of(
            page.rows@,
            order::page_of(
                final(cache)@.listed(analysis.store@.events),
                offset as int,
                limit as int,
            ),
            analysis.store@,
            analysis.kinds@,
            analysis.peers@.peers,
        ),
{
    cache.refresh(analysis, filter);
    let rows = cache.page(analysis, offset, limit);
    EventPage { total: cache.total, offset, rows: lines_of(analysis, &rows) }
}

/// A page of the sequence diagram: the same rows [`query`] returns, plus the
/// request/reply ties among them.
#[derive(Debug)]
pub struct Sequence<'a> {
    pub total: usize,
    pub offset: usize,
    pub rows: Vec<EventLine<'a>>,
    /// Ties are positions within `rows`, so the caller can draw them without
    /// looking anything up.
    pub ties: Vec<Tie>,
}

/// The message a line stands for in a conversation.
pub open spec fn is_turn_of(turn: Turn<'_>, line: EventLine<'_>) -> bool {
    &&& turn.peer == line.row.peer
    &&& turn.command@ == (match line.info {
        Some(info) => info@.name,
        None => ""@,
    })
    &&& turn.inbound == line.inbound
    &&& turn.timestamp == line.row.timestamp
}

/// Whether these are the messages some lines stand for.
pub open spec fn are_turns_of(turns: Seq<Turn<'_>>, lines: Seq<EventLine<'_>>) -> bool {
    &&& turns.len() == lines.len()
    &&& forall|i: int| 0 <= i < lines.len() ==> is_turn_of(#[trigger] turns[i], lines[i])
}

/// Whether these are the ties among the messages some lines stand for.
pub open spec fn are_ties_among(ties: Seq<Tie>, lines: Seq<EventLine<'_>>) -> bool {
    exists|turns: Seq<Turn<'_>>| #[trigger]
        are_turns_of(turns, lines) && ties == exchange::ties_among(turns, turns.len() as int)
}

/// The ties among the messages some lines stand for.
fn tie<'a>(lines: &Vec<EventLine<'a>>) -> (ties: Vec<Tie>)
    ensures
        are_ties_among(ties@, lines@),
{
    let mut turns: Vec<Turn<'a>> = Vec::new();
    let mut i: usize = 0;
    while i < lines.len()
        invariant
            i <= lines@.len(),
            turns@.len() == i,
            forall|k: int| 0 <= k < i ==> is_turn_of(#[trigger] turns@[k], lines@[k]),
        decreases lines@.len() - i,
    {
        let line = &lines[i];
        let command: &'a str = match line.info {
            Some(info) => info.name.as_str(),
            None => "",
        };
        turns.push(
            Turn {
                peer: line.row.peer,
                command,
                inbound: line.inbound,
                timestamp: line.row.timestamp,
            },
        );
        i = i + 1;
    }
    assert(are_turns_of(turns@, lines@));
    exchange::match_turns(turns.as_slice())
}

/// A page of the sequence diagram: the same rows [`query`] returns, plus the
/// request/reply ties among them.
///
/// Ties are matched only within the page: an exchange whose request and reply fall
/// either side of a page boundary is not reported. See [`crate::exchange`] for what
/// a tie does and does not prove.
pub fn sequence<'a>(
    analysis: &'a Analysis,
    cache: &mut QueryCache,
    filter: &Filter,
    offset: usize,
    limit: usize,
) -> (page: Sequence<'a>)
    requires
        analysis.wf(),
    ensures
        final(cache)@ == old(cache)@.refreshed(filter@, *analysis),
        page.total == final(cache)@.total,
        page.offset == offset,
        are_lines_of(
            page.rows@,
            order::page_of(
                final(cache)@.listed(analysis.store@.events),
                offset as int,
                limit as int,
            ),
            analysis.store@,
            analysis.kinds@,
            analysis.peers@.peers,
        ),
        are_ties_among(page.ties@, page.rows@),
{
    cache.refresh(analysis, filter);
    let rows = cache.page(analysis, offset, limit);
    let lines = lines_of(analysis, &rows);
    let ties = tie(&lines);
    Sequence { total: cache.total, offset, rows: lines, ties }
}

/// A scan finds exactly the rows asked for, each once and in the order of the
/// events.
pub proof fn law_a_scan_finds_exactly_what_was_asked_for(
    asked: Asked,
    kinds: Seq<EventKind>,
    peers: Seq<Peer>,
    events: Seq<Retained>,
    upto: int,
)
    requires
        0 <= upto <= events.len(),
        upto <= u32::MAX + 1,
    ensures
        ({
            let rows = matching(asked, kinds, peers, events, upto);
            &&& forall|i: int|
                0 <= i < rows.len() ==> (#[trigger] rows[i]) < upto && passes(
                    asked,
                    kinds,
                    peers,
                    events[rows[i] as int],
                )
            &&& forall|i: int, j: int|
                #![trigger rows[i], rows[j]]
                0 <= i < j < rows.len() ==> rows[i] < rows[j]
            &&& forall|row: int|
                0 <= row < upto && passes(asked, kinds, peers, #[trigger] events[row])
                    ==> rows.contains(row as u32)
        }),
    decreases upto,
{
    if upto > 0 {
        law_a_scan_finds_exactly_what_was_asked_for(asked, kinds, peers, events, upto - 1);
        let before = matching(asked, kinds, peers, events, upto - 1);
        let rows = matching(asked, kinds, peers, events, upto);
        assert forall|row: int|
            0 <= row < upto && passes(asked, kinds, peers, #[trigger] events[row]) implies rows.contains(
            row as u32,
        ) by {
            if row < upto - 1 {
                let i = choose|i: int| 0 <= i < before.len() && before[i] == row as u32;
                assert(rows[i] == row as u32);
            } else {
                assert(rows[rows.len() - 1] == row as u32);
            }
        }
    }
}

/// The peers of an event are those its filter lists, wherever in the list they stand: an
/// event of a known peer passes a filter that only lists peers if and only if the list
/// has the id of that peer in it, or nothing. An event that is about no peer, or about
/// one nobody knows, passes only where no peer is listed.
pub proof fn law_a_listed_peer_is_found(
    peer_ids: Seq<u64>,
    kinds: Seq<EventKind>,
    directory: Directory,
    event: Retained,
)
    requires
        directory.valid(),
    ensures
        ({
            let asked = Asked { peer_ids, ..Asked::anything() };
            let peers = directory.peers;
            &&& passes(asked, kinds, peers, event) <==> peer_ids.len() == 0 || (event.peer
                != u32::MAX && event.peer < peers.len() && peer_ids.contains(
                peers[event.peer as int].peer_id,
            ))
        }),
{
    lemma_by_peer(Asked { peer_ids, ..Asked::anything() }, directory, event);
}

/// Whether an event is about one of the peers asked for, said of their ids.
proof fn lemma_by_peer(asked: Asked, directory: Directory, event: Retained)
    requires
        directory.valid(),
    ensures
        by_peer(asked, directory.peers, event) <==> event.peer != u32::MAX && event.peer
            < directory.peers.len() && asked.peer_ids.contains(
            directory.peers[event.peer as int].peer_id,
        ),
{
    let peers = directory.peers;
    let ids = asked.peer_ids;
    if by_peer(asked, peers, event) {
        let i = choose|i: int|
            0 <= i < ids.len() && #[trigger] index_of(peers, ids[i]) == event.peer;
        let at = peers::place(peers, ids[i])->0;
        assert(exists|at: int| peers::stands_at(peers, ids[i], at));
        assert(peers::stands_at(peers, ids[i], at));
        assert(peers[at].index == at);
        assert(ids[i] == peers[event.peer as int].peer_id);
    }
    if event.peer != u32::MAX && event.peer < peers.len() && ids.contains(
        peers[event.peer as int].peer_id,
    ) {
        let at = event.peer as int;
        let i = choose|i: int| 0 <= i < ids.len() && ids[i] == peers[at].peer_id;
        assert(peers::stands_at(peers, ids[i], at));
        peers::lemma_place(directory, ids[i], at);
        assert(peers[at].index == at);
        assert(index_of(peers, ids[i]) == event.peer);
    }
}

/// A row is found if and only if its event is in the time asked for, both ends with it,
/// is about one of the peers listed, is of one of the kinds or of one of the groups
/// listed, and has the text asked for in its kind or in the address of its peer, whatever
/// their case. What is not asked for constrains nothing.
pub proof fn law_a_row_is_found_where_every_constraint_holds(
    asked: Asked,
    kinds: Seq<EventKind>,
    directory: Directory,
    events: Seq<Retained>,
    upto: int,
    row: u32,
)
    requires
        directory.valid(),
        0 <= upto <= events.len(),
        upto <= u32::MAX + 1,
    ensures
        matching(asked, kinds, directory.peers, events, upto).contains(row) <==> row < upto && {
            let event = events[row as int];
            let peers = directory.peers;
            let known = event.peer != u32::MAX && event.peer < peers.len();
            let needle = text::lowercase(asked.text);
            &&& match asked.time_from {
                Some(from) => from <= event.timestamp,
                None => true,
            }
            &&& match asked.time_to {
                Some(to) => event.timestamp <= to,
                None => true,
            }
            &&& asked.peer_ids.len() == 0 || known && asked.peer_ids.contains(
                peers[event.peer as int].peer_id,
            )
            &&& asked.kinds.len() == 0 && asked.groups.len() == 0 || event.kind < kinds.len() && (
            asked.kinds.contains(event.kind) || asked.groups.contains(
                kinds[event.kind as int].group.text(),
            ))
            &&& asked.text.len() == 0 || needle.len() == 0 || (event.kind < kinds.len() && exists|
                at: int,
            |
                0 <= at && #[trigger] slice_is(
                    text::lowercase(kinds[event.kind as int].name),
                    at,
                    needle,
                )) || (known && peers[event.peer as int].addr is Some && exists|at: int|
                0 <= at && #[trigger] slice_is(
                    text::lowercase(peers[event.peer as int].addr->0),
                    at,
                    needle,
                ))
        },
{
    let peers = directory.peers;
    let rows = matching(asked, kinds, peers, events, upto);
    law_a_scan_finds_exactly_what_was_asked_for(asked, kinds, peers, events, upto);
    if rows.contains(row) {
        let i = choose|i: int| 0 <= i < rows.len() && rows[i] == row;
        assert(rows[i] < upto);
    }
    if row < upto {
        let event = events[row as int];
        let needle = text::lowercase(asked.text);
        lemma_by_peer(asked, directory, event);
        assert(passes(asked, kinds, peers, event) <==> rows.contains(row));
        if event.kind < kinds.len() {
            lemma_slices(text::lowercase(kinds[event.kind as int].name), needle);
        }
        if event.peer < peers.len() && peers[event.peer as int].addr is Some {
            lemma_slices(text::lowercase(peers[event.peer as int].addr->0), needle);
        }
    }
}

/// Whether the text has the needle in it from `at` on, letter by letter.
pub open spec fn slice_is(text: Seq<char>, at: int, needle: Seq<char>) -> bool {
    at + needle.len() <= text.len() && forall|i: int|
        0 <= i < needle.len() ==> #[trigger] needle[i] == text[at + i]
}

/// To occur in a text is to be a slice of it.
proof fn lemma_slices(text: Seq<char>, needle: Seq<char>)
    ensures
        text::occurs_in(needle, text) <==> exists|at: int|
            0 <= at && #[trigger] slice_is(text, at, needle),
{
    if text::occurs_in(needle, text) {
        let at = choose|at: int| #[trigger] text::occurs_at(needle, text, at);
        assert(slice_is(text, at, needle)) by {
            assert forall|i: int| 0 <= i < needle.len() implies #[trigger] needle[i] == text[at
                + i] by {
                assert(text.subrange(at, at + needle.len())[i] == text[at + i]);
            }
        }
    }
    if exists|at: int| 0 <= at && #[trigger] slice_is(text, at, needle) {
        let at = choose|at: int| 0 <= at && #[trigger] slice_is(text, at, needle);
        assert(text.subrange(at, at + needle.len()) =~= needle);
        assert(text::occurs_at(needle, text, at));
    }
}

/// Asking for more peers finds more: the rows found for two lists of peers together are
/// those found for the one list or for the other, whatever else is asked for.
pub proof fn law_more_peers_find_more(
    asked: Asked,
    one: Seq<u64>,
    other: Seq<u64>,
    kinds: Seq<EventKind>,
    directory: Directory,
    events: Seq<Retained>,
    upto: int,
    row: u32,
)
    requires
        directory.valid(),
        0 <= upto <= events.len(),
        upto <= u32::MAX + 1,
        one.len() > 0,
        other.len() > 0,
    ensures
        ({
            let peers = directory.peers;
            let both = Asked { peer_ids: one + other, ..asked };
            let first = Asked { peer_ids: one, ..asked };
            let second = Asked { peer_ids: other, ..asked };
            matching(both, kinds, peers, events, upto).contains(row) <==> matching(
                first,
                kinds,
                peers,
                events,
                upto,
            ).contains(row) || matching(second, kinds, peers, events, upto).contains(row)
        }),
{
    let both = Asked { peer_ids: one + other, ..asked };
    let first = Asked { peer_ids: one, ..asked };
    let second = Asked { peer_ids: other, ..asked };
    law_a_row_is_found_where_every_constraint_holds(both, kinds, directory, events, upto, row);
    law_a_row_is_found_where_every_constraint_holds(first, kinds, directory, events, upto, row);
    law_a_row_is_found_where_every_constraint_holds(second, kinds, directory, events, upto, row);
    if row < upto && events[row as int].peer < directory.peers.len() {
        let id = directory.peers[events[row as int].peer as int].peer_id;
        if one.contains(id) {
            let i = choose|i: int| 0 <= i < one.len() && one[i] == id;
            assert((one + other)[i] == id);
        }
        if other.contains(id) {
            let i = choose|i: int| 0 <= i < other.len() && other[i] == id;
            assert((one + other)[one.len() + i] == id);
        }
    }
}

/// What a filter asks for that constrains nothing.
pub open spec fn unconstrained() -> Asked {
    Asked {
        kinds: Seq::empty(),
        groups: Seq::empty(),
        peer_ids: Seq::empty(),
        time_from: None,
        time_to: None,
        text: Seq::empty(),
    }
}

/// Combining constraints narrows: an event that passes a filter passes it with any
/// of its constraints left out, and with none left every event passes.
pub proof fn law_constraints_narrow(
    asked: Asked,
    kinds: Seq<EventKind>,
    peers: Seq<Peer>,
    event: Retained,
)
    requires
        passes(asked, kinds, peers, event),
    ensures
        passes(Asked { time_from: None, ..asked }, kinds, peers, event),
        passes(Asked { time_to: None, ..asked }, kinds, peers, event),
        passes(Asked { peer_ids: Seq::empty(), ..asked }, kinds, peers, event),
        passes(
            Asked { kinds: Seq::empty(), groups: Seq::empty(), ..asked },
            kinds,
            peers,
            event,
        ),
        passes(Asked { text: Seq::empty(), ..asked }, kinds, peers, event),
        forall|any: Retained| #[trigger] passes(unconstrained(), kinds, peers, any),
{
    if asked.peer_ids.len() > 0 {
        let i = choose|i: int|
            0 <= i < asked.peer_ids.len() && #[trigger] index_of(peers, asked.peer_ids[i])
                == event.peer;
        let without = Asked { time_from: None, ..asked };
        assert(index_of(peers, without.peer_ids[i]) == event.peer);
        let open = Asked { time_to: None, ..asked };
        assert(index_of(peers, open.peer_ids[i]) == event.peer);
        let any = Asked { kinds: Seq::empty(), groups: Seq::empty(), ..asked };
        assert(index_of(peers, any.peer_ids[i]) == event.peer);
        let silent = Asked { text: Seq::empty(), ..asked };
        assert(index_of(peers, silent.peer_ids[i]) == event.peer);
    }
}

/// The cache never serves stale rows when the filter changes or more events arrive,
/// and what it does serve again is what a scan would find again.
pub proof fn law_the_cache_is_not_stale(
    cache: Remembered,
    asked: Asked,
    analysis: Analysis,
)
    ensures
        cache.asked != Some(asked) ==> cache.refreshed(asked, analysis) == Remembered::of(
            asked,
            analysis,
        ),
        cache.built_at_len != analysis.store@.events.len() ==> cache.refreshed(asked, analysis)
            == Remembered::of(asked, analysis),
        cache == Remembered::of(asked, analysis) ==> cache.refreshed(asked, analysis)
            == Remembered::of(asked, analysis),
        Remembered::blank().refreshed(asked, analysis) == Remembered::of(asked, analysis),
{
}

} // verus!
