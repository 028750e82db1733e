//! How long connections lasted, and what the peers call themselves.

use crate::analysis::Analysis;
use crate::history;
use crate::history::Recording;
use crate::latency;
use crate::latency::{Distribution, Latencies};
use crate::order;
use crate::peers;
use crate::peers::{Directory, Durations, Peer, CONN_TYPES};
use crate::text;
use crate::view::distribution;
use crate::view::distribution::LatencyView;
use crate::view::rows;
use vstd::prelude::*;

verus! {

/// How long connections of one type lasted.
#[derive(Debug)]
pub struct DurationRow {
    pub conn_type: &'static str,
    /// How many ended by being closed.
    pub closed: u64,
    /// How many ended by being evicted.
    pub evicted: u64,
    pub durations: LatencyView,
}

/// How long connections lasted, by type.
#[derive(Debug)]
pub struct ConnectionDurationsView {
    /// How many connections these are.
    pub connections: u64,
    /// Whether the archive shows any connection's end at all.
    pub any: bool,
    /// A type this node never had is left out rather than drawn empty.
    pub rows: Vec<DurationRow>,
}

/// The connections of one type that ended as asked: `closed`, `evicted`, or either
/// way.
pub open spec fn population(durations: Durations, ending: Seq<char>, slot: int) -> Distribution {
    if ending == "closed"@ {
        durations.closed[slot]
    } else if ending == "evicted"@ {
        durations.evicted[slot]
    } else {
        durations.closed[slot].merged(durations.evicted[slot])
    }
}

/// Which connection types have any connections that ended as asked.
pub open spec fn occurring(durations: Durations, ending: Seq<char>) -> Seq<bool> {
    Seq::new(CONN_TYPES as nat, |slot: int| population(durations, ending, slot).count > 0)
}

/// How many connections ended as asked, of the first types.
pub open spec fn connections(durations: Durations, ending: Seq<char>, upto: int) -> nat
    decreases upto,
{
    if upto <= 0 {
        0
    } else {
        connections(durations, ending, upto - 1) + population(durations, ending, upto - 1).count
            as nat
    }
}

/// Whether this is the line of a connection type.
pub open spec fn is_duration_row(
    row: DurationRow,
    durations: Durations,
    ending: Seq<char>,
    slot: int,
) -> bool {
    &&& row.conn_type@ == rows::conn_type_text(slot as i32)
    &&& row.closed == durations.closed[slot].count
    &&& row.evicted == durations.evicted[slot].count
    &&& distribution::lays_out(row.durations, population(durations, ending, slot))
}

/// The connections of one type that ended as asked.
fn population_of(analysis: &Analysis, ending: &str, slot: usize) -> (found: Latencies)
    requires
        slot < CONN_TYPES,
    ensures
        found@ == population(analysis.peers@.durations, ending@, slot as int),
{
    let durations = analysis.peers.durations();
    if text::same(ending, "closed") {
        *durations.closed(slot)
    } else if text::same(ending, "evicted") {
        *durations.evicted(slot)
    } else {
        durations.all(slot)
    }
}

/// How long connections lasted, one distribution per connection type. `ending` is
/// `closed` or `evicted` for those that ended that way, anything else for all.
pub fn connection_durations(analysis: &Analysis, ending: &str) -> (view: ConnectionDurationsView)
    ensures
        ({
            let durations = analysis.peers@.durations;
            let listed = order::picked(occurring(durations, ending@));
            &&& view.connections == latency::capped(
                connections(durations, ending@, CONN_TYPES as int) as int,
                0,
            )
            &&& view.any == !durations.blank()
            &&& view.rows@.len() == listed.len()
            &&& forall|i: int|
                0 <= i < listed.len() ==> is_duration_row(
                    #[trigger] view.rows@[i],
                    durations,
                    ending@,
                    listed[i] as int,
                )
        }),
{
    let ghost durations = analysis.peers@.durations;
    let mut total: u64 = 0;
    let mut rows: Vec<DurationRow> = Vec::new();
    let ghost wanted = occurring(durations, ending@);
    let mut slot: usize = 0;
    while slot < CONN_TYPES
        invariant
            slot <= CONN_TYPES,
            durations == analysis.peers@.durations,
            wanted == occurring(durations, ending@),
            total == latency::capped(
                connections(durations, ending@, slot as int) as int,
                0,
            ),
            rows@.len() == order::picked(wanted.take(slot as int)).len(),
            forall|i: int|
                0 <= i < rows@.len() ==> is_duration_row(
                    #[trigger] rows@[i],
                    durations,
                    ending@,
                    order::picked(wanted.take(slot as int))[i] as int,
                ),
        decreases CONN_TYPES - slot,
    {
        assert(wanted.take(slot + 1).drop_last() =~= wanted.take(slot as int));
        assert(wanted.take(slot + 1).last() == wanted[slot as int]);
        let found = population_of(analysis, ending, slot);
        total = total.saturating_add(found.count());
        if found.count() > 0 {
            let ends = analysis.peers.durations();
            rows.push(
                DurationRow {
                    conn_type: rows::conn_type_name(slot as i32),
                    closed: ends.closed(slot).count(),
                    evicted: ends.evicted(slot).count(),
                    durations: distribution::latencies(&found),
                },
            );
        }
        slot = slot + 1;
    }
    assert(wanted.take(slot as int) =~= wanted);
    ConnectionDurationsView {
        connections: total,
        any: !analysis.peers.durations().is_empty(),
        rows,
    }
}

/// What the peers call themselves.
#[derive(Debug)]
pub struct UserAgents<'a> {
    /// How many different names there are.
    pub distinct: usize,
    /// How many peers named themselves.
    pub named: u64,
    /// How many never did.
    pub unknown: u64,
    pub peers: usize,
    /// The commonest names first, with how many peers go by each.
    pub rows: Vec<(&'a str, u64)>,
}

/// How many peers some names cover.
pub open spec fn covered(rows: Seq<(Seq<char>, u64)>) -> nat
    decreases rows.len(),
{
    if rows.len() == 0 {
        0
    } else {
        covered(rows.drop_last()) + rows.last().1 as nat
    }
}

/// Some names, as text.
pub open spec fn spelled(rows: Seq<(&str, u64)>) -> Seq<(Seq<char>, u64)> {
    Seq::new(rows.len(), |i: int| (rows[i].0@, rows[i].1))
}

/// What the peers call themselves, the commonest names first.
pub fn user_agents<'a>(analysis: &'a Analysis, limit: usize) -> (view: UserAgents<'a>)
    requires
        analysis.wf(),
    ensures
        exists|listed: Seq<(Seq<char>, u64)>|
            {
                &&& #[trigger] peers::agents_listed(
                    peers::agents_in_use(analysis.peers@, analysis.peers@.agents.len() as int),
                    listed,
                )
                &&& view.distinct == listed.len()
                &&& spelled(view.rows@) == order::page_of(listed, 0, limit as int)
            },
        view.peers == analysis.peers@.peers.len(),
        view.named == named_among(analysis.peers@.peers),
        view.unknown == view.peers - view.named,
{
    let agents = analysis.peers.user_agent_counts();
    let ghost listed = spelled(agents@);
    let mut named: u64 = 0;
    let mut i: usize = 0;
    while i < agents.len()
        invariant
            i <= agents@.len(),
            listed == spelled(agents@),
            named == latency::capped(covered(listed.take(i as int)) as int, 0),
        decreases agents@.len() - i,
    {
        assert(listed.take(i + 1).drop_last() =~= listed.take(i as int));
        named = named.saturating_add(agents[i].1);
        i = i + 1;
    }
    assert(listed.take(i as int) =~= listed);
    proof {
        peers::law_a_peer_table_is_valid(analysis.peers);
        law_every_named_peer_is_covered_once(analysis.peers@, listed);
        lemma_named_among(analysis.peers@.peers);
    }
    let distinct: usize = agents.len();
    let (start, end) = order::page_bounds(distinct, 0, limit);
    let mut rows: Vec<(&'a str, u64)> = Vec::new();
    let mut k: usize = 0;
    while k < end
        invariant
            k <= end <= agents@.len(),
            listed == spelled(agents@),
            spelled(rows@) == listed.take(k as int),
        decreases end - k,
    {
        let ghost before = rows@;
        rows.push(agents[k]);
        assert(spelled(rows@) =~= spelled(before).push(listed[k as int]));
        k = k + 1;
        assert(spelled(rows@) =~= listed.take(k as int));
    }
    assert(listed.take(k as int) =~= order::page_of(listed, 0, limit as int));
    let peers: usize = analysis.peers.len();
    UserAgents {
        distinct,
        named,
        unknown: (peers as u64).saturating_sub(named),
        peers,
        rows,
    }
}

/// How many of some peers named themselves.
pub open spec fn named_among(peers: Seq<Peer>) -> nat
    decreases peers.len(),
{
    if peers.len() == 0 {
        0
    } else {
        named_among(peers.drop_last()) + if peers.last().user_agent is Some {
            1nat
        } else {
            0nat
        }
    }
}

proof fn lemma_named_among(peers: Seq<Peer>)
    ensures
        named_among(peers) <= peers.len(),
    decreases peers.len(),
{
    if peers.len() > 0 {
        lemma_named_among(peers.drop_last());
    }
}

/// How many of some peers go by any of the first `upto` names.
spec fn tally(peers: Seq<Peer>, upto: int) -> nat
    decreases upto,
{
    if upto <= 0 {
        0
    } else {
        tally(peers, upto - 1) + peers::agent_count(peers, upto - 1)
    }
}

proof fn lemma_tally_of_nobody(upto: int)
    ensures
        tally(Seq::empty(), upto) == 0,
    decreases upto,
{
    if upto > 0 {
        lemma_tally_of_nobody(upto - 1);
    }
}

proof fn lemma_tally_steps(peers: Seq<Peer>, upto: int)
    requires
        peers.len() > 0,
    ensures
        tally(peers, upto) == tally(peers.drop_last(), upto) + if peers.last().user_agent matches Some(
            id,
        ) && id < upto {
            1nat
        } else {
            0nat
        },
    decreases upto,
{
    if upto > 0 {
        lemma_tally_steps(peers, upto - 1);
    }
}

proof fn lemma_tally(peers: Seq<Peer>, upto: int)
    requires
        forall|i: int|
            0 <= i < peers.len() ==> ((#[trigger] peers[i]).user_agent matches Some(id) ==> id
                < upto),
    ensures
        tally(peers, upto) == named_among(peers),
    decreases peers.len(),
{
    if peers.len() == 0 {
        assert(peers =~= Seq::empty());
        lemma_tally_of_nobody(upto);
    } else {
        let rest = peers.drop_last();
        assert forall|i: int| 0 <= i < rest.len() implies ((#[trigger] rest[i]).user_agent matches Some(
            id,
        ) ==> id < upto) by {
            assert(rest[i] == peers[i]);
        }
        assert(peers.last() == peers[peers.len() - 1]);
        lemma_tally(rest, upto);
        lemma_tally_steps(peers, upto);
    }
}

proof fn lemma_agent_count(peers: Seq<Peer>, id: int)
    ensures
        peers::agent_count(peers, id) <= peers.len(),
    decreases peers.len(),
{
    if peers.len() > 0 {
        lemma_agent_count(peers.drop_last(), id);
    }
}

proof fn lemma_in_use(directory: Directory, upto: int)
    requires
        directory.valid(),
    ensures
        covered(peers::agents_in_use(directory, upto)) == tally(directory.peers, upto),
    decreases upto,
{
    if upto > 0 {
        lemma_in_use(directory, upto - 1);
        lemma_agent_count(directory.peers, upto - 1);
        let rows = peers::agents_in_use(directory, upto - 1);
        let more = peers::agents_in_use(directory, upto);
        if more != rows {
            assert(more.drop_last() =~= rows);
        }
    }
}

proof fn lemma_covered_without(rows: Seq<(Seq<char>, u64)>, at: int)
    requires
        0 <= at < rows.len(),
    ensures
        covered(rows) == covered(rows.remove(at)) + rows[at].1,
    decreases rows.len(),
{
    if at == rows.len() - 1 {
        assert(rows.remove(at) =~= rows.drop_last());
    } else {
        lemma_covered_without(rows.drop_last(), at);
        assert(rows.remove(at).drop_last() =~= rows.drop_last().remove(at));
        assert(rows.remove(at).last() == rows.last());
    }
}

/// Listing rows in another order covers the same peers.
proof fn lemma_covered_rearranged(rows: Seq<(Seq<char>, u64)>, order: Seq<usize>)
    requires
        order.len() == rows.len(),
        order.no_duplicates(),
        forall|i: int| 0 <= i < order.len() ==> #[trigger] order[i] < rows.len(),
        rows.len() <= usize::MAX,
    ensures
        covered(Seq::new(rows.len(), |i: int| rows[order[i] as int])) == covered(rows),
    decreases rows.len(),
{
    let listed = Seq::new(rows.len(), |i: int| rows[order[i] as int]);
    if rows.len() > 0 {
        let last = (rows.len() - 1) as usize;
        order::lemma_every_position(order, last);
        let at = choose|i: int| 0 <= i < order.len() && order[i] == last;
        let rest = rows.drop_last();
        let others = order.remove(at);
        assert forall|i: int| 0 <= i < others.len() implies #[trigger] others[i] < rest.len() by {
            let from = if i < at {
                i
            } else {
                i + 1
            };
            assert(others[i] == order[from]);
            assert(order[from] != order[at]);
        }
        assert(others.no_duplicates()) by {
            assert forall|i: int, j: int|
                0 <= i < others.len() && 0 <= j < others.len() && i != j implies others[i]
                != others[j] by {
                let a = if i < at {
                    i
                } else {
                    i + 1
                };
                let b = if j < at {
                    j
                } else {
                    j + 1
                };
                assert(order[a] != order[b]);
            }
        }
        lemma_covered_rearranged(rest, others);
        lemma_covered_without(listed, at);
        assert(listed.remove(at) =~= Seq::new(rest.len(), |i: int| rest[others[i] as int]));
    } else {
        assert(listed =~= rows);
    }
}

/// Every peer that named itself is counted once: the names cover exactly the peers
/// that go by one.
pub proof fn law_every_named_peer_is_covered_once(
    directory: Directory,
    listed: Seq<(Seq<char>, u64)>,
)
    requires
        directory.valid(),
        peers::agents_listed(
            peers::agents_in_use(directory, directory.agents.len() as int),
            listed,
        ),
    ensures
        covered(listed) == named_among(directory.peers),
{
    let names = directory.agents.len() as int;
    let rows = peers::agents_in_use(directory, names);
    lemma_in_use(directory, names);
    lemma_tally(directory.peers, names);
    let order = choose|order: Seq<usize>| #[trigger]
        peers::busiest_first(rows, order) && listed == Seq::new(
            rows.len(),
            |i: int| rows[order[i] as int],
        );
    assert(order.no_duplicates()) by {
        assert forall|i: int, j: int|
            0 <= i < order.len() && 0 <= j < order.len() && i != j implies order[i]
            != order[j] by {
            let (a, b) = if i < j {
                (i, j)
            } else {
                (j, i)
            };
            assert(peers::busier(rows, order[a] as int, order[b] as int));
            text::lemma_before(
                rows[order[a] as int].0,
                rows[order[b] as int].0,
                rows[order[a] as int].0,
            );
        }
    }
    lemma_rows_in_use(directory, names);
    lemma_covered_rearranged(rows, order);
}

/// How many of some peers go by a name.
pub open spec fn called(directory: Directory, peers: Seq<Peer>, name: Seq<char>) -> nat
    decreases peers.len(),
{
    if peers.len() == 0 {
        0
    } else {
        called(directory, peers.drop_last(), name) + if peers.last().user_agent matches Some(id)
            && directory.agents[id as int] == name {
            1nat
        } else {
            0nat
        }
    }
}

/// A name is kept once, so going by it is going by its id.
proof fn lemma_called(directory: Directory, peers: Seq<Peer>, id: int)
    requires
        directory.agents.no_duplicates(),
        0 <= id < directory.agents.len(),
        forall|i: int|
            0 <= i < peers.len() ==> ((#[trigger] peers[i]).user_agent matches Some(of) ==> of
                < directory.agents.len()),
    ensures
        called(directory, peers, directory.agents[id]) == peers::agent_count(peers, id),
    decreases peers.len(),
{
    if peers.len() > 0 {
        let rest = peers.drop_last();
        assert forall|i: int| 0 <= i < rest.len() implies ((#[trigger] rest[i]).user_agent matches Some(
            of,
        ) ==> of < directory.agents.len()) by {
            assert(rest[i] == peers[i]);
        }
        assert(peers.last() == peers[peers.len() - 1]);
        lemma_called(directory, rest, id);
    }
}

/// The rows of the user agents in use have a name each, and how many go by it.
proof fn lemma_rows(directory: Directory, upto: int)
    requires
        directory.valid(),
        0 <= upto <= directory.agents.len(),
    ensures
        ({
            let rows = peers::agents_in_use(directory, upto);
            &&& forall|i: int|
                0 <= i < rows.len() ==> {
                    &&& (#[trigger] rows[i]).1 > 0
                    &&& rows[i].1 == called(directory, directory.peers, rows[i].0)
                    &&& exists|id: int| 0 <= id < upto && directory.agents[id] == rows[i].0
                }
            &&& forall|i: int, j: int|
                #![trigger rows[i], rows[j]]
                0 <= i < j < rows.len() ==> rows[i].0 != rows[j].0
        }),
    decreases upto,
{
    if upto > 0 {
        lemma_rows(directory, upto - 1);
        lemma_agent_count(directory.peers, upto - 1);
        assert forall|i: int| 0 <= i < directory.peers.len() implies ((
        #[trigger] directory.peers[i]).user_agent matches Some(of) ==> of
            < directory.agents.len()) by {}
        lemma_called(directory, directory.peers, upto - 1);
        let before = peers::agents_in_use(directory, upto - 1);
        let rows = peers::agents_in_use(directory, upto);
        assert forall|i: int| 0 <= i < rows.len() implies {
            &&& (#[trigger] rows[i]).1 > 0
            &&& rows[i].1 == called(directory, directory.peers, rows[i].0)
            &&& exists|id: int| 0 <= id < upto && directory.agents[id] == rows[i].0
        } by {
            if i < before.len() {
                assert(rows[i] == before[i]);
                let id = choose|id: int| 0 <= id < upto - 1 && directory.agents[id] == before[i].0;
                assert(directory.agents[id] == rows[i].0);
            } else {
                assert(directory.agents[upto - 1] == rows[i].0);
            }
        }
        assert forall|i: int, j: int|
            #![trigger rows[i], rows[j]]
            0 <= i < j < rows.len() implies rows[i].0 != rows[j].0 by {
            assert(rows[i] == before[i]);
            if j < before.len() {
                assert(rows[j] == before[j]);
            } else {
                let id = choose|id: int| 0 <= id < upto - 1 && directory.agents[id] == before[i].0;
                assert(directory.agents[id] != directory.agents[upto - 1]);
            }
        }
    }
}

/// After any run of recordings, the user agents are listed by how many peers go by them,
/// most first and by name where that is equal; every name is listed once, with how many
/// peers go by it, which is never none; and together they are all the peers that go by a
/// name.
pub proof fn law_user_agents_are_counted_by_name(
    run: Seq<Recording>,
    listed: Seq<(Seq<char>, u64)>,
)
    requires
        history::has_room(run),
        ({
            let directory = history::after(run);
            peers::agents_listed(
                peers::agents_in_use(directory, directory.agents.len() as int),
                listed,
            )
        }),
    ensures
        ({
            let directory = history::after(run);
            &&& forall|i: int|
                0 <= i < listed.len() ==> (#[trigger] listed[i]).1 > 0 && listed[i].1 == called(
                    directory,
                    directory.peers,
                    listed[i].0,
                )
            &&& forall|i: int, j: int|
                #![trigger listed[i], listed[j]]
                0 <= i < j < listed.len() ==> {
                    &&& listed[i].0 != listed[j].0
                    &&& listed[i].1 > listed[j].1 || listed[i].1 == listed[j].1 && text::before(
                        listed[i].0,
                        listed[j].0,
                    )
                }
            &&& covered(listed) == named_among(directory.peers)
        }),
{
    let directory = history::after(run);
    history::law_recordings_build_valid_directories(run);
    law_every_named_peer_is_covered_once(directory, listed);
    let names = directory.agents.len() as int;
    let rows = peers::agents_in_use(directory, names);
    lemma_rows(directory, names);
    let order = choose|order: Seq<usize>| #[trigger]
        peers::busiest_first(rows, order) && listed == Seq::new(
            rows.len(),
            |i: int| rows[order[i] as int],
        );
    assert forall|i: int, j: int|
        #![trigger listed[i], listed[j]]
        0 <= i < j < listed.len() implies {
        &&& listed[i].0 != listed[j].0
        &&& listed[i].1 > listed[j].1 || listed[i].1 == listed[j].1 && text::before(
            listed[i].0,
            listed[j].0,
        )
    } by {
        let (a, b) = (order[i] as int, order[j] as int);
        assert(peers::busier(rows, a, b));
        text::lemma_before(rows[a].0, rows[b].0, rows[a].0);
        if a < b {
            assert(rows[a].0 != rows[b].0);
        } else if b < a {
            assert(rows[b].0 != rows[a].0);
        }
    }
}

proof fn lemma_rows_in_use(directory: Directory, upto: int)
    requires
        0 <= upto,
    ensures
        peers::agents_in_use(directory, upto).len() <= upto,
    decreases upto,
{
    if upto > 0 {
        lemma_rows_in_use(directory, upto - 1);
    }
}

} // verus!
