//! Rasters of activity over time: one row per peer, or per command of one peer,
//! and one column per pixel, split by direction.
//!
//! A raster is built by scanning the retained events once, which is what makes it
//! exact: there is no per-peer-per-time aggregate kept while an archive is read,
//! and adding one would cost memory proportional to peers times bins for a view
//! most archives never open.
//!
//! Only *retained* events are in the store, so on an archive that exhausted its
//! retention budget this covers the part that was kept. The caller is told, and
//! says so.

use crate::analysis::Analysis;
use crate::kind::EventKind;
use crate::latency;
use crate::order;
use crate::peers;
use crate::peers::{CommandCounts, Directory, Lifecycle, LifecycleEvent, LifecycleKind, Peer, PeerStats};
use crate::store;
use crate::store::{EventStore, Retained, NO_PEER};
use crate::text;
use crate::view::filter;
use crate::view::filter::Filter;
use crate::view::rows;
use vstd::prelude::*;

verus! {

/// The most columns a raster has.
pub const MAX_COLUMNS: usize = 4096;

/// The time a raster covers, and how many columns it is cut into.
#[derive(Debug, Clone, Copy, PartialEq, Eq)]
pub struct Frame {
    pub start: u64,
    pub end: u64,
    pub columns: usize,
}

/// How many columns a raster has when `asked` are asked for.
pub open spec fn columns_for(asked: usize) -> usize {
    if asked < 1 {
        1
    } else if asked > MAX_COLUMNS {
        MAX_COLUMNS
    } else {
        asked
    }
}

impl Frame {
    pub open spec fn valid(self) -> bool {
        self.start <= self.end && 1 <= self.columns <= MAX_COLUMNS
    }

    /// Whether a moment is on the raster.
    pub open spec fn covers(self, timestamp: u64) -> bool {
        self.start <= timestamp <= self.end
    }

    /// How much time the columns divide. A single moment has no duration to
    /// divide and is all in the first.
    pub open spec fn span(self) -> int {
        if self.end > self.start {
            self.end - self.start
        } else {
            1
        }
    }

    /// The column a moment falls in. The very end belongs to the last one.
    pub open spec fn column(self, timestamp: u64) -> int {
        let at = (timestamp - self.start) * self.columns / self.span();
        if at < self.columns {
            at
        } else {
            self.columns - 1
        }
    }

    /// The column a moment falls in, if it is on the raster.
    pub open spec fn placed(self, timestamp: u64) -> Option<int> {
        if self.covers(timestamp) {
            Some(self.column(timestamp))
        } else {
            None
        }
    }

    /// The column a moment falls in, if it is on the raster.
    pub fn column_of(&self, timestamp: u64) -> (column: Option<usize>)
        requires
            self.valid(),
        ensures
            match column {
                Some(column) => self.placed(timestamp) == Some(column as int) && column
                    < self.columns && self.start <= timestamp <= self.end,
                None => self.placed(timestamp) is None && !(self.start <= timestamp <= self.end),
            },
            column matches Some(column) ==> {
                let width = self.end - self.start;
                let past = (timestamp - self.start) * self.columns;
                &&& timestamp < self.end ==> column * width <= past < (column + 1) * width
                &&& timestamp == self.end && width > 0 ==> column == self.columns - 1
                &&& width == 0 ==> column == 0
            },
    {
        proof {
            law_a_column_covers_its_slice_of_time(*self, timestamp);
        }
        if timestamp < self.start || timestamp > self.end {
            return None;
        }
        let span: u128 = if self.end > self.start {
            (self.end - self.start) as u128
        } else {
            1
        };
        let past: u128 = (timestamp - self.start) as u128;
        let columns: u128 = self.columns as u128;
        assert(0 <= past * columns <= 0x1_0000_0000_0000_0000 * 4096) by (nonlinear_arith)
            requires
                past <= 0xffff_ffff_ffff_ffff,
                columns <= 4096,
        ;
        assert(0 <= past * columns / span as int) by (nonlinear_arith)
            requires
                past * columns >= 0,
                span > 0,
        ;
        let at: u128 = past * columns / span;
        if at < columns {
            Some(at as usize)
        } else {
            Some(self.columns - 1)
        }
    }
}

/// Whose events a row shows: a peer's, or those of one kind among them.
#[derive(Debug, Clone, Copy, PartialEq, Eq)]
pub struct Who {
    /// Dense peer index.
    pub peer: u32,
    pub kind: Option<u16>,
}

impl Who {
    /// Whether an event is one of those the row shows.
    pub open spec fn takes(self, event: Retained) -> bool {
        &&& event.peer == self.peer
        &&& event.peer != NO_PEER
        &&& self.kind matches Some(kind) ==> event.kind == kind
    }
}

/// Whether an event stands in this cell. Only directed messages have a lane;
/// connection events are drawn from the lifecycle marks instead.
pub open spec fn falls(
    event: Retained,
    frame: Frame,
    who: Who,
    inbound: bool,
    column: int,
) -> bool {
    &&& who.takes(event)
    &&& frame.placed(event.timestamp) == Some(column)
    &&& store::direction(event.flags) == Some(inbound)
}

/// What an event adds to its cell.
pub open spec fn weight(event: Retained, by_bytes: bool) -> nat {
    if by_bytes {
        event.size as nat
    } else {
        1
    }
}

/// What the events of a cell come to.
pub open spec fn cell(
    events: Seq<Retained>,
    frame: Frame,
    who: Who,
    inbound: bool,
    column: int,
    by_bytes: bool,
) -> nat
    decreases events.len(),
{
    if events.len() == 0 {
        0
    } else {
        cell(events.drop_last(), frame, who, inbound, column, by_bytes) + if falls(
            events.last(),
            frame,
            who,
            inbound,
            column,
        ) {
            weight(events.last(), by_bytes)
        } else {
            0
        }
    }
}

/// One direction of a row: what each column comes to, held at `u64::MAX`.
pub open spec fn lane(
    events: Seq<Retained>,
    frame: Frame,
    who: Who,
    inbound: bool,
    by_bytes: bool,
) -> Seq<u64> {
    Seq::new(
        frame.columns as nat,
        |column: int|
            latency::capped(cell(events, frame, who, inbound, column, by_bytes) as int, 0),
    )
}

/// The columns of a lane with anything in them. A column with nothing in it is
/// most of them for most peers.
pub open spec fn occupied(lane: Seq<u64>) -> Seq<(usize, u64)>
    decreases lane.len(),
{
    if lane.len() == 0 {
        Seq::empty()
    } else if lane.last() > 0 {
        occupied(lane.drop_last()).push(((lane.len() - 1) as usize, lane.last()))
    } else {
        occupied(lane.drop_last())
    }
}

/// The greatest number in a lane.
pub open spec fn highest(lane: Seq<u64>) -> u64
    decreases lane.len(),
{
    if lane.len() == 0 {
        0
    } else {
        latency::greatest(highest(lane.drop_last()), lane.last())
    }
}

/// The greatest number in any lane of some rows.
pub open spec fn peak(
    events: Seq<Retained>,
    frame: Frame,
    shown: Seq<Who>,
    by_bytes: bool,
) -> u64
    decreases shown.len(),
{
    if shown.len() == 0 {
        0
    } else {
        latency::greatest(
            peak(events, frame, shown.drop_last(), by_bytes),
            latency::greatest(
                highest(lane(events, frame, shown.last(), true, by_bytes)),
                highest(lane(events, frame, shown.last(), false, by_bytes)),
            ),
        )
    }
}

/// A connection event on a raster.
#[derive(Debug, Clone, Copy, PartialEq, Eq)]
pub struct Mark {
    pub column: usize,
    pub kind: LifecycleKind,
    pub timestamp: u64,
}

/// The marks of a connection's events.
pub open spec fn marks(lifecycle: Seq<Lifecycle>, frame: Frame) -> Seq<Mark>
    decreases lifecycle.len(),
{
    if lifecycle.len() == 0 {
        Seq::empty()
    } else {
        let before = marks(lifecycle.drop_last(), frame);
        let event = lifecycle.last();
        match frame.placed(event.timestamp) {
            Some(column) => before.push(
                Mark { column: column as usize, kind: event.kind, timestamp: event.timestamp },
            ),
            None => before,
        }
    }
}

/// The marks of a peer's connection events.
fn marks_of(peer: &PeerStats, frame: &Frame) -> (list: Vec<Mark>)
    requires
        frame.valid(),
    ensures
        list@ == marks(peer@.lifecycle, *frame),
{
    let mut list: Vec<Mark> = Vec::new();
    let mut i: usize = 0;
    while i < peer.lifecycle.len()
        invariant
            i <= peer.lifecycle@.len(),
            frame.valid(),
            list@ == marks(peer@.lifecycle.take(i as int), *frame),
        decreases peer.lifecycle@.len() - i,
    {
        let event: &LifecycleEvent = &peer.lifecycle[i];
        assert(peer@.lifecycle.take(i + 1).drop_last() =~= peer@.lifecycle.take(i as int));
        assert(peer@.lifecycle.take(i + 1).last() == event@);
        if let Some(column) = frame.column_of(event.timestamp) {
            list.push(Mark { column, kind: event.kind, timestamp: event.timestamp });
        }
        i = i + 1;
    }
    assert(peer@.lifecycle.take(i as int) =~= peer@.lifecycle);
    list
}

/// Which row an event is shown in: looked up by its peer, or, for one peer's
/// events, by their kind. `usize::MAX` stands for no row.
enum Lookup {
    ByPeer(Vec<usize>),
    ByKind(u32, Vec<usize>),
}

impl Lookup {
    spec fn row(&self, peer: u32, kind: u16) -> Option<int> {
        let (table, at) = match self {
            Lookup::ByPeer(rows) => (rows@, peer as int),
            Lookup::ByKind(only, rows) => (
                rows@,
                if peer == *only {
                    kind as int
                } else {
                    -1
                },
            ),
        };
        if peer == NO_PEER || !(0 <= at < table.len()) || table[at] == usize::MAX {
            None
        } else {
            Some(table[at] as int)
        }
    }

    /// Whether the table finds, for every event, the one row that takes it.
    spec fn finds(&self, shown: Seq<Who>) -> bool {
        forall|event: Retained, row: int|
            #![trigger shown[row].takes(event)]
            0 <= row < shown.len() ==> (shown[row].takes(event) <==> self.row(
                event.peer,
                event.kind,
            ) == Some(row))
    }

    /// Every row the table gives is one of these.
    spec fn within(&self, shown: int) -> bool {
        forall|peer: u32, kind: u16| #[trigger]
            self.row(peer, kind) matches Some(row) ==> 0 <= row < shown
    }

    fn row_of(&self, peer: u32, kind: u16) -> (row: Option<usize>)
        ensures
            match row {
                Some(row) => self.row(peer, kind) == Some(row as int),
                None => self.row(peer, kind) is None,
            },
    {
        if peer == NO_PEER {
            return None;
        }
        let found: usize = match self {
            Lookup::ByPeer(rows) => if (peer as usize) < rows.len() {
                rows[peer as usize]
            } else {
                usize::MAX
            },
            Lookup::ByKind(only, rows) => if peer == *only && (kind as usize) < rows.len() {
                rows[kind as usize]
            } else {
                usize::MAX
            },
        };
        if found == usize::MAX {
            None
        } else {
            Some(found)
        }
    }
}

/// The lanes of every row, in both directions.
struct Lanes {
    inbound: Vec<Vec<u64>>,
    outbound: Vec<Vec<u64>>,
}

/// Whether these are the lanes of these rows in one direction.
spec fn are_lanes(
    lanes: Seq<Vec<u64>>,
    events: Seq<Retained>,
    frame: Frame,
    shown: Seq<Who>,
    inbound: bool,
    by_bytes: bool,
) -> bool {
    &&& lanes.len() == shown.len()
    &&& forall|row: int|
        0 <= row < shown.len() ==> (#[trigger] lanes[row])@ == lane(
            events,
            frame,
            shown[row],
            inbound,
            by_bytes,
        )
}

/// Empty lanes.
fn blank_lanes(rows: usize, columns: usize) -> (lanes: Vec<Vec<u64>>)
    ensures
        lanes@.len() == rows,
        forall|row: int|
            0 <= row < rows ==> (#[trigger] lanes@[row])@ == Seq::new(
                columns as nat,
                |column: int| 0u64,
            ),
{
    let mut lanes: Vec<Vec<u64>> = Vec::new();
    while lanes.len() < rows
        invariant
            lanes@.len() <= rows,
            forall|row: int|
                0 <= row < lanes@.len() ==> (#[trigger] lanes@[row])@ == Seq::new(
                    columns as nat,
                    |column: int| 0u64,
                ),
        decreases rows - lanes@.len(),
    {
        let fresh: Vec<u64> = vec![0u64; columns];
        assert(fresh@ =~= Seq::new(columns as nat, |column: int| 0u64));
        lanes.push(fresh);
    }
    lanes
}

/// An event that no row takes, or that is not on the raster, or that has no
/// direction, leaves every lane as it is.
proof fn lemma_lanes_without(
    lanes: Seq<Vec<u64>>,
    events: Seq<Retained>,
    event: Retained,
    frame: Frame,
    shown: Seq<Who>,
    inbound: bool,
    by_bytes: bool,
)
    requires
        are_lanes(lanes, events, frame, shown, inbound, by_bytes),
        forall|row: int, column: int|
            #![trigger falls(event, frame, shown[row], inbound, column)]
            0 <= row < shown.len() ==> !falls(event, frame, shown[row], inbound, column),
    ensures
        are_lanes(lanes, events.push(event), frame, shown, inbound, by_bytes),
{
    assert(events.push(event).drop_last() =~= events);
    assert forall|row: int| 0 <= row < shown.len() implies (#[trigger] lanes[row])@ == lane(
        events.push(event),
        frame,
        shown[row],
        inbound,
        by_bytes,
    ) by {
        assert forall|column: int| 0 <= column < frame.columns implies cell(
            events.push(event),
            frame,
            shown[row],
            inbound,
            column,
            by_bytes,
        ) == #[trigger] cell(events, frame, shown[row], inbound, column, by_bytes) by {
            assert(!falls(event, frame, shown[row], inbound, column));
        }
        assert(lanes[row]@ =~= lane(events.push(event), frame, shown[row], inbound, by_bytes));
    }
}

/// An event in one cell changes that cell alone.
proof fn lemma_lanes_with(
    before: Seq<Vec<u64>>,
    after: Seq<Vec<u64>>,
    events: Seq<Retained>,
    event: Retained,
    frame: Frame,
    shown: Seq<Who>,
    inbound: bool,
    by_bytes: bool,
    at: int,
    place: int,
)
    requires
        are_lanes(before, events, frame, shown, inbound, by_bytes),
        0 <= at < shown.len(),
        0 <= place < frame.columns,
        falls(event, frame, shown[at], inbound, place),
        forall|row: int| 0 <= row < shown.len() && row != at ==> !(#[trigger] shown[row]).takes(event),
        after.len() == before.len(),
        forall|row: int|
            0 <= row < shown.len() && row != at ==> #[trigger] after[row] == before[row],
        after[at]@ == before[at]@.update(
            place,
            latency::capped(before[at]@[place] as int, weight(event, by_bytes) as int),
        ),
    ensures
        are_lanes(after, events.push(event), frame, shown, inbound, by_bytes),
{
    let more = events.push(event);
    assert(more.drop_last() =~= events);
    assert forall|row: int| 0 <= row < shown.len() implies (#[trigger] after[row])@ == lane(
        more,
        frame,
        shown[row],
        inbound,
        by_bytes,
    ) by {
        assert(before[row]@ == lane(events, frame, shown[row], inbound, by_bytes));
        assert forall|column: int| 0 <= column < frame.columns implies after[row]@[column]
            == latency::capped(
            #[trigger] cell(more, frame, shown[row], inbound, column, by_bytes) as int,
            0,
        ) by {
            assert(before[row]@[column] == latency::capped(
                cell(events, frame, shown[row], inbound, column, by_bytes) as int,
                0,
            ));
            if row == at && column == place {
            } else {
                assert(!falls(event, frame, shown[row], inbound, column));
            }
        }
        assert(after[row]@ =~= lane(more, frame, shown[row], inbound, by_bytes));
    }
}

/// Add to one cell.
fn bump(lanes: &mut Vec<Vec<u64>>, row: usize, column: usize, by: u64)
    requires
        row < old(lanes)@.len(),
        column < old(lanes)@[row as int]@.len(),
    ensures
        final(lanes)@.len() == old(lanes)@.len(),
        forall|i: int|
            0 <= i < old(lanes)@.len() && i != row ==> #[trigger] final(lanes)@[i] == old(
                lanes,
            )@[i],
        final(lanes)@[row as int]@ == old(lanes)@[row as int]@.update(
            column as int,
            latency::capped(old(lanes)@[row as int]@[column as int] as int, by as int),
        ),
{
    let held: u64 = lanes[row][column];
    let total: u64 = held.saturating_add(by);
    lanes[row][column] = total;
}

/// Scan the retained events into lanes.
fn fill(
    store: &EventStore,
    frame: &Frame,
    lookup: &Lookup,
    rows: usize,
    shown: Ghost<Seq<Who>>,
    by_bytes: bool,
) -> (lanes: Lanes)
    requires
        store.wf(),
        frame.valid(),
        rows == shown@.len(),
        lookup.finds(shown@),
        lookup.within(rows as int),
    ensures
        are_lanes(lanes.inbound@, store@.events, *frame, shown@, true, by_bytes),
        are_lanes(lanes.outbound@, store@.events, *frame, shown@, false, by_bytes),
{
    let mut inbound = blank_lanes(rows, frame.columns);
    let mut outbound = blank_lanes(rows, frame.columns);
    let timestamps = store.timestamps();
    let kinds = store.kinds();
    let peers = store.peers();
    let flags = store.flags();
    let sizes = store.sizes();
    let ghost events = store@.events;
    let mut i: usize = 0;
    proof {
        let none = events.take(0);
        assert forall|row: int, into: bool| 0 <= row < rows implies #[trigger] lane(
            none,
            *frame,
            shown@[row],
            into,
            by_bytes,
        ) == Seq::new(frame.columns as nat, |column: int| 0u64) by {
            assert(lane(none, *frame, shown@[row], into, by_bytes) =~= Seq::new(
                frame.columns as nat,
                |column: int| 0u64,
            ));
        }
    }
    while i < timestamps.len()
        invariant
            i <= events.len(),
            frame.valid(),
            rows == shown@.len(),
            lookup.finds(shown@),
            lookup.within(rows as int),
            timestamps@ == Seq::new(events.len(), |k: int| events[k].timestamp),
            kinds@ == Seq::new(events.len(), |k: int| events[k].kind),
            peers@ == Seq::new(events.len(), |k: int| events[k].peer),
            flags@ == Seq::new(events.len(), |k: int| events[k].flags),
            sizes@ == Seq::new(events.len(), |k: int| events[k].size),
            are_lanes(inbound@, events.take(i as int), *frame, shown@, true, by_bytes),
            are_lanes(outbound@, events.take(i as int), *frame, shown@, false, by_bytes),
        decreases events.len() - i,
    {
        let ghost event = events[i as int];
        let ghost done = events.take(i as int);
        assert(events.take(i + 1) =~= done.push(event));
        let row: Option<usize> = lookup.row_of(peers[i], kinds[i]);
        let column: Option<usize> = frame.column_of(timestamps[i]);
        let direction: Option<bool> = store::direction_of(flags[i]);
        match (row, column, direction) {
            (Some(row), Some(column), Some(into)) => {
                let by: u64 = if by_bytes {
                    sizes[i] as u64
                } else {
                    1
                };
                assert(lookup.row(event.peer, event.kind) matches Some(at) && 0 <= at < rows);
                assert(shown@[row as int].takes(event));
                assert forall|other: int| 0 <= other < shown@.len() && other != row implies !(
                #[trigger] shown@[other]).takes(event) by {
                    assert(shown@[other].takes(event) <==> lookup.row(event.peer, event.kind)
                        == Some(other));
                }
                let ghost was_in = inbound@;
                let ghost was_out = outbound@;
                if into {
                    bump(&mut inbound, row, column, by);
                    proof {
                        lemma_lanes_with(
                            was_in,
                            inbound@,
                            done,
                            event,
                            *frame,
                            shown@,
                            true,
                            by_bytes,
                            row as int,
                            column as int,
                        );
                        lemma_lanes_without(
                            was_out,
                            done,
                            event,
                            *frame,
                            shown@,
                            false,
                            by_bytes,
                        );
                    }
                } else {
                    bump(&mut outbound, row, column, by);
                    proof {
                        lemma_lanes_with(
                            was_out,
                            outbound@,
                            done,
                            event,
                            *frame,
                            shown@,
                            false,
                            by_bytes,
                            row as int,
                            column as int,
                        );
                        lemma_lanes_without(was_in, done, event, *frame, shown@, true, by_bytes);
                    }
                }
            },
            _ => {
                proof {
                    assert forall|at: int, place: int, into: bool|
                        0 <= at < shown@.len() implies !#[trigger] falls(
                        event,
                        *frame,
                        shown@[at],
                        into,
                        place,
                    ) by {
                        assert(shown@[at].takes(event) <==> lookup.row(event.peer, event.kind)
                            == Some(at));
                    }
                    lemma_lanes_without(inbound@, done, event, *frame, shown@, true, by_bytes);
                    lemma_lanes_without(outbound@, done, event, *frame, shown@, false, by_bytes);
                }
            },
        }
        i = i + 1;
    }
    assert(events.take(i as int) =~= events);
    Lanes { inbound, outbound }
}

/// The columns of a lane with anything in them.
fn occupied_of(lane: &Vec<u64>) -> (cells: Vec<(usize, u64)>)
    ensures
        cells@ == occupied(lane@),
{
    let mut cells: Vec<(usize, u64)> = Vec::new();
    let mut i: usize = 0;
    while i < lane.len()
        invariant
            i <= lane@.len(),
            cells@ == occupied(lane@.take(i as int)),
        decreases lane@.len() - i,
    {
        assert(lane@.take(i + 1).drop_last() =~= lane@.take(i as int));
        if lane[i] > 0 {
            cells.push((i, lane[i]));
        }
        i = i + 1;
    }
    assert(lane@.take(i as int) =~= lane@);
    cells
}

/// The greatest number in a lane.
fn highest_of(lane: &Vec<u64>) -> (top: u64)
    ensures
        top == highest(lane@),
{
    let mut top: u64 = 0;
    let mut i: usize = 0;
    while i < lane.len()
        invariant
            i <= lane@.len(),
            top == highest(lane@.take(i as int)),
        decreases lane@.len() - i,
    {
        assert(lane@.take(i + 1).drop_last() =~= lane@.take(i as int));
        if lane[i] > top {
            top = lane[i];
        }
        i = i + 1;
    }
    assert(lane@.take(i as int) =~= lane@);
    top
}

/// The greatest number in any lane.
fn peak_of(
    lanes: &Lanes,
    events: Ghost<Seq<Retained>>,
    frame: Ghost<Frame>,
    shown: Ghost<Seq<Who>>,
    by_bytes: Ghost<bool>,
) -> (top: u64)
    requires
        are_lanes(lanes.inbound@, events@, frame@, shown@, true, by_bytes@),
        are_lanes(lanes.outbound@, events@, frame@, shown@, false, by_bytes@),
    ensures
        top == peak(events@, frame@, shown@, by_bytes@),
{
    let mut top: u64 = 0;
    let mut i: usize = 0;
    while i < lanes.inbound.len()
        invariant
            i <= shown@.len(),
            are_lanes(lanes.inbound@, events@, frame@, shown@, true, by_bytes@),
            are_lanes(lanes.outbound@, events@, frame@, shown@, false, by_bytes@),
            top == peak(events@, frame@, shown@.take(i as int), by_bytes@),
        decreases shown@.len() - i,
    {
        assert(shown@.take(i + 1).drop_last() =~= shown@.take(i as int));
        assert(lanes.inbound@[i as int]@ == lane(
            events@,
            frame@,
            shown@[i as int],
            true,
            by_bytes@,
        ));
        assert(lanes.outbound@[i as int]@ == lane(
            events@,
            frame@,
            shown@[i as int],
            false,
            by_bytes@,
        ));
        let into: u64 = highest_of(&lanes.inbound[i]);
        let out: u64 = highest_of(&lanes.outbound[i]);
        if into > top {
            top = into;
        }
        if out > top {
            top = out;
        }
        i = i + 1;
    }
    assert(shown@.take(i as int) =~= shown@);
    top
}

/// One peer's row.
#[derive(Debug)]
pub struct ActivityRow<'a> {
    pub peer: &'a PeerStats,
    pub conn_type: Option<&'static str>,
    pub duration_ms: u64,
    pub events: u64,
    /// What came in, as the columns with anything in them.
    pub inbound: Vec<(usize, u64)>,
    /// What went out.
    pub outbound: Vec<(usize, u64)>,
    pub marks: Vec<Mark>,
    /// Whether the marks are all there are. The lifecycle list is capped.
    pub marks_complete: bool,
}

/// A raster of per-peer activity.
#[derive(Debug)]
pub struct Activity<'a> {
    pub frame: Frame,
    pub rows: Vec<ActivityRow<'a>>,
    /// How many peers there would be rows for.
    pub peers: usize,
    /// The greatest number in any cell.
    pub max: u64,
    /// Retention stopped short, so this covers only what was kept.
    pub partial: bool,
    /// What the raster was drawn from. A window without any time in it is not
    /// drawn at all.
    pub scope: Option<Scope>,
}

/// What a raster was drawn from.
#[derive(Debug, Clone, Copy, PartialEq, Eq)]
pub struct Scope {
    pub by_bytes: bool,
    pub retained: usize,
    pub total_events: u64,
}

/// Whether a peer is worth a row: seen inside the window, and connected long
/// enough to be worth one. A churn archive has hundreds of thousands of peers
/// that lived under a second, and a row each would be a solid block of noise.
pub open spec fn worth_a_row(peer: Peer, frame: Frame, min_duration_ms: u64) -> bool {
    &&& peer.duration() >= min_duration_ms
    &&& peer.last_seen >= frame.start
    &&& peer.first_seen <= frame.end
}

/// Which peers are worth a row.
pub open spec fn candidates(peers: Seq<Peer>, frame: Frame, min_duration_ms: u64) -> Seq<bool> {
    Seq::new(peers.len(), |i: int| worth_a_row(peers[i], frame, min_duration_ms))
}

/// What a peer's row is ordered by: how busy it is, or when it was first seen,
/// which is what makes connection churn legible.
pub open spec fn activity_key(peer: Peer, sort: Seq<char>) -> (u64, u64) {
    if sort == "events"@ {
        (order::flipped(peer.events()), peer.peer_id)
    } else {
        (peer.first_seen, peer.peer_id)
    }
}

pub open spec fn activity_keys(peers: Seq<Peer>, sort: Seq<char>) -> Seq<(u64, u64)> {
    Seq::new(peers.len(), |i: int| activity_key(peers[i], sort))
}

/// The peers worth a row, in the order of their rows.
pub open spec fn ranked(
    peers: Seq<Peer>,
    frame: Frame,
    min_duration_ms: u64,
    sort: Seq<char>,
) -> Seq<usize> {
    order::ordered_picks(candidates(peers, frame, min_duration_ms), activity_keys(peers, sort))
}

/// Rows that show everything of these peers.
pub open spec fn whole_peers(shown: Seq<usize>) -> Seq<Who> {
    Seq::new(shown.len(), |row: int| Who { peer: shown[row] as u32, kind: None })
}

/// Whether this is a peer's row.
pub open spec fn is_activity_row(
    row: ActivityRow<'_>,
    peer: Peer,
    events: Seq<Retained>,
    frame: Frame,
    by_bytes: bool,
) -> bool {
    let who = Who { peer: peer.index, kind: None };
    &&& row.peer@ == peer
    &&& rows::name_in(row.conn_type) == rows::conn_type_in(peer)
    &&& row.duration_ms == peer.duration()
    &&& row.events == peer.events()
    &&& row.inbound@ == occupied(lane(events, frame, who, true, by_bytes))
    &&& row.outbound@ == occupied(lane(events, frame, who, false, by_bytes))
    &&& row.marks@ == marks(peer.lifecycle, frame)
    &&& row.marks_complete == (peer.lifecycle_total <= peer.lifecycle.len())
}

/// Which peers are worth a row, and what their rows are ordered by.
fn rank_peers(
    analysis: &Analysis,
    frame: &Frame,
    min_duration_ms: u64,
    sort: &str,
) -> (order: Vec<usize>)
    requires
        analysis.wf(),
    ensures
        order@ == ranked(analysis.peers@.peers, *frame, min_duration_ms, sort@),
        order@.no_duplicates(),
        forall|i: int| 0 <= i < order@.len() ==> #[trigger] order@[i] < analysis.peers@.peers.len(),
{
    let peers = analysis.peers.iter();
    let ghost all = analysis.peers@.peers;
    let busiest = text::same(sort, "events");
    let mut wanted: Vec<bool> = Vec::new();
    let mut keys: Vec<(u64, u64)> = Vec::new();
    let mut i: usize = 0;
    while i < peers.len()
        invariant
            i <= peers@.len(),
            peers@.len() == all.len(),
            forall|k: int| 0 <= k < peers@.len() ==> (#[trigger] peers@[k])@ == all[k],
            busiest == (sort@ == "events"@),
            wanted@ == candidates(all, *frame, min_duration_ms).take(i as int),
            keys@ == activity_keys(all, sort@).take(i as int),
        decreases peers@.len() - i,
    {
        let peer = &peers[i];
        assert(peer@ == all[i as int]);
        wanted.push(
            peer.duration_ms() >= min_duration_ms && peer.last_seen >= frame.start
                && peer.first_seen <= frame.end,
        );
        keys.push(
            if busiest {
                (u64::MAX - peer.events(), peer.peer_id)
            } else {
                (peer.first_seen, peer.peer_id)
            },
        );
        i = i + 1;
        assert(wanted@ =~= candidates(all, *frame, min_duration_ms).take(i as int));
        assert(keys@ =~= activity_keys(all, sort@).take(i as int));
    }
    assert(wanted@ =~= candidates(all, *frame, min_duration_ms));
    assert(keys@ =~= activity_keys(all, sort@));
    order::sort_picked(&wanted, &keys)
}

/// A table that finds a peer's row.
fn peer_lookup(shown: &Vec<usize>, peers: usize) -> (lookup: Lookup)
    requires
        shown@.no_duplicates(),
        peers <= u32::MAX + 1,
        forall|i: int| 0 <= i < shown@.len() ==> #[trigger] shown@[i] < peers,
    ensures
        lookup.finds(whole_peers(shown@)),
        lookup.within(shown@.len() as int),
{
    let mut table: Vec<usize> = vec![usize::MAX; peers];
    let mut row: usize = 0;
    while row < shown.len()
        invariant
            row <= shown@.len(),
            table@.len() == peers,
            shown@.no_duplicates(),
            forall|i: int| 0 <= i < shown@.len() ==> #[trigger] shown@[i] < peers,
            forall|p: int|
                0 <= p < peers ==> (#[trigger] table@[p] == usize::MAX || table@[p] < row
                    && shown@[table@[p] as int] == p),
            forall|r: int| 0 <= r < row ==> table@[(#[trigger] shown@[r]) as int] == r,
        decreases shown@.len() - row,
    {
        let at: usize = shown[row];
        table[at] = row;
        row = row + 1;
    }
    let lookup = Lookup::ByPeer(table);
    assert forall|event: Retained, r: int|
        #![trigger whole_peers(shown@)[r].takes(event)]
        0 <= r < shown@.len() implies (whole_peers(shown@)[r].takes(event) <==> lookup.row(
        event.peer,
        event.kind,
    ) == Some(r)) by {
        assert(table@[shown@[r] as int] == r);
        if lookup.row(event.peer, event.kind) == Some(r) {
            assert(table@[event.peer as int] == r);
        }
    }
    assert forall|peer: u32, kind: u16| (#[trigger] lookup.row(peer, kind)) is Some implies 0
        <= lookup.row(peer, kind)->0 < shown@.len() by {
        assert(table@[peer as int] < shown@.len());
    }
    lookup
}

/// How many columns a raster has when `asked` are asked for.
fn clamp_columns(asked: usize) -> (columns: usize)
    ensures
        columns == columns_for(asked),
        1 <= columns <= MAX_COLUMNS,
{
    if asked < 1 {
        1
    } else if asked > MAX_COLUMNS {
        MAX_COLUMNS
    } else {
        asked
    }
}

/// A raster of per-peer activity over time: one row per peer, one column per
/// pixel, split by direction.
///
/// `weight` is `bytes` to accumulate wire bytes instead of message counts.
/// `sort` is `events` for the busiest peers first, anything else for
/// first-seen order, which is what makes connection churn legible.
pub fn peer_activity<'a>(
    analysis: &'a Analysis,
    filter: &Filter,
    columns: usize,
    max_rows: usize,
    min_duration_ms: u64,
    sort: &str,
    weight: &str,
) -> (activity: Activity<'a>)
    requires
        analysis.wf(),
    ensures
        activity.frame == (Frame {
            start: filter@.from(analysis.first_timestamp),
            end: filter@.to(analysis.last_timestamp),
            columns: columns_for(columns),
        }),
        activity.frame.end <= activity.frame.start ==> {
            &&& activity.rows@.len() == 0
            &&& activity.peers == 0
            &&& activity.max == 0
            &&& !activity.partial
            &&& activity.scope is None
        },
        activity.frame.end > activity.frame.start ==> {
            let peers = analysis.peers@.peers;
            let events = analysis.store@.events;
            let order = ranked(peers, activity.frame, min_duration_ms, sort@);
            let shown = order::page_of(order, 0, max_rows as int);
            let by_bytes = weight@ == "bytes"@;
            &&& activity.peers == order.len()
            &&& activity.rows@.len() == shown.len()
            &&& forall|row: int|
                0 <= row < shown.len() ==> is_activity_row(
                    #[trigger] activity.rows@[row],
                    peers[shown[row] as int],
                    events,
                    activity.frame,
                    by_bytes,
                )
            &&& activity.max == peak(events, activity.frame, whole_peers(shown), by_bytes)
            &&& activity.partial == (analysis.store@.stopped is Some)
            &&& activity.scope == Some(
                Scope {
                    by_bytes,
                    retained: events.len() as usize,
                    total_events: analysis.total_events,
                },
            )
        },
{
    let (start, end) = filter::activity_span(analysis, filter);
    let frame = Frame { start, end, columns: clamp_columns(columns) };
    if end <= start {
        return Activity {
            frame,
            rows: Vec::new(),
            peers: 0,
            max: 0,
            partial: false,
            scope: None,
        };
    }
    let peers = analysis.peers.iter();
    let ghost all = analysis.peers@.peers;
    let ghost events = analysis.store@.events;
    let order = rank_peers(analysis, &frame, min_duration_ms, sort);
    let shown = order::page_rows(&order, 0, max_rows);
    proof {
        peers::law_a_peer_table_is_valid(analysis.peers);
        let page = shown@;
        assert forall|i: int, j: int|
            0 <= i < page.len() && 0 <= j < page.len() && i != j implies page[i] != page[j] by {
            assert(page[i] == order@[i]);
            assert(page[j] == order@[j]);
        }
        assert forall|i: int| 0 <= i < page.len() implies #[trigger] page[i] < all.len() by {
            assert(page[i] == order@[i]);
        }
    }
    let by_bytes = text::same(weight, "bytes");
    let lookup = peer_lookup(&shown, peers.len());
    let ghost whos = whole_peers(shown@);
    let lanes = fill(&analysis.store, &frame, &lookup, shown.len(), Ghost(whos), by_bytes);
    let max: u64 = peak_of(&lanes, Ghost(events), Ghost(frame), Ghost(whos), Ghost(by_bytes));
    let mut rows: Vec<ActivityRow<'a>> = Vec::new();
    let mut row: usize = 0;
    while row < shown.len()
        invariant
            row <= shown@.len(),
            rows@.len() == row,
            frame.valid(),
            peers@.len() == all.len(),
            forall|k: int| 0 <= k < peers@.len() ==> (#[trigger] peers@[k])@ == all[k],
            forall|k: int|
                0 <= k < all.len() ==> (#[trigger] all[k]).index == k && all[k].index as int == k,
            all.len() <= u32::MAX + 1,
            forall|i: int| 0 <= i < shown@.len() ==> #[trigger] shown@[i] < all.len(),
            whos == whole_peers(shown@),
            are_lanes(lanes.inbound@, events, frame, whos, true, by_bytes),
            are_lanes(lanes.outbound@, events, frame, whos, false, by_bytes),
            forall|r: int|
                0 <= r < row ==> is_activity_row(
                    #[trigger] rows@[r],
                    all[shown@[r] as int],
                    events,
                    frame,
                    by_bytes,
                ),
        decreases shown@.len() - row,
    {
        let peer: &'a PeerStats = &peers[shown[row]];
        assert(peer@ == all[shown@[row as int] as int]);
        assert(whos[row as int] == (Who { peer: peer@.index, kind: None }));
        assert(lanes.inbound@[row as int]@ == lane(
            events,
            frame,
            whos[row as int],
            true,
            by_bytes,
        ));
        assert(lanes.outbound@[row as int]@ == lane(
            events,
            frame,
            whos[row as int],
            false,
            by_bytes,
        ));
        rows.push(
            ActivityRow {
                peer,
                conn_type: rows::conn_type_of(peer),
                duration_ms: peer.duration_ms(),
                events: peer.events(),
                inbound: occupied_of(&lanes.inbound[row]),
                outbound: occupied_of(&lanes.outbound[row]),
                marks: marks_of(peer, &frame),
                marks_complete: peer.lifecycle_total <= peer.lifecycle.len() as u64,
            },
        );
        row = row + 1;
    }
    Activity {
        frame,
        rows,
        peers: order.len(),
        max,
        partial: analysis.store.is_full(),
        scope: Some(
            Scope {
                by_bytes,
                retained: analysis.store.len(),
                total_events: analysis.total_events,
            },
        ),
    }
}

/// One command's row in a peer's raster.
#[derive(Debug)]
pub struct CommandRow<'a> {
    pub kind: &'a str,
    /// How many of it came in, over the whole archive.
    pub total_in: u64,
    /// How many of it went out.
    pub total_out: u64,
    /// What came in, as the columns with anything in them.
    pub inbound: Vec<(usize, u64)>,
    /// What went out.
    pub outbound: Vec<(usize, u64)>,
}

/// One peer's traffic over its own lifetime, with a row per command.
#[derive(Debug)]
pub struct PeerRaster<'a> {
    pub frame: Frame,
    pub rows: Vec<CommandRow<'a>>,
    /// How many commands there would be rows for.
    pub commands: usize,
    /// The greatest number in any cell.
    pub max: u64,
    pub marks: Vec<Mark>,
    /// Whether the marks are all there are.
    pub marks_complete: bool,
    /// Retention stopped short, so this covers only what was kept.
    pub partial: bool,
}

/// What the rows of a peer's commands are ordered by: the busiest first.
pub open spec fn command_keys(commands: Seq<(u16, CommandCounts)>) -> Seq<(u64, u64)> {
    Seq::new(commands.len(), |i: int| (order::flipped(commands[i].1.total()), 0u64))
}

/// What the rows of a peer's commands are ordered by.
pub fn command_order(commands: &Vec<(u16, CommandCounts)>) -> (order: Vec<usize>)
    ensures
        order@ == order::order_of(command_keys(commands@)),
        order@.no_duplicates(),
        order@.len() == commands@.len(),
        forall|i: int| 0 <= i < order@.len() ==> #[trigger] order@[i] < commands@.len(),
{
    let mut keys: Vec<(u64, u64)> = Vec::new();
    let mut i: usize = 0;
    while i < commands.len()
        invariant
            i <= commands@.len(),
            keys@ == command_keys(commands@).take(i as int),
        decreases commands@.len() - i,
    {
        keys.push((u64::MAX - commands[i].1.messages(), 0));
        i = i + 1;
        assert(keys@ =~= command_keys(commands@).take(i as int));
    }
    assert(keys@ =~= command_keys(commands@));
    proof {
        order::law_rows_can_be_ordered(keys@);
    }
    order::sort_by_numbers(keys)
}

/// Rows that each show one command of a peer.
pub open spec fn commands_of(
    peer: u32,
    commands: Seq<(u16, CommandCounts)>,
    shown: Seq<usize>,
) -> Seq<Who> {
    Seq::new(
        shown.len(),
        |row: int| Who { peer, kind: Some(commands[shown[row] as int].0) },
    )
}

/// The name of a kind, or a question mark for one there is none of.
pub open spec fn kind_text(kinds: Seq<EventKind>, kind: u16) -> Seq<char> {
    if kind < kinds.len() {
        kinds[kind as int].name
    } else {
        "?"@
    }
}

/// The name of a kind, or a question mark for one there is none of.
pub fn kind_name(analysis: &Analysis, kind: u16) -> (name: &str)
    ensures
        name@ == kind_text(analysis.kinds@, kind),
{
    match analysis.kinds.get(kind) {
        Some(info) => info.name.as_str(),
        None => "?",
    }
}

/// Whether this is the row of one command of a peer.
pub open spec fn is_command_row(
    row: CommandRow<'_>,
    command: (u16, CommandCounts),
    peer: u32,
    kinds: Seq<EventKind>,
    events: Seq<Retained>,
    frame: Frame,
) -> bool {
    let who = Who { peer, kind: Some(command.0) };
    &&& row.kind@ == kind_text(kinds, command.0)
    &&& row.total_in == command.1.inbound
    &&& row.total_out == command.1.outbound
    &&& row.inbound@ == occupied(lane(events, frame, who, true, false))
    &&& row.outbound@ == occupied(lane(events, frame, who, false, false))
}

/// A table that finds the row of one of a peer's commands.
fn command_lookup(
    peer: u32,
    commands: &Vec<(u16, CommandCounts)>,
    shown: &Vec<usize>,
) -> (lookup: Lookup)
    requires
        shown@.no_duplicates(),
        peers::commands_distinct(commands@),
        forall|i: int| 0 <= i < shown@.len() ==> #[trigger] shown@[i] < commands@.len(),
    ensures
        lookup.finds(commands_of(peer, commands@, shown@)),
        lookup.within(shown@.len() as int),
{
    let mut table: Vec<usize> = vec![usize::MAX; 65536];
    let mut row: usize = 0;
    while row < shown.len()
        invariant
            row <= shown@.len(),
            table@.len() == 65536,
            shown@.no_duplicates(),
            peers::commands_distinct(commands@),
            forall|i: int| 0 <= i < shown@.len() ==> #[trigger] shown@[i] < commands@.len(),
            forall|k: int|
                0 <= k < 65536 ==> (#[trigger] table@[k] == usize::MAX || table@[k] < row
                    && commands@[shown@[table@[k] as int] as int].0 == k),
            forall|r: int|
                0 <= r < row ==> table@[commands@[(#[trigger] shown@[r]) as int].0 as int] == r,
        decreases shown@.len() - row,
    {
        let kind: u16 = commands[shown[row]].0;
        assert forall|r: int| 0 <= r < row implies commands@[(#[trigger] shown@[r]) as int].0
            != kind by {
            let a = shown@[r] as int;
            let b = shown@[row as int] as int;
            assert(a != b);
            if a < b {
                assert(commands@[a].0 != commands@[b].0);
            } else {
                assert(commands@[b].0 != commands@[a].0);
            }
        }
        table[kind as usize] = row;
        row = row + 1;
    }
    let lookup = Lookup::ByKind(peer, table);
    let ghost whos = commands_of(peer, commands@, shown@);
    assert forall|event: Retained, r: int|
        #![trigger whos[r].takes(event)]
        0 <= r < shown@.len() implies (whos[r].takes(event) <==> lookup.row(
        event.peer,
        event.kind,
    ) == Some(r)) by {
        assert(table@[commands@[shown@[r] as int].0 as int] == r);
        if lookup.row(event.peer, event.kind) == Some(r) {
            assert(table@[event.kind as int] == r);
        }
    }
    assert forall|of: u32, kind: u16| (#[trigger] lookup.row(of, kind)) is Some implies 0
        <= lookup.row(of, kind)->0 < shown@.len() by {
        assert(table@[kind as int] < shown@.len());
    }
    lookup
}

/// One peer's traffic over its own lifetime: one row per command, the busiest
/// first, one column per pixel, split by direction. `None` if there is no such
/// peer in the archive.
pub fn peer_raster<'a>(
    analysis: &'a Analysis,
    peer_id: u64,
    columns: usize,
    max_rows: usize,
) -> (raster: Option<PeerRaster<'a>>)
    requires
        analysis.wf(),
    ensures
        raster is None <==> peers::place(analysis.peers@.peers, peer_id) is None,
        raster matches Some(raster) ==> {
            let peer = analysis.peers@.peers[peers::place(analysis.peers@.peers, peer_id)->0];
            let events = analysis.store@.events;
            let shown = order::page_of(
                order::order_of(command_keys(peer.commands)),
                0,
                max_rows as int,
            );
            &&& raster.frame == (Frame {
                start: peer.first_seen,
                end: peer.last_seen,
                columns: columns_for(columns),
            })
            &&& raster.commands == peer.commands.len()
            &&& raster.rows@.len() == shown.len()
            &&& forall|row: int|
                0 <= row < shown.len() ==> is_command_row(
                    #[trigger] raster.rows@[row],
                    peer.commands[shown[row] as int],
                    peer.index,
                    analysis.kinds@,
                    events,
                    raster.frame,
                )
            &&& raster.max == peak(
                events,
                raster.frame,
                commands_of(peer.index, peer.commands, shown),
                false,
            )
            &&& raster.marks@ == marks(peer.lifecycle, raster.frame)
            &&& raster.marks_complete == (peer.lifecycle_total <= peer.lifecycle.len())
            &&& raster.partial == (analysis.store@.stopped is Some)
        },
{
    let peer = match analysis.peers.get(peer_id) {
        Some(peer) => peer,
        None => {
            return None;
        },
    };
    proof {
        peers::law_a_peer_table_is_valid(analysis.peers);
        let at = peers::place(analysis.peers@.peers, peer_id)->0;
        assert(peers::stands_at(analysis.peers@.peers, peer_id, at));
        assert(peer@ == analysis.peers@.peers[at]);
    }
    let frame = Frame {
        start: peer.first_seen,
        end: peer.last_seen,
        columns: clamp_columns(columns),
    };
    let commands = &peer.commands;
    let order = command_order(commands);
    let shown = order::page_rows(&order, 0, max_rows);
    proof {
        let page = shown@;
        assert forall|i: int, j: int|
            0 <= i < page.len() && 0 <= j < page.len() && i != j implies page[i] != page[j] by {
            assert(page[i] == order@[i]);
            assert(page[j] == order@[j]);
        }
        assert forall|i: int| 0 <= i < page.len() implies #[trigger] page[i] < commands@.len() by {
            assert(page[i] == order@[i]);
        }
    }
    let ghost events = analysis.store@.events;
    let ghost whos = commands_of(peer.index, commands@, shown@);
    let lookup = command_lookup(peer.index, commands, &shown);
    let lanes = fill(&analysis.store, &frame, &lookup, shown.len(), Ghost(whos), false);
    let max: u64 = peak_of(&lanes, Ghost(events), Ghost(frame), Ghost(whos), Ghost(false));
    let mut rows: Vec<CommandRow<'a>> = Vec::new();
    let mut row: usize = 0;
    while row < shown.len()
        invariant
            row <= shown@.len(),
            rows@.len() == row,
            forall|i: int| 0 <= i < shown@.len() ==> #[trigger] shown@[i] < commands@.len(),
            whos == commands_of(peer.index, commands@, shown@),
            are_lanes(lanes.inbound@, events, frame, whos, true, false),
            are_lanes(lanes.outbound@, events, frame, whos, false, false),
            forall|r: int|
                0 <= r < row ==> is_command_row(
                    #[trigger] rows@[r],
                    commands@[shown@[r] as int],
                    peer.index,
                    analysis.kinds@,
                    events,
                    frame,
                ),
        decreases shown@.len() - row,
    {
        let command = &commands[shown[row]];
        assert(lanes.inbound@[row as int]@ == lane(events, frame, whos[row as int], true, false));
        assert(lanes.outbound@[row as int]@ == lane(
            events,
            frame,
            whos[row as int],
            false,
            false,
        ));
        rows.push(
            CommandRow {
                kind: kind_name(analysis, command.0),
                total_in: command.1.inbound,
                total_out: command.1.outbound,
                inbound: occupied_of(&lanes.inbound[row]),
                outbound: occupied_of(&lanes.outbound[row]),
            },
        );
        row = row + 1;
    }
    Some(
        PeerRaster {
            frame,
            rows,
            commands: commands.len(),
            max,
            marks: marks_of(peer, &frame),
            marks_complete: peer.lifecycle_total <= peer.lifecycle.len() as u64,
            partial: analysis.store.is_full(),
        },
    )
}

/// What the cells of a row's first columns come to in one direction.
pub open spec fn across(
    events: Seq<Retained>,
    frame: Frame,
    who: Who,
    inbound: bool,
    by_bytes: bool,
    columns: int,
) -> nat
    decreases columns,
{
    if columns <= 0 {
        0
    } else {
        across(events, frame, who, inbound, by_bytes, columns - 1) + cell(
            events,
            frame,
            who,
            inbound,
            columns - 1,
            by_bytes,
        )
    }
}

/// What the events a row shows in one direction come to.
pub open spec fn shown_in(
    events: Seq<Retained>,
    frame: Frame,
    who: Who,
    inbound: bool,
    by_bytes: bool,
) -> nat
    decreases events.len(),
{
    if events.len() == 0 {
        0
    } else {
        let event = events.last();
        shown_in(events.drop_last(), frame, who, inbound, by_bytes) + if who.takes(event)
            && frame.covers(event.timestamp) && store::direction(event.flags) == Some(inbound) {
            weight(event, by_bytes)
        } else {
            0
        }
    }
}

proof fn lemma_column_is_on_the_raster(frame: Frame, timestamp: u64)
    requires
        frame.valid(),
        frame.covers(timestamp),
    ensures
        0 <= frame.column(timestamp) < frame.columns,
{
    let past = (timestamp - frame.start) * frame.columns;
    let span = frame.span();
    assert(past >= 0) by (nonlinear_arith)
        requires
            past == (timestamp - frame.start) * frame.columns,
            timestamp >= frame.start,
            frame.columns >= 0,
    ;
    assert(past / span >= 0) by (nonlinear_arith)
        requires
            past >= 0,
            span > 0,
    ;
}

proof fn lemma_across_one_more(
    events: Seq<Retained>,
    frame: Frame,
    who: Who,
    inbound: bool,
    by_bytes: bool,
    columns: int,
)
    requires
        events.len() > 0,
        columns >= 0,
    ensures
        across(events, frame, who, inbound, by_bytes, columns) == across(
            events.drop_last(),
            frame,
            who,
            inbound,
            by_bytes,
            columns,
        ) + if who.takes(events.last()) && frame.covers(events.last().timestamp)
            && store::direction(events.last().flags) == Some(inbound) && 0 <= frame.column(
            events.last().timestamp,
        ) < columns {
            weight(events.last(), by_bytes)
        } else {
            0
        },
    decreases columns,
{
    if columns > 0 {
        lemma_across_one_more(events, frame, who, inbound, by_bytes, columns - 1);
    }
}

/// A column covers its own slice of the time a raster shows: the columns are equally wide,
/// the first starts where the raster does, and the last one ends where it does and has the
/// very end in it. What is not in that time is in no column.
pub proof fn law_a_column_covers_its_slice_of_time(frame: Frame, timestamp: u64)
    requires
        frame.valid(),
    ensures
        frame.placed(timestamp) is Some <==> frame.start <= timestamp <= frame.end,
        frame.start <= timestamp < frame.end ==> {
            let column = frame.placed(timestamp)->0;
            let width = frame.end - frame.start;
            &&& 0 <= column < frame.columns
            &&& column * width <= (timestamp - frame.start) * frame.columns < (column + 1) * width
        },
        frame.start < timestamp == frame.end ==> frame.placed(timestamp) == Some(
            frame.columns - 1,
        ),
        frame.start == timestamp ==> frame.placed(timestamp) == Some(0int),
{
    if frame.covers(timestamp) {
        let past = (timestamp - frame.start) * frame.columns;
        let span = frame.span();
        let columns = frame.columns as int;
        let at = past / span;
        lemma_column_is_on_the_raster(frame, timestamp);
        vstd::arithmetic::div_mod::lemma_fundamental_div_mod(past, span);
        assert(at * span <= past < (at + 1) * span) by (nonlinear_arith)
            requires
                past == span * at + past % span,
                0 <= past % span < span,
        ;
        if timestamp < frame.end {
            assert(past < columns * span) by (nonlinear_arith)
                requires
                    past == (timestamp - frame.start) * columns,
                    timestamp - frame.start < span,
                    columns > 0,
            ;
            assert(at < columns) by (nonlinear_arith)
                requires
                    at * span <= past,
                    past < columns * span,
                    span > 0,
            ;
        }
        if timestamp == frame.end && frame.end > frame.start {
            assert(past == columns * span) by (nonlinear_arith)
                requires
                    past == (timestamp - frame.start) * columns,
                    timestamp - frame.start == span,
            ;
            assert(at >= columns) by (nonlinear_arith)
                requires
                    past < (at + 1) * span,
                    past == columns * span,
                    span > 0,
            ;
        }
        if timestamp == frame.start {
            assert(past == 0) by (nonlinear_arith)
                requires
                    past == (timestamp - frame.start) * columns,
                    timestamp == frame.start,
            ;
            assert(0int / span == 0) by (nonlinear_arith)
                requires
                    span > 0,
            ;
        }
    }
}

/// One event more adds to one cell: that of its peer, of its kind where the row shows one,
/// of the way it went, and of the slice of time it is in. It adds one, or the bytes of the
/// message where those are weighed, and to every other cell nothing.
pub proof fn law_an_event_adds_to_its_own_cell(
    events: Seq<Retained>,
    event: Retained,
    frame: Frame,
    who: Who,
    inbound: bool,
    column: int,
)
    requires
        frame.valid(),
        frame.start < frame.end,
        0 <= column < frame.columns,
        who.peer != NO_PEER,
    ensures
        ({
            let width = frame.end - frame.start;
            let past = (event.timestamp - frame.start) * frame.columns;
            let here = {
                &&& event.peer == who.peer
                &&& who.kind is None || who.kind == Some(event.kind)
                &&& event.flags & 2 != 0
                &&& (event.flags & 1 != 0) == inbound
                &&& frame.start <= event.timestamp <= frame.end
                &&& column * width <= past
                &&& past < (column + 1) * width || column == frame.columns - 1
            };
            &&& cell(events.push(event), frame, who, inbound, column, false) == cell(
                events,
                frame,
                who,
                inbound,
                column,
                false,
            ) + (if here {
                1int
            } else {
                0
            })
            &&& cell(events.push(event), frame, who, inbound, column, true) == cell(
                events,
                frame,
                who,
                inbound,
                column,
                true,
            ) + (if here {
                event.size as int
            } else {
                0
            })
        }),
        cell(Seq::empty(), frame, who, inbound, column, false) == 0,
        cell(Seq::empty(), frame, who, inbound, column, true) == 0,
{
    assert(events.push(event).drop_last() =~= events);
    if frame.start <= event.timestamp <= frame.end {
        law_a_column_covers_its_slice_of_time(frame, event.timestamp);
        let width = frame.end - frame.start;
        let past = (event.timestamp - frame.start) * frame.columns;
        let at = frame.placed(event.timestamp)->0;
        let columns = frame.columns as int;
        if event.timestamp < frame.end {
            if at < column {
                assert((at + 1) * width <= column * width) by (nonlinear_arith)
                    requires
                        at + 1 <= column,
                        width > 0,
                ;
            } else if column < at {
                assert((column + 1) * width <= at * width) by (nonlinear_arith)
                    requires
                        column + 1 <= at,
                        width > 0,
                ;
            }
        } else {
            assert(past == width * columns) by (nonlinear_arith)
                requires
                    past == (event.timestamp - frame.start) * columns,
                    event.timestamp - frame.start == width,
            ;
            if column < columns - 1 {
                assert((column + 1) * width <= width * columns) by (nonlinear_arith)
                    requires
                        column + 1 <= columns,
                        width > 0,
                ;
            } else {
                assert(column * width <= width * columns) by (nonlinear_arith)
                    requires
                        column <= columns,
                        width > 0,
                ;
            }
        }
    }
}

/// The rows of a raster are the peers that were seen while it covers and lived long
/// enough, each once: the busiest first where it is sorted by events, else the one that
/// was first seen first, and by their ids where those are level.
pub proof fn law_a_raster_has_a_row_for_every_peer_worth_one(
    directory: Directory,
    frame: Frame,
    min_duration_ms: u64,
    sort: Seq<char>,
    row: usize,
)
    requires
        directory.valid(),
        directory.peers.len() <= usize::MAX,
    ensures
        ({
            let peers = directory.peers;
            let rows = ranked(peers, frame, min_duration_ms, sort);
            &&& rows.no_duplicates()
            &&& rows.contains(row) <==> row < peers.len() && {
                let peer = peers[row as int];
                &&& peer.last_seen - peer.first_seen >= min_duration_ms
                &&& peer.last_seen >= frame.start
                &&& peer.first_seen <= frame.end
            }
            &&& forall|i: int, j: int|
                #![trigger rows[i], rows[j]]
                0 <= i < j < rows.len() ==> {
                    let (a, b) = (peers[rows[i] as int], peers[rows[j] as int]);
                    if sort == "events"@ {
                        a.events() > b.events() || a.events() == b.events() && a.peer_id
                            < b.peer_id
                    } else {
                        a.first_seen < b.first_seen || a.first_seen == b.first_seen && a.peer_id
                            < b.peer_id
                    }
                }
        }),
{
    let peers = directory.peers;
    let wanted = candidates(peers, frame, min_duration_ms);
    let keys = activity_keys(peers, sort);
    let rows = ranked(peers, frame, min_duration_ms, sort);
    order::law_exactly_the_wanted_rows_are_listed(wanted, keys, row);
    order::law_listed_rows_ascend(wanted, keys);
    if row < peers.len() {
        assert(peers[row as int].tidy());
    }
    if rows.contains(row) {
        let i = choose|i: int| 0 <= i < rows.len() && rows[i] == row;
        assert(wanted[rows[i] as int]);
    }
    assert forall|i: int, j: int|
        #![trigger rows[i], rows[j]]
        0 <= i < j < rows.len() implies {
        let (a, b) = (peers[rows[i] as int], peers[rows[j] as int]);
        if sort == "events"@ {
            a.events() > b.events() || a.events() == b.events() && a.peer_id < b.peer_id
        } else {
            a.first_seen < b.first_seen || a.first_seen == b.first_seen && a.peer_id < b.peer_id
        }
    } by {
        let (x, y) = (rows[i] as int, rows[j] as int);
        assert(rows[i] < wanted.len() && rows[j] < wanted.len());
        assert(keys[x] == activity_key(peers[x], sort) && keys[y] == activity_key(peers[y], sort));
        if x < y {
            assert(peers[x].peer_id != peers[y].peer_id);
        } else {
            assert(rows[i] != rows[j]);
            assert(peers[y].peer_id != peers[x].peer_id);
        }
    }
}

/// Every message lands in exactly one cell: what the cells of a row come to in one
/// direction is what its messages in that direction come to.
pub proof fn law_every_message_lands_in_exactly_one_cell(
    events: Seq<Retained>,
    frame: Frame,
    who: Who,
    inbound: bool,
    by_bytes: bool,
)
    requires
        frame.valid(),
    ensures
        across(events, frame, who, inbound, by_bytes, frame.columns as int) == shown_in(
            events,
            frame,
            who,
            inbound,
            by_bytes,
        ),
    decreases events.len(),
{
    if events.len() == 0 {
        lemma_nothing_across(events, frame, who, inbound, by_bytes, frame.columns as int);
    } else {
        law_every_message_lands_in_exactly_one_cell(
            events.drop_last(),
            frame,
            who,
            inbound,
            by_bytes,
        );
        lemma_across_one_more(events, frame, who, inbound, by_bytes, frame.columns as int);
        if frame.covers(events.last().timestamp) {
            lemma_column_is_on_the_raster(frame, events.last().timestamp);
        }
    }
}

proof fn lemma_nothing_across(
    events: Seq<Retained>,
    frame: Frame,
    who: Who,
    inbound: bool,
    by_bytes: bool,
    columns: int,
)
    requires
        events.len() == 0,
    ensures
        across(events, frame, who, inbound, by_bytes, columns) == 0,
    decreases columns,
{
    if columns > 0 {
        lemma_nothing_across(events, frame, who, inbound, by_bytes, columns - 1);
    }
}

/// What some cells come to.
pub open spec fn sum_of(cells: Seq<(usize, u64)>) -> nat
    decreases cells.len(),
{
    if cells.len() == 0 {
        0
    } else {
        sum_of(cells.drop_last()) + cells.last().1 as nat
    }
}

/// What a lane comes to.
pub open spec fn lane_sum(lane: Seq<u64>) -> nat
    decreases lane.len(),
{
    if lane.len() == 0 {
        0
    } else {
        lane_sum(lane.drop_last()) + lane.last() as nat
    }
}

/// Leaving empty cells out loses nothing, and what is left is on the raster and
/// not empty.
pub proof fn law_only_empty_cells_are_left_out(lane: Seq<u64>)
    requires
        lane.len() <= MAX_COLUMNS,
    ensures
        sum_of(occupied(lane)) == lane_sum(lane),
        forall|i: int|
            0 <= i < occupied(lane).len() ==> (#[trigger] occupied(lane)[i]).0 < lane.len()
                && occupied(lane)[i].1 == lane[occupied(lane)[i].0 as int]
                && occupied(lane)[i].1 > 0,
        forall|i: int, j: int|
            #![trigger occupied(lane)[i], occupied(lane)[j]]
            0 <= i < j < occupied(lane).len() ==> occupied(lane)[i].0 < occupied(lane)[j].0,
        forall|column: int|
            0 <= column < lane.len() && #[trigger] lane[column] > 0 ==> occupied(lane).contains(
                (column as usize, lane[column]),
            ),
    decreases lane.len(),
{
    if lane.len() > 0 {
        let rest = lane.drop_last();
        law_only_empty_cells_are_left_out(rest);
        if lane.last() > 0 {
            assert(occupied(lane).drop_last() =~= occupied(rest));
            let last = occupied(lane).len() - 1;
            assert(occupied(lane)[last] == ((lane.len() - 1) as usize, lane.last()));
        }
        assert forall|column: int|
            0 <= column < lane.len() && #[trigger] lane[column] > 0 implies occupied(lane).contains(
            (column as usize, lane[column]),
        ) by {
            if column < rest.len() {
                assert(rest[column] == lane[column]);
                let i = choose|i: int|
                    0 <= i < occupied(rest).len() && occupied(rest)[i] == (
                        column as usize,
                        rest[column],
                    );
                assert(occupied(lane)[i] == (column as usize, lane[column]));
            }
        }
    }
}

/// The peak is a real cell, and no cell is above it.
pub proof fn law_the_peak_is_a_cell(lane: Seq<u64>)
    ensures
        forall|i: int| 0 <= i < lane.len() ==> #[trigger] lane[i] <= highest(lane),
        highest(lane) > 0 ==> lane.contains(highest(lane)),
    decreases lane.len(),
{
    if lane.len() > 0 {
        let rest = lane.drop_last();
        law_the_peak_is_a_cell(rest);
        assert forall|i: int| 0 <= i < lane.len() implies #[trigger] lane[i] <= highest(lane) by {
            if i < rest.len() {
                assert(rest[i] == lane[i]);
            }
        }
        if highest(lane) > 0 {
            if lane.last() == highest(lane) {
                assert(lane[lane.len() - 1] == highest(lane));
            } else {
                let i = choose|i: int| 0 <= i < rest.len() && rest[i] == highest(rest);
                assert(lane[i] == highest(lane));
            }
        }
    }
}

/// The commands of a peer are listed the most used first, whichever way they went, each
/// once, and the one that was met first where two were used as often.
pub proof fn law_commands_are_listed_the_most_used_first(commands: Seq<(u16, CommandCounts)>)
    requires
        commands.len() <= usize::MAX,
        forall|i: int|
            0 <= i < commands.len() ==> (#[trigger] commands[i]).1.inbound + commands[i].1.outbound
                <= u64::MAX,
    ensures
        ({
            let order = order::order_of(command_keys(commands));
            &&& order.len() == commands.len()
            &&& order.no_duplicates()
            &&& forall|i: int| 0 <= i < order.len() ==> #[trigger] order[i] < commands.len()
            &&& forall|i: int, j: int|
                #![trigger order[i], order[j]]
                0 <= i < j < order.len() ==> {
                    let (a, b) = (commands[order[i] as int].1, commands[order[j] as int].1);
                    let (x, y) = (a.inbound + a.outbound, b.inbound + b.outbound);
                    x > y || x == y && order[i] < order[j]
                }
        }),
{
    let keys = command_keys(commands);
    order::law_ordered_rows_ascend(keys);
    let order = order::order_of(keys);
    assert forall|i: int, j: int|
        #![trigger order[i], order[j]]
        0 <= i < j < order.len() implies {
        let (a, b) = (commands[order[i] as int].1, commands[order[j] as int].1);
        let (x, y) = (a.inbound + a.outbound, b.inbound + b.outbound);
        x > y || x == y && order[i] < order[j]
    } by {
        assert(order[i] < keys.len() && order[j] < keys.len());
        let (a, b) = (commands[order[i] as int].1, commands[order[j] as int].1);
        assert(a.total() == a.inbound + a.outbound && b.total() == b.inbound + b.outbound);
    }
}

/// Every event of a connection in the time a raster shows has a mark, in the column of its
/// time, in the order of the events, and none other has.
pub proof fn law_a_mark_stands_in_the_column_of_its_time(
    lifecycle: Seq<Lifecycle>,
    event: Lifecycle,
    frame: Frame,
)
    requires
        frame.valid(),
        frame.start < frame.end,
    ensures
        ({
            let (before, after) = (marks(lifecycle, frame), marks(lifecycle.push(event), frame));
            let width = frame.end - frame.start;
            let past = (event.timestamp - frame.start) * frame.columns;
            if frame.start <= event.timestamp <= frame.end {
                let mark = after.last();
                &&& after.len() == before.len() + 1
                &&& after.drop_last() == before
                &&& mark.kind == event.kind
                &&& mark.timestamp == event.timestamp
                &&& mark.column < frame.columns
                &&& mark.column * width <= past
                &&& past < (mark.column + 1) * width || mark.column == frame.columns - 1
            } else {
                after == before
            }
        }),
        marks(Seq::empty(), frame).len() == 0,
{
    assert(lifecycle.push(event).drop_last() =~= lifecycle);
    law_a_column_covers_its_slice_of_time(frame, event.timestamp);
    if frame.start <= event.timestamp <= frame.end {
        assert(marks(lifecycle.push(event), frame).drop_last() =~= marks(lifecycle, frame));
        if event.timestamp == frame.end {
            let (columns, width) = (frame.columns as int, frame.end - frame.start);
            assert((columns - 1) * width <= width * columns) by (nonlinear_arith)
                requires
                    columns >= 1,
                    width > 0,
            ;
            assert((event.timestamp - frame.start) * columns == width * columns);
        }
    }
}

/// A raster has as many columns as are asked for, but one at least and no more than can be
/// told apart.
pub proof fn law_a_raster_has_the_columns_asked_for(asked: usize)
    ensures
        1 <= columns_for(asked) <= 4096,
        1 <= asked <= 4096 ==> columns_for(asked) == asked,
        asked > 4096 ==> columns_for(asked) == 4096,
        asked == 0 ==> columns_for(asked) == 1,
{
}

} // verus!
