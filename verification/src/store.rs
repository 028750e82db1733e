//! Columnar retention of individual events, under a memory budget.
//!
//! Aggregates are computed over every event in an archive, but the raw event
//! table and the JSON inspector need the events themselves. Archives rotate at
//! 1 GiB *compressed* — roughly 8 GiB and ~90M events decompressed — which no
//! browser tab can hold, so retention stops at a budget while aggregation runs
//! on to the end of the file. The UI then says the raw table covers the first
//! *N* of *M* events rather than silently showing a partial picture.
//!
//! Event bytes go into chunks rather than one growing buffer, so reaching a
//! large budget never needs a transient several times its size, and every
//! allocation is fallible, so exhaustion stops retention instead of the module.

use vstd::prelude::*;
use vstd::slice::slice_subrange;

pub mod flags;

verus! {

/// Fixed per-event cost of the columns below. Used for budget accounting.
pub const BYTES_PER_EVENT: u64 = 8 + 2 + 4 + 1 + 4 + 8 + 4;

/// How many event bytes go into one chunk. A longer event has one to itself.
const CHUNK_BYTES: usize = 4 * 1024 * 1024;

/// Marks an event that is not attributed to a peer.
pub const NO_PEER: u32 = u32::MAX;

/// Why retention stopped short.
#[derive(Debug, Clone, Copy, PartialEq, Eq)]
pub enum StoppedBecause {
    /// The budget was spent.
    Budget,
    /// An allocation failed before that.
    OutOfMemory,
}

/// One retained event, as returned to the UI.
#[derive(Debug, Clone, Copy, PartialEq, Eq)]
pub struct EventRow {
    pub index: u32,
    pub timestamp: u64,
    pub kind: u16,
    /// Dense peer index, or [`NO_PEER`].
    pub peer: u32,
    pub flags: u8,
    /// Wire size of the P2P message, where applicable.
    pub size: u32,
}

/// Which way a row's flags say its message went, if any.
pub open spec fn direction(flags: u8) -> Option<bool> {
    if flags::directed(flags) {
        Some(flags::inward(flags))
    } else {
        None
    }
}

/// Which way an event went, if it says: whether it came in.
pub fn direction_of(flags: u8) -> (inbound: Option<bool>)
    ensures
        inbound == direction(flags),
{
    if flags & flags::HAS_DIRECTION != 0 {
        Some(flags & flags::INBOUND != 0)
    } else {
        None
    }
}

impl EventRow {
    pub fn inbound(&self) -> (inbound: Option<bool>)
        ensures
            inbound == direction(self.flags),
    {
        direction_of(self.flags)
    }
}

/// A retained event.
pub struct Retained {
    pub timestamp: u64,
    pub kind: u16,
    pub peer: u32,
    pub flags: u8,
    pub size: u32,
    pub bytes: Seq<u8>,
}

/// What some retained events count towards the budget.
pub open spec fn cost(events: Seq<Retained>) -> nat
    decreases events.len(),
{
    if events.len() == 0 {
        0
    } else {
        cost(events.drop_last()) + events.last().bytes.len() + BYTES_PER_EVENT as nat
    }
}

/// What a store holds.
#[verifier::ext_equal]
pub struct Retention {
    pub events: Seq<Retained>,
    pub budget: u64,
    pub stopped: Option<StoppedBecause>,
}

/// Whether `len` bytes still fit in the last of some chunks.
spec fn fits_in_last(chunks: Seq<Vec<u8>>, len: usize) -> bool {
    chunks.len() > 0 && chunks.last()@.len() + len <= CHUNK_BYTES
}

/// What has to be allocated for an event.
#[derive(Clone, Copy)]
struct Needs {
    /// Further entries in each of the columns, and in the list of chunks if there is
    /// to be one more.
    entries: usize,
    /// The capacity of a new chunk, if there is to be one.
    chunk: Option<usize>,
}

/// The capacity of a chunk that is to hold `len` bytes to begin with: they have it to
/// themselves if they are more than go into one.
spec fn capacity_for(len: usize) -> usize {
    if len > CHUNK_BYTES {
        len
    } else {
        CHUNK_BYTES
    }
}

/// What has to be allocated for an event of `len` bytes: one more entry, and a new
/// chunk if the last one is short of room.
spec fn needed(chunks: Seq<Vec<u8>>, len: usize) -> Needs {
    Needs {
        entries: 1,
        chunk: if fits_in_last(chunks, len) {
            None
        } else {
            Some(capacity_for(len))
        },
    }
}

fn chunk_capacity(len: usize) -> (capacity: usize)
    ensures
        capacity == capacity_for(len),
{
    if len > CHUNK_BYTES {
        len
    } else {
        CHUNK_BYTES
    }
}

/// Whether some chunks are others with room for `len` bytes: the same ones if the
/// last has it, one more that is empty if not.
spec fn has_room(before: Seq<Vec<u8>>, after: Seq<Vec<u8>>, len: usize) -> bool {
    if fits_in_last(before, len) {
        after == before
    } else {
        after.len() > 0 && after.drop_last() == before && after.last()@.len() == 0
    }
}

/// Columnar event store with a byte budget.
pub struct EventStore {
    timestamp: Vec<u64>,
    kind: Vec<u16>,
    peer: Vec<u32>,
    flags: Vec<u8>,
    size: Vec<u32>,
    /// Chunk, offset in it and length of each event's encoded bytes.
    place: Vec<(usize, usize, usize)>,
    chunks: Vec<Vec<u8>>,
    used: u64,
    budget_bytes: u64,
    stopped: Option<StoppedBecause>,
}

impl View for EventStore {
    type V = Retention;

    closed spec fn view(&self) -> Retention {
        Retention {
            events: Seq::new(self.timestamp@.len(), |i: int| self.event(i)),
            budget: self.budget_bytes,
            stopped: self.stopped,
        }
    }
}

impl EventStore {
    spec fn event(&self, i: int) -> Retained {
        let (chunk, offset, length) = self.place@[i];
        Retained {
            timestamp: self.timestamp@[i],
            kind: self.kind@[i],
            peer: self.peer@[i],
            flags: self.flags@[i],
            size: self.size@[i],
            bytes: self.chunks@[chunk as int]@.subrange(offset as int, offset + length),
        }
    }

    pub closed spec fn wf(&self) -> bool {
        &&& self.kind@.len() == self.timestamp@.len()
        &&& self.peer@.len() == self.timestamp@.len()
        &&& self.flags@.len() == self.timestamp@.len()
        &&& self.size@.len() == self.timestamp@.len()
        &&& self.place@.len() == self.timestamp@.len()
        &&& forall|i: int|
            #![trigger self.place@[i]]
            0 <= i < self.place@.len() ==> {
                &&& self.place@[i].0 < self.chunks@.len()
                &&& self.place@[i].1 + self.place@[i].2 <= self.chunks@[self.place@[i].0 as int]@.len()
            }
        &&& self.used == cost(self@.events)
        &&& self.used <= self.budget_bytes
    }

    pub fn new(budget_bytes: u64) -> (store: Self)
        ensures
            store.wf(),
            store@ == (Retention { events: Seq::empty(), budget: budget_bytes, stopped: None }),
    {
        let store = EventStore {
            timestamp: Vec::new(),
            kind: Vec::new(),
            peer: Vec::new(),
            flags: Vec::new(),
            size: Vec::new(),
            place: Vec::new(),
            chunks: Vec::new(),
            used: 0,
            budget_bytes,
            stopped: None,
        };
        assert(store@.events =~= Seq::empty());
        store
    }

    /// Number of retained events.
    pub fn len(&self) -> (len: usize)
        ensures
            len == self@.events.len(),
    {
        self.timestamp.len()
    }

    pub fn is_empty(&self) -> (empty: bool)
        ensures
            empty == (self@.events.len() == 0),
    {
        self.timestamp.len() == 0
    }

    /// Whether retention has stopped.
    pub fn is_full(&self) -> (full: bool)
        ensures
            full == (self@.stopped is Some),
    {
        self.stopped.is_some()
    }

    /// Why retention stopped, if it has.
    pub fn stopped_because(&self) -> (reason: Option<StoppedBecause>)
        ensures
            reason == self@.stopped,
    {
        self.stopped
    }

    pub fn budget_bytes(&self) -> (bytes: u64)
        ensures
            bytes == self@.budget,
    {
        self.budget_bytes
    }

    /// Approximate bytes held.
    pub fn bytes_used(&self) -> (bytes: u64)
        requires
            self.wf(),
        ensures
            bytes == cost(self@.events),
            bytes <= self@.budget,
    {
        self.used
    }

    /// Retain one event. Returns false once the budget is spent, after which the
    /// caller should keep aggregating but stop expecting retention.
    ///
    /// Within the budget it is retained unless there is no memory left for it,
    /// which is up to the machine; retention stops then too.
    pub fn push(
        &mut self,
        timestamp: u64,
        kind: u16,
        peer: u32,
        flags: u8,
        size: u32,
        bytes: &[u8],
    ) -> (kept: bool)
        requires
            old(self).wf(),
        ensures
            final(self).wf(),
            pushed(
                old(self)@,
                final(self)@,
                Retained { timestamp, kind, peer, flags, size, bytes: bytes@ },
                kept,
            ),
    {
        if self.stopped.is_some() {
            return false;
        }
        let left: u64 = self.budget_bytes - self.used;
        let len: u64 = bytes.len() as u64;
        if left < BYTES_PER_EVENT || left - BYTES_PER_EVENT < len {
            self.stopped = Some(StoppedBecause::Budget);
            assert(self@.events =~= old(self)@.events);
            return false;
        }
        if !self.reserve(bytes.len()) {
            self.stopped = Some(StoppedBecause::OutOfMemory);
            assert(self@.events =~= old(self)@.events);
            return false;
        }
        let ghost was = *self;
        let chunk: usize = self.chunks.len() - 1;
        let offset: usize = self.chunks[chunk].len();
        self.chunks[chunk].extend_from_slice(bytes);
        assert(self.chunks@[chunk as int]@ =~= was.chunks@[chunk as int]@ + bytes@);
        self.place.push((chunk, offset, bytes.len()));
        self.timestamp.push(timestamp);
        self.kind.push(kind);
        self.peer.push(peer);
        self.flags.push(flags);
        self.size.push(size);
        self.used = self.used + len + BYTES_PER_EVENT;
        proof {
            let event = Retained { timestamp, kind, peer, flags, size, bytes: bytes@ };
            assert forall|i: int| 0 <= i < was.timestamp@.len() implies self.event(i) == was.event(
                i,
            ) by {
                let (c, o, l) = was.place@[i];
                assert(self.place@[i] == was.place@[i]);
                assert(self.chunks@[c as int]@.subrange(o as int, o + l)
                    =~= was.chunks@[c as int]@.subrange(o as int, o + l));
            }
            assert(self.event(was.timestamp@.len() as int).bytes =~= bytes@);
            assert(self@.events =~= was@.events.push(event));
            assert(self@.events.drop_last() =~= was@.events);
        }
        true
    }

    /// Make room for one more event of `len` bytes: in the last chunk if it fits
    /// there, in a new one if not. Nothing that is held changes.
    ///
    /// Whether there is memory for that is up to the machine. Without it nothing
    /// changes at all.
    fn reserve(&mut self, len: usize) -> (done: bool)
        requires
            old(self).wf(),
        ensures
            final(self).wf(),
            final(self)@ == old(self)@,
            final(self).used == old(self).used,
            done ==> has_room(old(self).chunks@, final(self).chunks@, len),
            !done ==> final(self).chunks@ == old(self).chunks@,
    {
        let ghost was = *self;
        let needs = self.needs(len);
        let n: usize = needs.entries;
        let columns = self.timestamp.try_reserve(n).is_ok() && self.kind.try_reserve(n).is_ok()
            && self.peer.try_reserve(n).is_ok() && self.flags.try_reserve(n).is_ok()
            && self.size.try_reserve(n).is_ok() && self.place.try_reserve(n).is_ok();
        let mut chunk: Option<Vec<u8>> = None;
        if let Some(capacity) = needs.chunk {
            let mut fresh: Vec<u8> = Vec::new();
            if columns && fresh.try_reserve(capacity).is_ok() && self.chunks.try_reserve(n).is_ok() {
                chunk = Some(fresh);
            }
        }
        assert(self@.events =~= was@.events);
        self.open_chunk(len, columns, chunk)
    }

    /// What is asked of the machine for one more event of `len` bytes.
    fn needs(&self, len: usize) -> (needs: Needs)
        ensures
            needs == needed(self.chunks@, len),
    {
        Needs {
            entries: 1,
            chunk: if self.fits_last(len) {
                None
            } else {
                Some(chunk_capacity(len))
            },
        }
    }

    /// Whether `len` bytes still fit in the last chunk.
    fn fits_last(&self, len: usize) -> (yes: bool)
        ensures
            yes == fits_in_last(self.chunks@, len),
    {
        self.chunks.len() > 0 && {
            let held: usize = self.chunks[self.chunks.len() - 1].len();
            held <= CHUNK_BYTES && len <= CHUNK_BYTES - held
        }
    }

    /// Make room for `len` bytes with the memory there turned out to be: whether the
    /// columns can grow, and the chunk to start if the last one is short of room.
    fn open_chunk(&mut self, len: usize, columns: bool, chunk: Option<Vec<u8>>) -> (done: bool)
        requires
            old(self).wf(),
            chunk matches Some(chunk) ==> chunk@.len() == 0,
        ensures
            final(self).wf(),
            final(self)@ == old(self)@,
            final(self).used == old(self).used,
            done == (columns && (fits_in_last(old(self).chunks@, len) || chunk is Some)),
            done ==> has_room(old(self).chunks@, final(self).chunks@, len),
            !done ==> final(self).chunks@ == old(self).chunks@,
    {
        let ghost was = *self;
        if !columns {
            return false;
        }
        if self.fits_last(len) {
            return true;
        }
        match chunk {
            None => false,
            Some(chunk) => {
                self.chunks.push(chunk);
                proof {
                    assert forall|i: int| 0 <= i < was.timestamp@.len() implies self.event(i)
                        == was.event(i) by {
                        assert(self.place@[i].0 < was.chunks@.len());
                    }
                    assert(self@.events =~= was@.events);
                    assert(self.chunks@.drop_last() =~= was.chunks@);
                }
                true
            },
        }
    }

    pub fn row(&self, index: u32) -> (row: Option<EventRow>)
        requires
            self.wf(),
        ensures
            row == row_of(self@, index),
    {
        let i: usize = index as usize;
        if i < self.timestamp.len() {
            Some(
                EventRow {
                    index,
                    timestamp: self.timestamp[i],
                    kind: self.kind[i],
                    peer: self.peer[i],
                    flags: self.flags[i],
                    size: self.size[i],
                },
            )
        } else {
            None
        }
    }

    /// The encoded protobuf bytes of a retained event.
    pub fn bytes(&self, index: u32) -> (bytes: Option<&[u8]>)
        requires
            self.wf(),
        ensures
            match bytes {
                Some(bytes) => index < self@.events.len() && bytes@ == self@.events[index as int].bytes,
                None => index >= self@.events.len(),
            },
    {
        let i: usize = index as usize;
        if i < self.place.len() {
            let (chunk, offset, length) = self.place[i];
            let held: usize = self.chunks[chunk].len();
            assert(offset + length <= held);
            Some(slice_subrange(self.chunks[chunk].as_slice(), offset, offset + length))
        } else {
            None
        }
    }

    /// Columns, for filtering without building an [`EventRow`] per event.
    pub fn timestamps(&self) -> (column: &[u64])
        requires
            self.wf(),
        ensures
            column@ == Seq::new(self@.events.len(), |i: int| self@.events[i].timestamp),
    {
        let column = self.timestamp.as_slice();
        assert(column@ =~= Seq::new(self@.events.len(), |i: int| self@.events[i].timestamp));
        column
    }

    pub fn kinds(&self) -> (column: &[u16])
        requires
            self.wf(),
        ensures
            column@ == Seq::new(self@.events.len(), |i: int| self@.events[i].kind),
    {
        let column = self.kind.as_slice();
        assert(column@ =~= Seq::new(self@.events.len(), |i: int| self@.events[i].kind));
        column
    }

    pub fn peers(&self) -> (column: &[u32])
        requires
            self.wf(),
        ensures
            column@ == Seq::new(self@.events.len(), |i: int| self@.events[i].peer),
    {
        let column = self.peer.as_slice();
        assert(column@ =~= Seq::new(self@.events.len(), |i: int| self@.events[i].peer));
        column
    }

    pub fn flags(&self) -> (column: &[u8])
        requires
            self.wf(),
        ensures
            column@ == Seq::new(self@.events.len(), |i: int| self@.events[i].flags),
    {
        let column = self.flags.as_slice();
        assert(column@ =~= Seq::new(self@.events.len(), |i: int| self@.events[i].flags));
        column
    }

    pub fn sizes(&self) -> (column: &[u32])
        requires
            self.wf(),
        ensures
            column@ == Seq::new(self@.events.len(), |i: int| self@.events[i].size),
    {
        let column = self.size.as_slice();
        assert(column@ =~= Seq::new(self@.events.len(), |i: int| self@.events[i].size));
        column
    }
}

/// Whether an event still fits in the budget.
pub open spec fn affordable(store: Retention, event: Retained) -> bool {
    cost(store.events) + event.bytes.len() + BYTES_PER_EVENT <= store.budget
}

/// What pushing an event comes to. Once retention has stopped nothing changes
/// any more; an event over the budget stops it; one within the budget is kept,
/// unless memory ran out.
pub open spec fn pushed(
    before: Retention,
    after: Retention,
    event: Retained,
    kept: bool,
) -> bool {
    if before.stopped is Some {
        !kept && after == before
    } else if !affordable(before, event) {
        !kept && after == (Retention { stopped: Some(StoppedBecause::Budget), ..before })
    } else if kept {
        after == (Retention { events: before.events.push(event), ..before })
    } else {
        after == (Retention { stopped: Some(StoppedBecause::OutOfMemory), ..before })
    }
}

/// A retained event's columns.
pub open spec fn row_of(store: Retention, index: u32) -> Option<EventRow> {
    if index < store.events.len() {
        let event = store.events[index as int];
        Some(
            EventRow {
                index,
                timestamp: event.timestamp,
                kind: event.kind,
                peer: event.peer,
                flags: event.flags,
                size: event.size,
            },
        )
    } else {
        None
    }
}

/// What pushing an event comes to, given whether there is memory for it.
pub open spec fn with_push(before: Retention, event: Retained, memory: bool) -> Retention {
    if before.stopped is Some {
        before
    } else if !affordable(before, event) {
        Retention { stopped: Some(StoppedBecause::Budget), ..before }
    } else if memory {
        Retention { events: before.events.push(event), ..before }
    } else {
        Retention { stopped: Some(StoppedBecause::OutOfMemory), ..before }
    }
}

/// What pushing events comes to, one after the other, given of each whether there is
/// memory for it.
pub open spec fn with_pushes(before: Retention, pushes: Seq<(Retained, bool)>) -> Retention
    decreases pushes.len(),
{
    if pushes.len() == 0 {
        before
    } else {
        with_push(
            with_pushes(before, pushes.drop_last()),
            pushes.last().0,
            pushes.last().1,
        )
    }
}

/// A push comes to one of the two.
pub proof fn law_a_push_is_kept_or_not(
    before: Retention,
    after: Retention,
    event: Retained,
    kept: bool,
)
    requires
        pushed(before, after, event, kept),
    ensures
        after == with_push(before, event, kept),
{
}

/// What is retained stays retained, and in the same place: however any number of further
/// pushes turn out, the events before them are untouched, and once retention has stopped
/// it has stopped for good. An event that is kept stands where the next one was to stand.
pub proof fn law_retained_events_stay(
    before: Retention,
    after: Retention,
    event: Retained,
    kept: bool,
    later: Seq<(Retained, bool)>,
    index: u32,
)
    requires
        pushed(before, after, event, kept),
    ensures
        after.events.is_prefix_of(with_pushes(after, later).events),
        index < after.events.len() ==> row_of(with_pushes(after, later), index) == row_of(
            after,
            index,
        ),
        row_of(with_pushes(after, later), index) is Some <==> index < with_pushes(
            after,
            later,
        ).events.len(),
        index < before.events.len() ==> row_of(after, index) == row_of(before, index),
        after.stopped is Some ==> with_pushes(after, later) == after,
        !kept ==> after.stopped is Some && after.events == before.events,
        kept && index == before.events.len() ==> row_of(with_pushes(after, later), index) == Some(
            EventRow {
                index,
                timestamp: event.timestamp,
                kind: event.kind,
                peer: event.peer,
                flags: event.flags,
                size: event.size,
            },
        ),
    decreases later.len(),
{
    if later.len() > 0 {
        law_retained_events_stay(before, after, event, kept, later.drop_last(), index);
        let earlier = with_pushes(after, later.drop_last());
        assert forall|i: int| 0 <= i < after.events.len() implies #[trigger] with_pushes(
            after,
            later,
        ).events[i] == after.events[i] by {
            assert(earlier.events[i] == after.events[i]);
        }
        assert(after.events =~= with_pushes(after, later).events.take(after.events.len() as int));
    } else {
        assert(after.events =~= after.events.take(after.events.len() as int));
    }
}

/// The budget is never exceeded, and an event that is kept can be read back.
pub proof fn law_the_budget_holds(
    before: Retention,
    after: Retention,
    event: Retained,
    kept: bool,
)
    requires
        pushed(before, after, event, kept),
        cost(before.events) <= before.budget,
    ensures
        cost(after.events) <= after.budget,
        kept ==> after.events.last() == event && after.events.len() == before.events.len() + 1,
{
    assert(before.events.push(event).drop_last() =~= before.events);
}

/// An event costs its bytes and thirty-one more, and within the budget it is kept unless
/// memory runs out; the first one over the budget is what stops retention.
pub proof fn law_an_event_costs_its_bytes_and_its_columns(
    before: Retention,
    after: Retention,
    event: Retained,
    kept: bool,
)
    requires
        pushed(before, after, event, kept),
        before.stopped is None,
    ensures
        cost(before.events.push(event)) == cost(before.events) + event.bytes.len() + 31,
        cost(Seq::empty()) == 0,
        cost(before.events) + event.bytes.len() + 31 > before.budget <==> after.stopped == Some(
            StoppedBecause::Budget,
        ),
        kept ==> after.events == before.events.push(event) && after.stopped is None,
        !kept ==> after.events == before.events && after.stopped is Some,
        after.budget == before.budget,
{
    assert(before.events.push(event).drop_last() =~= before.events);
}

} // verus!
