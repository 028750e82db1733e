//! Timeline histogram over an unknown, streaming time range.
//!
//! An archive's time range is not known until the last event has been read, so
//! this starts at a fine bin width and halves its resolution whenever it would
//! otherwise exceed [`MAX_BINS`] — doubling the bin width and merging adjacent
//! pairs. Memory stays bounded, no second pass is needed, and counts stay exact.
//!
//! Counts are kept per *kind*, not per group, so the UI can break a group down
//! by type (connection events by inbound/outbound/closed/…) over the whole
//! archive rather than only over the events that fit in the retention budget.
//! Group series are the sum of their kinds.
//!
//! The model of a histogram is the list of events it has been given and the grid
//! of bins it has settled on; every cell is then the number of those events that
//! the grid maps to it.

use vstd::arithmetic::div_mod::*;
use vstd::arithmetic::power2::*;
use vstd::prelude::*;

verus! {

/// Bin count ceiling. Above roughly this many bins a chart cannot show the
/// difference anyway, and it bounds memory at `MAX_BINS × kinds × 8` bytes —
/// a few megabytes for the ~100 kinds a real archive contains.
pub const MAX_BINS: usize = 4096;

/// Starting bin width. Widths only ever double from here.
pub const MIN_BIN_MS: u64 = 100;

/// How time is cut into bins: bin `i` covers
/// `[start + i * width, start + (i + 1) * width)`.
pub struct Grid {
    pub start: int,
    pub width: int,
    pub bins: int,
}

/// How many steps of `width` it takes to cover `span`.
pub open spec fn steps(span: int, width: int) -> int {
    (span + width - 1) / width
}

impl Grid {
    /// A grid with nothing on it yet.
    pub open spec fn blank() -> Grid {
        Grid { start: 0, width: MIN_BIN_MS as int, bins: 0 }
    }

    /// The bin a timestamp maps to. Anything before the grid goes in the first.
    pub open spec fn slot(self, timestamp: int) -> int {
        if timestamp < self.start {
            0
        } else {
            (timestamp - self.start) / self.width
        }
    }

    /// Half the resolution: adjacent pairs become one, and the start stays put.
    pub open spec fn coarsened(self) -> Grid {
        Grid { start: self.start, width: 2 * self.width, bins: (self.bins + 1) / 2 }
    }

    /// The grid reaching back to `timestamp`, coarsened as far as it takes, or as
    /// far back as whole bins go without crossing zero.
    pub open spec fn reaching_back(self, timestamp: int) -> Grid
        decreases self.bins + steps(self.start - timestamp, self.width),
        when self.width > 0 && self.bins >= 0 && timestamp < self.start
    {
        let wanted = steps(self.start - timestamp, self.width);
        if self.bins + wanted <= MAX_BINS {
            let room = self.start / self.width;
            let extra = if wanted <= room {
                wanted
            } else {
                room
            };
            Grid {
                start: self.start - extra * self.width,
                width: self.width,
                bins: self.bins + extra,
            }
        } else {
            proof {
                lemma_steps_halve(self.start - timestamp, self.width);
            }
            self.coarsened().reaching_back(timestamp)
        }
    }

    /// The grid reaching forward to `timestamp`, coarsened as far as it takes.
    pub open spec fn reaching_forward(self, timestamp: int) -> Grid
        decreases (timestamp - self.start) / self.width,
        when self.width > 0 && self.start <= timestamp
    {
        let index = (timestamp - self.start) / self.width;
        if index < self.bins {
            self
        } else if index < MAX_BINS {
            Grid { start: self.start, width: self.width, bins: index + 1 }
        } else {
            proof {
                lemma_slot_halves(timestamp - self.start, self.width);
            }
            self.coarsened().reaching_forward(timestamp)
        }
    }

    /// The grid once an event at `timestamp` has been given its bin.
    pub open spec fn covering(self, timestamp: int) -> Grid {
        let anchored = if self.bins == 0 {
            // Bin 0 starts on a multiple of the bin width, purely so the first
            // bin boundary is a round number.
            Grid { start: timestamp - timestamp % self.width, width: self.width, bins: 1 }
        } else {
            self
        };
        let back = if timestamp < anchored.start {
            anchored.reaching_back(timestamp)
        } else {
            anchored
        };
        if timestamp < back.start {
            back
        } else {
            back.reaching_forward(timestamp)
        }
    }

    /// A grid that recording events can lead to.
    pub open spec fn valid(self) -> bool {
        &&& 0 <= self.start
        &&& MIN_BIN_MS <= self.width <= u64::MAX
        &&& 0 <= self.bins <= MAX_BINS
        &&& self.bins > 0 ==> self.start + (self.bins - 1) * self.width <= u64::MAX
        &&& self.bins == 0 ==> self == Grid::blank()
    }
}

/// How many of the events are of this kind and map to this bin.
pub open spec fn tally(events: Seq<(u64, u16)>, grid: Grid, kind: int, bin: int) -> nat
    decreases events.len(),
{
    if events.len() == 0 {
        0
    } else {
        let (timestamp, of) = events.last();
        tally(events.drop_last(), grid, kind, bin) + if of == kind && grid.slot(timestamp as int)
            == bin {
            1nat
        } else {
            0nat
        }
    }
}

/// One kind's counts, bin by bin.
pub open spec fn row(events: Seq<(u64, u16)>, grid: Grid, kind: int) -> Seq<u64> {
    Seq::new(grid.bins as nat, |bin: int| tally(events, grid, kind, bin) as u64)
}

/// What a histogram has been given, and the grid it counts it on.
pub struct Timeline {
    pub events: Seq<(u64, u16)>,
    pub grid: Grid,
    /// One more than the highest kind given.
    pub kinds: int,
}

impl Timeline {
    pub open spec fn empty() -> Timeline {
        Timeline { events: Seq::empty(), grid: Grid::blank(), kinds: 0 }
    }

    pub open spec fn with(self, timestamp: u64, kind: u16) -> Timeline {
        Timeline {
            events: self.events.push((timestamp, kind)),
            grid: self.grid.covering(timestamp as int),
            kinds: if self.kinds <= kind {
                kind + 1
            } else {
                self.kinds
            },
        }
    }

    /// Every event has a bin and a row, and the only ones before the grid are
    /// those no grid could reach.
    pub open spec fn valid(self) -> bool {
        &&& self.grid.valid()
        &&& 0 <= self.kinds <= 0x1_0000
        &&& self.grid.bins == 0 ==> self.events.len() == 0
        &&& forall|i: int|
            #![trigger self.events[i]]
            0 <= i < self.events.len() ==> {
                &&& self.events[i].1 < self.kinds
                &&& self.grid.slot(self.events[i].0 as int) < self.grid.bins
                &&& self.events[i].0 < self.grid.start ==> self.grid.start < self.grid.width
            }
    }
}

/// Per-kind event counts over time.
pub struct Histogram {
    start_ms: u64,
    bin_ms: u64,
    bins: usize,
    /// `series[kind][bin]`. Every row is exactly `bins` long.
    series: Vec<Vec<u64>>,
    total: u64,
    events: Ghost<Seq<(u64, u16)>>,
}

impl View for Histogram {
    type V = Timeline;

    closed spec fn view(&self) -> Timeline {
        Timeline { events: self.events@, grid: self.grid(), kinds: self.series@.len() as int }
    }
}

impl Default for Histogram {
    fn default() -> (histogram: Self)
        ensures
            histogram.wf(),
            histogram@ == Timeline::empty(),
    {
        Self::new()
    }
}

impl Histogram {
    spec fn grid(&self) -> Grid {
        Grid { start: self.start_ms as int, width: self.bin_ms as int, bins: self.bins as int }
    }

    /// Whether row `kind` counts the events given so far on this grid.
    spec fn counted(&self, kind: int, grid: Grid, events: Seq<(u64, u16)>) -> bool {
        &&& self.series@[kind]@.len() == grid.bins
        &&& forall|bin: int|
            0 <= bin < grid.bins ==> #[trigger] self.series@[kind]@[bin] == tally(
                events,
                grid,
                kind,
                bin,
            )
    }

    /// Every row counts every event.
    spec fn counts(&self) -> bool {
        &&& self.total == self.events@.len()
        &&& forall|kind: int|
            0 <= kind < self.series@.len() ==> #[trigger] self.counted(
                kind,
                self.grid(),
                self.events@,
            )
    }

    pub closed spec fn wf(&self) -> bool {
        &&& self@.valid()
        &&& self.counts()
    }

    pub fn new() -> (histogram: Self)
        ensures
            histogram.wf(),
            histogram@ == Timeline::empty(),
    {
        let histogram = Histogram {
            start_ms: 0,
            bin_ms: MIN_BIN_MS,
            bins: 0,
            series: Vec::new(),
            total: 0,
            events: Ghost(Seq::empty()),
        };
        histogram
    }

    pub fn bin_ms(&self) -> (ms: u64)
        ensures
            ms == self@.grid.width,
    {
        self.bin_ms
    }

    /// Timestamp at the start of bin 0. Bin `i` covers
    /// `[start_ms + i*bin_ms, start_ms + (i+1)*bin_ms)`.
    pub fn start_ms(&self) -> (ms: u64)
        ensures
            ms == self@.grid.start,
    {
        self.start_ms
    }

    pub fn bins(&self) -> (bins: usize)
        ensures
            bins == self@.grid.bins,
    {
        self.bins
    }

    pub fn total(&self) -> (total: u64)
        requires
            self.wf(),
        ensures
            total == self@.events.len(),
    {
        self.total
    }

    pub fn is_empty(&self) -> (empty: bool)
        ensures
            empty == (self@.grid.bins == 0),
    {
        self.bins == 0
    }

    /// Counts per bin for one kind. Empty if the kind was never seen.
    pub fn series(&self, kind: u16) -> (counts: &[u64])
        requires
            self.wf(),
        ensures
            counts@ == (if kind < self@.kinds {
                row(self@.events, self@.grid, kind as int)
            } else {
                Seq::empty()
            }),
    {
        if (kind as usize) < self.series.len() {
            assert(self.counted(kind as int, self.grid(), self.events@));
            let row = self.series[kind as usize].as_slice();
            assert(row@ =~= self::row(self@.events, self@.grid, kind as int)) by {
                assert forall|bin: int| 0 <= bin < self.bins implies row@[bin] == self::row(
                    self@.events,
                    self@.grid,
                    kind as int,
                )[bin] by {
                    assert(self.series@[kind as int]@[bin] == tally(
                        self.events@,
                        self.grid(),
                        kind as int,
                        bin,
                    ));
                }
            }
            row
        } else {
            &[]
        }
    }
}

impl Histogram {
    /// Record one event.
    ///
    /// Timestamps are not guaranteed to be monotonic — the extractors are
    /// independent — so an earlier-than-`start_ms` arrival extends the histogram
    /// backwards rather than being dropped.
    pub fn add(&mut self, timestamp_ms: u64, kind: u16)
        requires
            old(self).wf(),
            old(self)@.events.len() < u64::MAX,
        ensures
            final(self).wf(),
            final(self)@ == old(self)@.with(timestamp_ms, kind),
    {
        let ghost before = self@;
        self.ensure_kind(kind);
        if self.bins == 0 {
            let ghost was = *self;
            proof {
                lemma_mod_below(timestamp_ms as int, self.bin_ms as int);
            }
            self.start_ms = timestamp_ms - timestamp_ms % self.bin_ms;
            proof {
                assert forall|k: int| 0 <= k < self.series@.len() implies #[trigger] self.counted(
                    k,
                    self.grid(),
                    self.events@,
                ) by {
                    assert(was.counted(k, was.grid(), was.events@));
                }
            }
            self.set_bins(1);
        }
        let ghost anchored = self.grid();
        if timestamp_ms < self.start_ms {
            self.extend_backwards(timestamp_ms);
        }
        let ghost back = self.grid();
        if timestamp_ms < self.start_ms {
            // The range could not reach back far enough. Count it in the first
            // bin rather than dropping it, so totals stay exact.
            self.count_at(timestamp_ms, kind, 0);
            return ;
        }
        self.extend_forwards(timestamp_ms);
        let index: usize = ((timestamp_ms - self.start_ms) / self.bin_ms) as usize;
        self.count_at(timestamp_ms, kind, index);
    }

    /// Make sure a kind has a row.
    fn ensure_kind(&mut self, kind: u16)
        requires
            old(self).wf(),
        ensures
            final(self).wf(),
            final(self)@ == (Timeline {
                kinds: if old(self)@.kinds <= kind {
                    kind + 1
                } else {
                    old(self)@.kinds
                },
                ..old(self)@
            }),
    {
        let needed: usize = kind as usize + 1;
        while self.series.len() < needed
            invariant
                self.wf(),
                needed == kind + 1,
                self@.events == old(self)@.events,
                self@.grid == old(self)@.grid,
                self@.kinds == old(self)@.kinds || old(self)@.kinds <= self@.kinds <= needed,
            decreases needed - self.series.len(),
        {
            let ghost was = *self;
            let fresh: Vec<u64> = vec![0u64; self.bins];
            self.series.push(fresh);
            proof {
                let kind = was.series@.len() as int;
                assert forall|k: int| 0 <= k < self.series@.len() implies #[trigger] self.counted(
                    k,
                    self.grid(),
                    self.events@,
                ) by {
                    if k < kind {
                        assert(was.counted(k, was.grid(), was.events@));
                    } else {
                        assert forall|bin: int| 0 <= bin < self.bins implies #[trigger] self.series@[k]@[bin]
                            == tally(self.events@, self.grid(), k, bin) by {
                            lemma_unseen_kind(self.events@, self.grid(), k, bin);
                        }
                    }
                }
            }
        }
    }

    /// Grow every row to `bins`, filling with zeroes.
    fn set_bins(&mut self, bins: usize)
        requires
            old(self).bins <= bins <= MAX_BINS,
            old(self).counts(),
            forall|i: int|
                0 <= i < old(self).events@.len() ==> old(self).grid().slot(
                    #[trigger] old(self).events@[i].0 as int,
                ) < old(self).bins,
            old(self).bin_ms > 0,
        ensures
            final(self).counts(),
            final(self).grid() == (Grid { bins: bins as int, ..old(self).grid() }),
            final(self).events == old(self).events,
            final(self).series@.len() == old(self).series@.len(),
    {
        let ghost was = *self;
        let ghost grown = Grid { bins: bins as int, ..self.grid() };
        self.bins = bins;
        let mut kind: usize = 0;
        while kind < self.series.len()
            invariant
                kind <= self.series@.len(),
                self.series@.len() == was.series@.len(),
                self.total == was.total,
                self.events == was.events,
                self.grid() == grown,
                grown == (Grid { bins: bins as int, ..was.grid() }),
                was.counts(),
                was.bins <= bins,
                forall|i: int|
                    0 <= i < was.events@.len() ==> was.grid().slot(
                        #[trigger] was.events@[i].0 as int,
                    ) < was.bins,
                forall|k: int|
                    0 <= k < kind ==> #[trigger] self.counted(k, grown, self.events@),
                forall|k: int| kind <= k < self.series@.len() ==> self.series@[k] == was.series@[k],
            decreases self.series@.len() - kind,
        {
            let ghost mid = *self;
            assert(was.counted(kind as int, was.grid(), was.events@));
            resize_zeroes(&mut self.series[kind], bins);
            proof {
                assert forall|k: int| 0 <= k <= kind implies #[trigger] self.counted(
                    k,
                    grown,
                    self.events@,
                ) by {
                    if k < kind {
                        assert(mid.counted(k, grown, mid.events@));
                    } else {
                        assert forall|bin: int| 0 <= bin < bins implies #[trigger] self.series@[k]@[bin]
                            == tally(self.events@, grown, k, bin) by {
                            lemma_same_slots(self.events@, was.grid(), grown, k, bin);
                            if bin >= was.bins {
                                lemma_beyond_bins(self.events@, grown, k, bin, was.bins as int);
                            }
                        }
                    }
                }
            }
            kind = kind + 1;
        }
    }

    /// Halve the resolution: merge adjacent pairs and double the bin width.
    ///
    /// `start_ms` deliberately stays put. Merging pairs makes bin 0 cover
    /// `[start, start + 2·bin_ms)`, which is exactly what the doubled width
    /// describes; re-aligning `start_ms` to the new width here would shift every
    /// bin by half its width, and the error would compound on each coarsening.
    fn coarsen(&mut self)
        requires
            old(self).counts(),
            0 < old(self).bin_ms <= u64::MAX / 2,
            old(self).bins <= MAX_BINS,
            forall|i: int|
                0 <= i < old(self).events@.len() ==> old(self).grid().slot(
                    #[trigger] old(self).events@[i].0 as int,
                ) < old(self).bins,
        ensures
            final(self).counts(),
            final(self).grid() == old(self).grid().coarsened(),
            final(self).events == old(self).events,
            final(self).series@.len() == old(self).series@.len(),
            forall|i: int|
                0 <= i < final(self).events@.len() ==> final(self).grid().slot(
                    #[trigger] final(self).events@[i].0 as int,
                ) < final(self).bins,
    {
        let ghost was = *self;
        let ghost coarse = self.grid().coarsened();
        let bins: usize = (self.bins + 1) / 2;
        let mut kind: usize = 0;
        while kind < self.series.len()
            invariant
                kind <= self.series@.len(),
                self.series@.len() == was.series@.len(),
                self.total == was.total,
                self.events == was.events,
                self.grid() == was.grid(),
                was.bins <= MAX_BINS,
                coarse == was.grid().coarsened(),
                bins == coarse.bins,
                was.bin_ms > 0,
                was.counts(),
                forall|i: int|
                    0 <= i < was.events@.len() ==> was.grid().slot(
                        #[trigger] was.events@[i].0 as int,
                    ) < was.bins,
                forall|k: int|
                    0 <= k < kind ==> #[trigger] self.counted(k, coarse, self.events@),
                forall|k: int| kind <= k < self.series@.len() ==> self.series@[k] == was.series@[k],
            decreases self.series@.len() - kind,
        {
            let ghost mid = *self;
            assert(was.counted(kind as int, was.grid(), was.events@));
            proof {
                assert forall|b: int| 0 <= 2 * b && 2 * b + 1 < was.bins implies
                    #[trigger] was.series@[kind as int]@[2 * b] + was.series@[kind as int]@[2 * b + 1]
                    <= u64::MAX by {
                    lemma_tally_pair(was.events@, was.grid(), kind as int, 2 * b);
                }
            }
            let merged = merge_pairs(&self.series[kind]);
            self.series[kind] = merged;
            proof {
                assert forall|k: int| 0 <= k <= kind implies #[trigger] self.counted(
                    k,
                    coarse,
                    self.events@,
                ) by {
                    if k < kind {
                        assert(mid.counted(k, coarse, mid.events@));
                    } else {
                        assert forall|bin: int| 0 <= bin < bins implies #[trigger] self.series@[k]@[bin]
                            == tally(self.events@, coarse, k, bin) by {
                            lemma_coarsened_tally(self.events@, was.grid(), k, bin);
                            assert(was.series@[k]@[2 * bin] == tally(
                                self.events@,
                                was.grid(),
                                k,
                                2 * bin,
                            ));
                            if 2 * bin + 1 >= was.bins {
                                lemma_beyond_bins(
                                    self.events@,
                                    was.grid(),
                                    k,
                                    2 * bin + 1,
                                    was.bins as int,
                                );
                            }
                        }
                    }
                }
            }
            kind = kind + 1;
        }
        let ghost merged = *self;
        self.bins = bins;
        self.bin_ms = self.bin_ms * 2;
        proof {
            assert forall|k: int| 0 <= k < self.series@.len() implies #[trigger] self.counted(
                k,
                self.grid(),
                self.events@,
            ) by {
                assert(merged.counted(k, coarse, merged.events@));
                assert(self.grid() == coarse);
            }
            assert forall|i: int| 0 <= i < self.events@.len() implies self.grid().slot(
                #[trigger] self.events@[i].0 as int,
            ) < self.bins by {
                lemma_coarsened_slot(was.grid(), self.events@[i].0 as int);
            }
        }
    }

    /// Grow the range backwards to cover `timestamp_ms`.
    ///
    /// New bins are placed on the existing grid — `start_ms` is moved back by a
    /// whole number of bins — so bin boundaries stay consistent with the counts
    /// already recorded. The shift is clamped so `start_ms` never crosses zero:
    /// a malformed event can carry a timestamp near the epoch, and an underflow
    /// here would wrap into an enormous allocation and abort the module.
    fn extend_backwards(&mut self, timestamp_ms: u64)
        requires
            old(self).wf(),
            old(self).bins > 0,
            timestamp_ms < old(self).start_ms,
        ensures
            final(self).wf(),
            final(self)@ == (Timeline {
                grid: old(self)@.grid.reaching_back(timestamp_ms as int),
                ..old(self)@
            }),
            final(self).bins > 0,
            timestamp_ms < final(self).start_ms ==> final(self).start_ms < final(self).bin_ms,
    {
        let ghost goal = self.grid().reaching_back(timestamp_ms as int);
        loop
            invariant
                self.wf(),
                self.bins > 0,
                timestamp_ms < self.start_ms,
                self.grid().reaching_back(timestamp_ms as int) == goal,
                self@.events == old(self)@.events,
                self@.kinds == old(self)@.kinds,
                goal == old(self)@.grid.reaching_back(timestamp_ms as int),
            decreases self.bins + steps(self.start_ms - timestamp_ms, self.bin_ms as int),
        {
            let span: u64 = self.start_ms - timestamp_ms;
            let wanted: u64 = div_up(span, self.bin_ms);
            proof {
                lemma_steps_halve(span as int, self.bin_ms as int);
            }
            if wanted <= MAX_BINS as u64 - self.bins as u64 {
                let room: u64 = self.start_ms / self.bin_ms;
                let extra: usize = if wanted <= room {
                    wanted as usize
                } else {
                    room as usize
                };
                proof {
                    lemma_shift_back(
                        self.start_ms as int,
                        self.bin_ms as int,
                        timestamp_ms as int,
                        extra as int,
                    );
                }
                if extra > 0 {
                    self.shift_back(extra);
                } else {
                    assert(extra * self.bin_ms == 0) by (nonlinear_arith)
                        requires
                            extra == 0,
                    ;
                }
                return ;
            }
            proof {
                lemma_room_to_double(self.grid(), wanted as int, span as int);
                lemma_coarsened_valid(self@);
            }
            self.coarsen();
        }
    }

    /// Put `extra` empty bins in front of the first.
    fn shift_back(&mut self, extra: usize)
        requires
            old(self).wf(),
            old(self).bins > 0,
            extra > 0,
            old(self).bins + extra <= MAX_BINS,
            extra * old(self).bin_ms <= old(self).start_ms,
        ensures
            final(self).wf(),
            final(self)@ == (Timeline {
                grid: Grid {
                    start: old(self)@.grid.start - extra * old(self)@.grid.width,
                    bins: old(self)@.grid.bins + extra,
                    ..old(self)@.grid
                },
                ..old(self)@
            }),
    {
        let ghost was = *self;
        let ghost shifted = Grid {
            start: self.start_ms - extra * self.bin_ms,
            bins: self.bins + extra,
            ..self.grid()
        };
        proof {
            assert(was.start_ms >= was.bin_ms) by (nonlinear_arith)
                requires
                    extra >= 1,
                    extra * was.bin_ms <= was.start_ms,
            ;
            assert forall|i: int| 0 <= i < was.events@.len() implies #[trigger] was.events@[i].0
                >= was.start_ms by {
                assert(was@.events[i].0 < was@.grid.start ==> was@.grid.start < was@.grid.width);
            }
        }
        let mut kind: usize = 0;
        while kind < self.series.len()
            invariant
                kind <= self.series@.len(),
                self.series@.len() == was.series@.len(),
                self.total == was.total,
                self.events == was.events,
                self.grid() == was.grid(),
                was.bins + extra <= MAX_BINS,
                was.bin_ms > 0,
                was.counts(),
                shifted == (Grid {
                    start: was.start_ms - extra * was.bin_ms,
                    bins: was.bins + extra,
                    ..was.grid()
                }),
                forall|i: int|
                    0 <= i < was.events@.len() ==> #[trigger] was.events@[i].0 >= was.start_ms,
                forall|k: int|
                    0 <= k < kind ==> #[trigger] self.counted(k, shifted, self.events@),
                forall|k: int| kind <= k < self.series@.len() ==> self.series@[k] == was.series@[k],
            decreases self.series@.len() - kind,
        {
            let ghost mid = *self;
            assert(was.counted(kind as int, was.grid(), was.events@));
            let mut grown: Vec<u64> = vec![0u64; extra];
            grown.append(&mut self.series[kind]);
            self.series[kind] = grown;
            proof {
                assert forall|k: int| 0 <= k <= kind implies #[trigger] self.counted(
                    k,
                    shifted,
                    self.events@,
                ) by {
                    if k < kind {
                        assert(mid.counted(k, shifted, mid.events@));
                    } else {
                        assert forall|bin: int| 0 <= bin < shifted.bins implies
                            #[trigger] self.series@[k]@[bin] == tally(
                            self.events@,
                            shifted,
                            k,
                            bin,
                        ) by {
                            lemma_shifted_tally(self.events@, was.grid(), k, bin, extra as int);
                            lemma_same_slots(
                                self.events@,
                                Grid { bins: was.bins as int, ..shifted },
                                shifted,
                                k,
                                bin,
                            );
                            if bin >= extra {
                                assert(was.series@[k]@[bin - extra] == tally(
                                    was.events@,
                                    was.grid(),
                                    k,
                                    bin - extra,
                                ));
                            }
                        }
                    }
                }
            }
            kind = kind + 1;
        }
        proof {
            assert(extra * self.bin_ms <= u64::MAX);
        }
        let ghost grown = *self;
        self.bins = self.bins + extra;
        self.start_ms = self.start_ms - extra as u64 * self.bin_ms;
        proof {
            assert forall|k: int| 0 <= k < self.series@.len() implies #[trigger] self.counted(
                k,
                self.grid(),
                self.events@,
            ) by {
                assert(grown.counted(k, shifted, grown.events@));
                assert(self.grid() == shifted);
            }
            assert(shifted.start + (shifted.bins - 1) * shifted.width == was.start_ms + (was.bins
                - 1) * was.bin_ms) by (nonlinear_arith)
                requires
                    shifted.start == was.start_ms - extra * was.bin_ms,
                    shifted.bins == was.bins + extra,
                    shifted.width == was.bin_ms,
            ;
            assert forall|i: int|
                #![trigger self@.events[i]]
                0 <= i < self@.events.len() implies {
                &&& self@.events[i].1 < self@.kinds
                &&& self@.grid.slot(self@.events[i].0 as int) < self@.grid.bins
                &&& self@.events[i].0 < self@.grid.start ==> self@.grid.start < self@.grid.width
            } by {
                assert(was@.events[i].1 < was@.kinds);
                assert(was.events@[i].0 >= was.start_ms);
                lemma_shifted_slot(was.grid(), was.events@[i].0 as int, extra as int);
            }
        }
    }

    /// Grow the range forwards to cover `timestamp_ms`.
    fn extend_forwards(&mut self, timestamp_ms: u64)
        requires
            old(self).wf(),
            old(self).bins > 0,
            old(self).start_ms <= timestamp_ms,
        ensures
            final(self).wf(),
            final(self)@ == (Timeline {
                grid: old(self)@.grid.reaching_forward(timestamp_ms as int),
                ..old(self)@
            }),
            final(self).bins > 0,
            final(self).start_ms <= timestamp_ms,
            final(self)@.grid.slot(timestamp_ms as int) < final(self)@.grid.bins,
    {
        let ghost goal = self.grid().reaching_forward(timestamp_ms as int);
        loop
            invariant
                self.wf(),
                self.bins > 0,
                self.start_ms <= timestamp_ms,
                self.grid().reaching_forward(timestamp_ms as int) == goal,
                self@.events == old(self)@.events,
                self@.kinds == old(self)@.kinds,
                goal == old(self)@.grid.reaching_forward(timestamp_ms as int),
            decreases (timestamp_ms - self.start_ms) / (self.bin_ms as int),
        {
            let index: u64 = (timestamp_ms - self.start_ms) / self.bin_ms;
            if index < self.bins as u64 {
                return ;
            }
            if index < MAX_BINS as u64 {
                let ghost was = *self;
                self.set_bins(index as usize + 1);
                proof {
                    lemma_within(self.start_ms as int, self.bin_ms as int, timestamp_ms as int);
                    assert forall|i: int|
                        #![trigger self@.events[i]]
                        0 <= i < self@.events.len() implies {
                        &&& self@.events[i].1 < self@.kinds
                        &&& self@.grid.slot(self@.events[i].0 as int) < self@.grid.bins
                        &&& self@.events[i].0 < self@.grid.start ==> self@.grid.start
                            < self@.grid.width
                    } by {
                        assert(was@.events[i].1 < was@.kinds);
                    }
                }
                return ;
            }
            proof {
                lemma_slot_halves(timestamp_ms - self.start_ms, self.bin_ms as int);
                lemma_room_to_double(self.grid(), 0, timestamp_ms - self.start_ms);
                lemma_coarsened_valid(self@);
            }
            self.coarsen();
        }
    }

    /// Count one event in the bin its timestamp maps to.
    fn count_at(&mut self, timestamp_ms: u64, kind: u16, index: usize)
        requires
            old(self).wf(),
            old(self)@.events.len() < u64::MAX,
            kind < old(self)@.kinds,
            index == old(self)@.grid.slot(timestamp_ms as int),
            index < old(self)@.grid.bins,
            timestamp_ms < old(self)@.grid.start ==> old(self)@.grid.start < old(self)@.grid.width,
        ensures
            final(self).wf(),
            final(self)@ == (Timeline {
                events: old(self)@.events.push((timestamp_ms, kind)),
                ..old(self)@
            }),
    {
        let ghost was = *self;
        assert(self.counted(kind as int, self.grid(), self.events@));
        proof {
            lemma_tally_pair(self.events@, self.grid(), kind as int, index as int);
        }
        self.total = self.total + 1;
        let held: u64 = self.series[kind as usize][index];
        self.series[kind as usize][index] = held + 1;
        self.events = Ghost(self.events@.push((timestamp_ms, kind)));
        proof {
            let pushed = was.events@.push((timestamp_ms, kind));
            assert(pushed.drop_last() =~= was.events@);
            assert forall|k: int| 0 <= k < self.series@.len() implies #[trigger] self.counted(
                k,
                self.grid(),
                self.events@,
            ) by {
                assert(was.counted(k, was.grid(), was.events@));
                assert(self.grid() == was.grid());
                assert forall|bin: int| 0 <= bin < self.bins implies #[trigger] self.series@[k]@[bin]
                    == tally(self.events@, self.grid(), k, bin) by {
                    assert(was.series@[k]@[bin] == tally(was.events@, was.grid(), k, bin));
                }
            }
            assert forall|i: int|
                #![trigger self@.events[i]]
                0 <= i < self@.events.len() implies {
                &&& self@.events[i].1 < self@.kinds
                &&& self@.grid.slot(self@.events[i].0 as int) < self@.grid.bins
                &&& self@.events[i].0 < self@.grid.start ==> self@.grid.start < self@.grid.width
            } by {
                if i < was.events@.len() {
                    assert(was@.events[i].1 < was@.kinds);
                }
            }
        }
    }
}

/// `span / width`, rounded up.
fn div_up(span: u64, width: u64) -> (count: u64)
    requires
        width > 0,
    ensures
        count == steps(span as int, width as int),
{
    proof {
        lemma_steps_round_up(span as int, width as int);
    }
    if span % width == 0 {
        span / width
    } else {
        span / width + 1
    }
}

proof fn lemma_steps_round_up(span: int, width: int)
    requires
        0 <= span <= u64::MAX,
        width > 0,
    ensures
        steps(span, width) == span / width + (if span % width == 0 {
            0int
        } else {
            1
        }),
        span % width != 0 ==> span / width < u64::MAX,
{
    assert(steps(span, width) == span / width + (if span % width == 0 {
        0int
    } else {
        1
    })) by (nonlinear_arith)
        requires
            0 <= span,
            width > 0,
            steps(span, width) == (span + width - 1) / width,
    ;
    assert(span % width != 0 ==> span / width < u64::MAX) by (nonlinear_arith)
        requires
            0 <= span <= u64::MAX,
            width > 0,
    ;
}

/// Moving the start back by whole bins reaches the timestamp, unless it stops
/// short of zero by less than a bin.
proof fn lemma_shift_back(start: int, width: int, timestamp: int, extra: int)
    requires
        0 <= timestamp < start,
        width > 0,
        extra == (if steps(start - timestamp, width) <= start / width {
            steps(start - timestamp, width)
        } else {
            start / width
        }),
    ensures
        0 <= extra * width <= start,
        timestamp < start - extra * width ==> start - extra * width < width,
{
    let wanted = steps(start - timestamp, width);
    let room = start / width;
    assert(room * width <= start && start - room * width < width && room >= 0) by (nonlinear_arith)
        requires
            start >= 0,
            width > 0,
            room == start / width,
    ;
    assert(wanted >= 0 && start - wanted * width <= timestamp) by (nonlinear_arith)
        requires
            width > 0,
            timestamp < start,
            wanted == (start - timestamp + width - 1) / width,
    ;
    assert(extra * width <= room * width && extra * width >= 0) by (nonlinear_arith)
        requires
            0 <= extra <= room,
            width > 0,
    ;
}

/// While a grid is too small for what it has to cover, its width can double.
proof fn lemma_room_to_double(grid: Grid, wanted: int, span: int)
    requires
        grid.valid(),
        grid.bins > 0,
        0 < span <= u64::MAX,
        wanted == 0 && span / grid.width >= MAX_BINS || wanted == steps(span, grid.width)
            && grid.bins + wanted > MAX_BINS,
    ensures
        grid.width <= u64::MAX / 2,
{
    let width = grid.width;
    let bins = grid.bins;
    if width > u64::MAX / 2 {
        assert(span / width <= 2) by (nonlinear_arith)
            requires
                0 < span <= u64::MAX,
                width > u64::MAX / 2,
        ;
        assert(steps(span, width) <= 3) by (nonlinear_arith)
            requires
                0 < span <= u64::MAX,
                width > u64::MAX / 2,
                steps(span, width) == (span + width - 1) / width,
        ;
        assert((bins - 1) * width > u64::MAX) by (nonlinear_arith)
            requires
                width > u64::MAX / 2,
                bins > 4000,
        ;
    }
}

/// Coarsening keeps everything a timeline promises.
proof fn lemma_coarsened_valid(timeline: Timeline)
    requires
        timeline.valid(),
        timeline.grid.bins > 0,
        timeline.grid.width <= u64::MAX / 2,
    ensures
        (Timeline { grid: timeline.grid.coarsened(), ..timeline }).valid(),
{
    let grid = timeline.grid;
    let coarse = grid.coarsened();
    assert((coarse.bins - 1) * coarse.width <= (grid.bins - 1) * grid.width) by (nonlinear_arith)
        requires
            grid.bins > 0,
            grid.width > 0,
            coarse.width == 2 * grid.width,
            2 * (coarse.bins - 1) <= grid.bins - 1,
    ;
    let after = Timeline { grid: coarse, ..timeline };
    assert forall|i: int|
        #![trigger after.events[i]]
        0 <= i < after.events.len() implies {
        &&& after.events[i].1 < after.kinds
        &&& after.grid.slot(after.events[i].0 as int) < after.grid.bins
        &&& after.events[i].0 < after.grid.start ==> after.grid.start < after.grid.width
    } by {
        assert(timeline.events[i].1 < timeline.kinds);
        lemma_coarsened_slot(grid, timeline.events[i].0 as int);
    }
}

proof fn lemma_mod_below(timestamp: int, width: int)
    requires
        timestamp >= 0,
        width > 0,
    ensures
        0 <= timestamp % width <= timestamp,
        timestamp % width < width,
{
    assert(0 <= timestamp % width <= timestamp && timestamp % width < width) by (nonlinear_arith)
        requires
            timestamp >= 0,
            width > 0,
    ;
}

/// A timestamp is at or past the start of the bin it maps to.
proof fn lemma_within(start: int, width: int, timestamp: int)
    requires
        start <= timestamp,
        width > 0,
    ensures
        start + ((timestamp - start) / width) * width <= timestamp,
        (timestamp - start) / width >= 0,
{
    assert(start + ((timestamp - start) / width) * width <= timestamp && (timestamp - start) / width
        >= 0) by (nonlinear_arith)
        requires
            start <= timestamp,
            width > 0,
    ;
}

proof fn lemma_shifted_slot(grid: Grid, timestamp: int, extra: int)
    requires
        grid.width > 0,
        extra >= 0,
        timestamp >= grid.start,
    ensures
        (Grid { start: grid.start - extra * grid.width, ..grid }).slot(timestamp) == grid.slot(
            timestamp,
        ) + extra,
        grid.slot(timestamp) >= 0,
{
    let span = timestamp - grid.start;
    lemma_div_multiples_vanish_fancy(extra, span % grid.width, grid.width);
    assert((span + extra * grid.width) / grid.width == span / grid.width + extra && span / grid.width
        >= 0 && extra * grid.width >= 0) by (nonlinear_arith)
        requires
            span >= 0,
            extra >= 0,
            grid.width > 0,
    ;
}

/// Bins put in front of the first move every count along by as many.
proof fn lemma_shifted_tally(events: Seq<(u64, u16)>, grid: Grid, kind: int, bin: int, extra: int)
    requires
        grid.width > 0,
        extra >= 0,
        forall|i: int| 0 <= i < events.len() ==> #[trigger] events[i].0 >= grid.start,
    ensures
        tally(events, Grid { start: grid.start - extra * grid.width, ..grid }, kind, bin) == tally(
            events,
            grid,
            kind,
            bin - extra,
        ),
        bin < extra ==> tally(events, grid, kind, bin - extra) == 0,
    decreases events.len(),
{
    if events.len() > 0 {
        assert(events[events.len() - 1].0 >= grid.start);
        assert forall|i: int| 0 <= i < events.drop_last().len() implies #[trigger]
            events.drop_last()[i].0 >= grid.start by {
            assert(events[i].0 >= grid.start);
        }
        lemma_shifted_tally(events.drop_last(), grid, kind, bin, extra);
        lemma_shifted_slot(grid, events.last().0 as int, extra);
    }
}

/// Lengthen a row with zeroes.
fn resize_zeroes(row: &mut Vec<u64>, len: usize)
    requires
        old(row)@.len() <= len,
    ensures
        final(row)@.len() == len,
        forall|i: int| 0 <= i < len ==> #[trigger] final(row)@[i] == (if i < old(row)@.len() {
            old(row)@[i]
        } else {
            0
        }),
{
    while row.len() < len
        invariant
            old(row)@.len() <= row@.len() <= len,
            forall|i: int| 0 <= i < row@.len() ==> #[trigger] row@[i] == (if i < old(row)@.len() {
                old(row)@[i]
            } else {
                0
            }),
        decreases len - row.len(),
    {
        row.push(0);
    }
}

/// A row with adjacent pairs added together. An odd one out stays as it is.
fn merge_pairs(row: &Vec<u64>) -> (merged: Vec<u64>)
    requires
        row@.len() <= MAX_BINS,
        forall|b: int|
            0 <= 2 * b && 2 * b + 1 < row@.len() ==> #[trigger] row@[2 * b] + row@[2 * b + 1]
                <= u64::MAX,
    ensures
        merged@.len() == (row@.len() + 1) / 2,
        forall|b: int|
            0 <= b < merged@.len() ==> #[trigger] merged@[b] == row@[2 * b] + (if 2 * b + 1
                < row@.len() {
                row@[2 * b + 1]
            } else {
                0
            }),
{
    let mut merged: Vec<u64> = Vec::new();
    let len: usize = (row.len() + 1) / 2;
    let mut bin: usize = 0;
    while bin < len
        invariant
            bin <= len,
            len == (row@.len() + 1) / 2,
            row@.len() <= MAX_BINS,
            merged@.len() == bin,
            forall|b: int|
                0 <= 2 * b && 2 * b + 1 < row@.len() ==> #[trigger] row@[2 * b] + row@[2 * b + 1]
                    <= u64::MAX,
            forall|b: int|
                0 <= b < merged@.len() ==> #[trigger] merged@[b] == row@[2 * b] + (if 2 * b + 1
                    < row@.len() {
                    row@[2 * b + 1]
                } else {
                    0
                }),
        decreases len - bin,
    {
        assert(row@[2 * bin as int] + 0 >= 0);
        let pair: u64 = if 2 * bin + 1 < row.len() {
            row[2 * bin] + row[2 * bin + 1]
        } else {
            row[2 * bin]
        };
        merged.push(pair);
        bin = bin + 1;
    }
    merged
}

/// A kind no event has counts nothing.
proof fn lemma_unseen_kind(events: Seq<(u64, u16)>, grid: Grid, kind: int, bin: int)
    requires
        forall|i: int| 0 <= i < events.len() ==> (#[trigger] events[i]).1 != kind,
    ensures
        tally(events, grid, kind, bin) == 0,
    decreases events.len(),
{
    if events.len() > 0 {
        lemma_unseen_kind(events.drop_last(), grid, kind, bin);
    }
}

/// How many bins there are does not change which bin a timestamp maps to.
proof fn lemma_same_slots(events: Seq<(u64, u16)>, a: Grid, b: Grid, kind: int, bin: int)
    requires
        a.start == b.start,
        a.width == b.width,
    ensures
        tally(events, a, kind, bin) == tally(events, b, kind, bin),
    decreases events.len(),
{
    if events.len() > 0 {
        lemma_same_slots(events.drop_last(), a, b, kind, bin);
    }
}

/// A bin past every event counts nothing.
proof fn lemma_beyond_bins(events: Seq<(u64, u16)>, grid: Grid, kind: int, bin: int, bins: int)
    requires
        bin >= bins,
        forall|i: int| 0 <= i < events.len() ==> grid.slot(#[trigger] events[i].0 as int) < bins,
    ensures
        tally(events, grid, kind, bin) == 0,
    decreases events.len(),
{
    if events.len() > 0 {
        assert(grid.slot(events[events.len() - 1].0 as int) < bins);
        assert forall|i: int| 0 <= i < events.drop_last().len() implies grid.slot(
            #[trigger] events.drop_last()[i].0 as int,
        ) < bins by {
            assert(grid.slot(events[i].0 as int) < bins);
        }
        lemma_beyond_bins(events.drop_last(), grid, kind, bin, bins);
    }
}

/// A cell never counts more than there are events, nor do two of them.
proof fn lemma_tally_pair(events: Seq<(u64, u16)>, grid: Grid, kind: int, bin: int)
    ensures
        tally(events, grid, kind, bin) + tally(events, grid, kind, bin + 1) <= events.len(),
    decreases events.len(),
{
    if events.len() > 0 {
        lemma_tally_pair(events.drop_last(), grid, kind, bin);
    }
}

proof fn lemma_coarsened_slot(grid: Grid, timestamp: int)
    requires
        grid.width > 0,
    ensures
        grid.coarsened().slot(timestamp) == grid.slot(timestamp) / 2,
        grid.slot(timestamp) >= 0,
{
    if timestamp >= grid.start {
        lemma_slot_halves(timestamp - grid.start, grid.width);
    }
}

/// On the coarser grid a bin counts what its pair counted on the finer one.
proof fn lemma_coarsened_tally(events: Seq<(u64, u16)>, grid: Grid, kind: int, bin: int)
    requires
        grid.width > 0,
    ensures
        tally(events, grid.coarsened(), kind, bin) == tally(events, grid, kind, 2 * bin) + tally(
            events,
            grid,
            kind,
            2 * bin + 1,
        ),
    decreases events.len(),
{
    if events.len() > 0 {
        lemma_coarsened_tally(events.drop_last(), grid, kind, bin);
        lemma_coarsened_slot(grid, events.last().0 as int);
    }
}

/// Twice the width takes half the steps, rounded up.
pub proof fn lemma_steps_halve(span: int, width: int)
    requires
        span > 0,
        width > 0,
    ensures
        steps(span, 2 * width) == (steps(span, width) + 1) / 2,
        steps(span, width) >= 1,
{
    assert(steps(span, 2 * width) == (steps(span, width) + 1) / 2 && steps(span, width) >= 1)
        by (nonlinear_arith)
        requires
            span > 0,
            width > 0,
            steps(span, 2 * width) == (span + 2 * width - 1) / (2 * width),
            steps(span, width) == (span + width - 1) / width,
    ;
}

/// Twice the width maps to half the index, rounded down.
pub proof fn lemma_slot_halves(span: int, width: int)
    requires
        span >= 0,
        width > 0,
    ensures
        span / (2 * width) == (span / width) / 2,
        span / width >= 0,
{
    lemma_div_denominator(span, width, 2);
    lemma_div_pos_is_pos(span, width);
    assert(width * 2 == 2 * width);
}

/// How many of the events are of this kind.
pub open spec fn of_kind(events: Seq<(u64, u16)>, kind: int) -> nat
    decreases events.len(),
{
    if events.len() == 0 {
        0
    } else {
        of_kind(events.drop_last(), kind) + if events.last().1 == kind {
            1nat
        } else {
            0nat
        }
    }
}

/// The first `bins` cells of one kind's row, added up.
pub open spec fn row_total(events: Seq<(u64, u16)>, grid: Grid, kind: int, bins: int) -> nat
    decreases bins,
{
    if bins <= 0 {
        0
    } else {
        row_total(events, grid, kind, bins - 1) + tally(events, grid, kind, bins - 1)
    }
}

/// The rows of the first `kinds` kinds, added up.
pub open spec fn table_total(events: Seq<(u64, u16)>, grid: Grid, kinds: int) -> nat
    decreases kinds,
{
    if kinds <= 0 {
        0
    } else {
        table_total(events, grid, kinds - 1) + row_total(events, grid, kinds - 1, grid.bins)
    }
}

/// A histogram's bins stay under the ceiling, every event it was given has a bin,
/// and the ones before the first bin are those no bin could reach.
pub proof fn law_a_histogram_is_valid(histogram: Histogram)
    requires
        histogram.wf(),
    ensures
        histogram@.valid(),
        histogram@.grid.bins <= MAX_BINS,
{
}

/// However often the grid has changed, a kind's row adds up to the number of
/// events of that kind.
pub proof fn law_a_row_counts_every_event_of_its_kind(timeline: Timeline, kind: int)
    requires
        timeline.valid(),
    ensures
        row_total(timeline.events, timeline.grid, kind, timeline.grid.bins) == of_kind(
            timeline.events,
            kind,
        ),
{
    assert forall|i: int| 0 <= i < timeline.events.len() implies 0 <= timeline.grid.slot(
        #[trigger] timeline.events[i].0 as int,
    ) < timeline.grid.bins by {
        assert(timeline.events[i].1 < timeline.kinds);
        lemma_coarsened_slot(timeline.grid, timeline.events[i].0 as int);
    }
    lemma_row_total(timeline.events, timeline.grid, kind, timeline.grid.bins);
}

/// Coarsening and extending never lose or duplicate an event: all the cells of
/// all the rows add up to the number of events.
pub proof fn law_no_event_is_lost(timeline: Timeline)
    requires
        timeline.valid(),
    ensures
        table_total(timeline.events, timeline.grid, timeline.kinds) == timeline.events.len(),
{
    lemma_table_total(timeline, timeline.kinds);
    assert forall|i: int| 0 <= i < timeline.events.len() implies (#[trigger] timeline.events[i]).1
        < timeline.kinds by {
    }
    law_the_kinds_add_up(timeline.events, timeline.kinds);
}

/// The first `kinds` kinds' events, added up.
pub open spec fn kinds_total(events: Seq<(u64, u16)>, kinds: int) -> nat
    decreases kinds,
{
    if kinds <= 0 {
        0
    } else {
        kinds_total(events, kinds - 1) + of_kind(events, kinds - 1)
    }
}

proof fn lemma_table_total(timeline: Timeline, kinds: int)
    requires
        timeline.valid(),
    ensures
        table_total(timeline.events, timeline.grid, kinds) == kinds_total(timeline.events, kinds),
    decreases kinds,
{
    if kinds > 0 {
        lemma_table_total(timeline, kinds - 1);
        law_a_row_counts_every_event_of_its_kind(timeline, kinds - 1);
    }
}

/// Every event is of one kind: the kinds' events add up to all there are.
pub proof fn law_the_kinds_add_up(events: Seq<(u64, u16)>, kinds: int)
    requires
        forall|i: int| 0 <= i < events.len() ==> (#[trigger] events[i]).1 < kinds,
    ensures
        kinds_total(events, kinds) == events.len(),
    decreases events.len(),
{
    if events.len() == 0 {
        lemma_kinds_step(events, events, kinds);
    } else {
        let rest = events.drop_last();
        assert forall|i: int| 0 <= i < rest.len() implies (#[trigger] rest[i]).1 < kinds by {
            assert(events[i].1 < kinds);
        }
        law_the_kinds_add_up(rest, kinds);
        lemma_kinds_step(events, rest, kinds);
        assert(events[events.len() - 1].1 < kinds);
    }
}

proof fn lemma_kinds_step(events: Seq<(u64, u16)>, rest: Seq<(u64, u16)>, kinds: int)
    requires
        events.len() > 0 ==> rest == events.drop_last(),
    ensures
        events.len() == 0 ==> kinds_total(events, kinds) == 0,
        events.len() > 0 ==> kinds_total(events, kinds) == kinds_total(rest, kinds) + (if events.last().1
            < kinds {
            1nat
        } else {
            0nat
        }),
    decreases kinds,
{
    if kinds > 0 {
        lemma_kinds_step(events, rest, kinds - 1);
    }
}

proof fn lemma_row_total(events: Seq<(u64, u16)>, grid: Grid, kind: int, bins: int)
    requires
        forall|i: int|
            0 <= i < events.len() ==> 0 <= grid.slot(#[trigger] events[i].0 as int) < bins,
    ensures
        row_total(events, grid, kind, bins) == of_kind(events, kind),
    decreases events.len(),
{
    if events.len() == 0 {
        lemma_row_step(events, events, grid, kind, bins);
    } else {
        let rest = events.drop_last();
        assert forall|i: int| 0 <= i < rest.len() implies 0 <= grid.slot(
            #[trigger] rest[i].0 as int,
        ) < bins by {
            assert(grid.slot(events[i].0 as int) < bins);
        }
        lemma_row_total(rest, grid, kind, bins);
        lemma_row_step(events, rest, grid, kind, bins);
        assert(grid.slot(events[events.len() - 1].0 as int) < bins);
    }
}

proof fn lemma_row_step(
    events: Seq<(u64, u16)>,
    rest: Seq<(u64, u16)>,
    grid: Grid,
    kind: int,
    bins: int,
)
    requires
        events.len() > 0 ==> rest == events.drop_last(),
    ensures
        events.len() == 0 ==> row_total(events, grid, kind, bins) == 0,
        events.len() > 0 ==> row_total(events, grid, kind, bins) == row_total(
            rest,
            grid,
            kind,
            bins,
        ) + (if events.last().1 == kind && 0 <= grid.slot(events.last().0 as int) < bins {
            1nat
        } else {
            0nat
        }),
    decreases bins,
{
    if bins > 0 {
        lemma_row_step(events, rest, grid, kind, bins - 1);
    }
}

/// Whether a width is one that doubling the first one leads to.
pub open spec fn doubled(width: int) -> bool {
    exists|times: nat| width == MIN_BIN_MS * #[trigger] pow2(times)
}

proof fn lemma_doubled(width: int)
    requires
        doubled(width),
    ensures
        doubled(2 * width),
{
    let times = choose|times: nat| width == MIN_BIN_MS * #[trigger] pow2(times);
    lemma_pow2_unfold(times + 1);
    assert(2 * width == MIN_BIN_MS * pow2(times + 1));
}

proof fn lemma_back_doubles(grid: Grid, timestamp: int)
    requires
        grid.width > 0,
        grid.bins >= 0,
        0 <= timestamp < grid.start,
        doubled(grid.width),
    ensures
        doubled(grid.reaching_back(timestamp).width),
        grid.reaching_back(timestamp).width >= grid.width,
        grid.reaching_back(timestamp).start >= 0,
        grid.reaching_back(timestamp).bins >= 0,
    decreases grid.bins + steps(grid.start - timestamp, grid.width),
{
    let wanted = steps(grid.start - timestamp, grid.width);
    lemma_steps_halve(grid.start - timestamp, grid.width);
    if grid.bins + wanted <= MAX_BINS {
        let room = grid.start / grid.width;
        let extra = if wanted <= room {
            wanted
        } else {
            room
        };
        lemma_div_pos_is_pos(grid.start, grid.width);
        assert(extra * grid.width <= grid.start) by (nonlinear_arith)
            requires
                0 <= extra <= grid.start / grid.width,
                grid.width > 0,
                grid.start >= 0,
        ;
    } else {
        lemma_doubled(grid.width);
        lemma_back_doubles(grid.coarsened(), timestamp);
    }
}

proof fn lemma_forward_doubles(grid: Grid, timestamp: int)
    requires
        grid.width > 0,
        grid.bins >= 0,
        grid.start <= timestamp,
        doubled(grid.width),
    ensures
        doubled(grid.reaching_forward(timestamp).width),
        grid.reaching_forward(timestamp).width >= grid.width,
        grid.reaching_forward(timestamp).start == grid.start,
        grid.reaching_forward(timestamp).bins >= 0,
    decreases (timestamp - grid.start) / grid.width,
{
    let index = (timestamp - grid.start) / grid.width;
    lemma_div_pos_is_pos(timestamp - grid.start, grid.width);
    if index >= grid.bins && index >= MAX_BINS {
        lemma_slot_halves(timestamp - grid.start, grid.width);
        lemma_doubled(grid.width);
        lemma_forward_doubles(grid.coarsened(), timestamp);
    }
}

/// The timeline of some events, given one after the other.
pub open spec fn laid_out(events: Seq<(u64, u16)>) -> Timeline
    decreases events.len(),
{
    if events.len() == 0 {
        Timeline::empty()
    } else {
        laid_out(events.drop_last()).with(events.last().0, events.last().1)
    }
}

/// The longest span of time that bins of the first width can show.
pub const FINEST_SPAN_MS: u64 = 409_500;

/// Whether all events lie within that span of each other.
pub open spec fn close_together(events: Seq<(u64, u16)>) -> bool {
    forall|i: int, j: int|
        #![trigger events[i], events[j]]
        0 <= i < events.len() && 0 <= j < events.len() ==> events[j].0 - events[i].0
            <= FINEST_SPAN_MS
}

/// Whether a grid of the first width reaches from the first of some events to the last.
spec fn snug(grid: Grid, events: Seq<(u64, u16)>) -> bool {
    &&& grid.width == MIN_BIN_MS
    &&& grid.start % 100 == 0
    &&& grid.start >= 0
    &&& 0 < grid.bins <= MAX_BINS
    &&& forall|i: int| 0 <= i < events.len() ==> grid.start <= (#[trigger] events[i]).0
    &&& exists|i: int| 0 <= i < events.len() && (#[trigger] events[i]).0 < grid.start + 100
    &&& exists|i: int|
        0 <= i < events.len() && ((#[trigger] events[i]).0 - grid.start) / 100 == grid.bins - 1
}

proof fn lemma_snug(events: Seq<(u64, u16)>)
    requires
        close_together(events),
    ensures
        laid_out(events).grid.width == MIN_BIN_MS,
        events.len() == 0 ==> laid_out(events) == Timeline::empty(),
        events.len() > 0 ==> snug(laid_out(events).grid, events),
    decreases events.len(),
{
    if events.len() > 0 {
        let front = events.drop_last();
        let last = events.len() - 1;
        let timestamp = events[last].0 as int;
        assert forall|i: int, j: int|
            #![trigger front[i], front[j]]
            0 <= i < front.len() && 0 <= j < front.len() implies front[j].0 - front[i].0
            <= FINEST_SPAN_MS by {
            assert(events[i] == front[i] && events[j] == front[j]);
        }
        lemma_snug(front);
        let before = laid_out(front).grid;
        let after = laid_out(events).grid;
        assert(after == before.covering(timestamp));
        if front.len() == 0 {
            assert(before == Grid::blank());
            assert(after == (Grid { start: timestamp - timestamp % 100, width: 100, bins: 1 }));
            assert(events[last].0 < after.start + 100);
        } else {
            let low = choose|i: int|
                0 <= i < front.len() && (#[trigger] front[i]).0 < before.start + 100;
            let high = choose|i: int|
                0 <= i < front.len() && ((#[trigger] front[i]).0 - before.start) / 100
                    == before.bins - 1;
            assert(events[low] == front[low]);
            assert(events[high] == front[high]);
            assert(events[last].0 - events[low].0 <= FINEST_SPAN_MS);
            assert(events[high].0 - events[last].0 <= FINEST_SPAN_MS);
            assert forall|i: int| 0 <= i < front.len() implies before.start <= (
            #[trigger] events[i]).0 by {
                assert(front[i] == events[i]);
            }
            if timestamp < before.start {
                let wanted = steps(before.start - timestamp, 100);
                assert(before.bins + wanted <= MAX_BINS);
                assert(wanted <= before.start / 100);
                let back = before.reaching_back(timestamp);
                assert(back == (Grid {
                    start: before.start - wanted * 100,
                    width: 100,
                    bins: before.bins + wanted,
                }));
                assert((timestamp - back.start) / 100 == 0);
                assert(after == back);
                assert(events[last].0 < after.start + 100);
                assert((events[high].0 - after.start) / 100 == after.bins - 1);
            } else {
                let index = (timestamp - before.start) / 100;
                assert(index < MAX_BINS);
                if index < before.bins {
                    assert(after == before);
                    assert((events[high].0 - after.start) / 100 == after.bins - 1);
                } else {
                    assert(after == (Grid {
                        start: before.start,
                        width: 100,
                        bins: index + 1,
                    }));
                    assert((events[last].0 - after.start) / 100 == after.bins - 1);
                }
                assert(events[low].0 < after.start + 100);
            }
        }
    }
}

/// Bins start at the width they start at and only ever double: the width is that one
/// times a power of two, one more event never makes it smaller, and as long as the events
/// lie close enough together it stays what it was.
pub proof fn law_widths_only_double(events: Seq<(u64, u16)>)
    ensures
        doubled(laid_out(events).grid.width),
        laid_out(events).grid.width >= MIN_BIN_MS,
        laid_out(events).grid.start >= 0,
        laid_out(events).grid.bins >= 0,
        events.len() > 0 ==> laid_out(events).grid.width >= laid_out(
            events.drop_last(),
        ).grid.width,
        close_together(events) ==> laid_out(events).grid.width == MIN_BIN_MS,
    decreases events.len(),
{
    lemma2_to64();
    if close_together(events) {
        lemma_snug(events);
    }
    if events.len() == 0 {
        assert(MIN_BIN_MS * pow2(0) == MIN_BIN_MS);
    } else {
        law_widths_only_double(events.drop_last());
        let before = laid_out(events.drop_last()).grid;
        let timestamp = events.last().0 as int;
        lemma_mod_bound(timestamp, before.width);
        lemma_mod_decreases(timestamp as nat, before.width as nat);
        let anchored = if before.bins == 0 {
            Grid { start: timestamp - timestamp % before.width, width: before.width, bins: 1 }
        } else {
            before
        };
        let back = if timestamp < anchored.start {
            lemma_back_doubles(anchored, timestamp);
            anchored.reaching_back(timestamp)
        } else {
            anchored
        };
        if timestamp >= back.start {
            lemma_forward_doubles(back, timestamp);
        }
    }
}

/// A bin counts the events of its slice of time: one more event adds one to the bin whose
/// slice it is in, in the row of its kind, and to no other. The bins are equally wide and
/// follow each other from the start of the grid on; what comes before that is in the first.
pub proof fn law_an_event_is_counted_in_the_bin_of_its_time(
    events: Seq<(u64, u16)>,
    event: (u64, u16),
    grid: Grid,
    kind: int,
    bin: int,
)
    requires
        grid.width > 0,
        bin >= 0,
    ensures
        tally(events.push(event), grid, kind, bin) == tally(events, grid, kind, bin) + if event.1
            == kind && (grid.start + bin * grid.width <= event.0 < grid.start + (bin + 1)
            * grid.width || event.0 < grid.start && bin == 0) {
            1nat
        } else {
            0nat
        },
        tally(Seq::empty(), grid, kind, bin) == 0,
{
    assert(events.push(event).drop_last() =~= events);
    lemma_slice(event.0 - grid.start, grid.width, bin);
    assert(bin * grid.width >= 0) by (nonlinear_arith)
        requires
            bin >= 0,
            grid.width > 0,
    ;
}

/// A quotient says which slice a number is in.
pub proof fn lemma_slice(span: int, width: int, at: int)
    requires
        width > 0,
    ensures
        span / width == at <==> at * width <= span < (at + 1) * width,
{
    lemma_fundamental_div_mod(span, width);
    lemma_mod_bound(span, width);
    let quotient = span / width;
    assert(quotient * width <= span < (quotient + 1) * width) by (nonlinear_arith)
        requires
            span == width * quotient + span % width,
            0 <= span % width < width,
    ;
    if quotient < at {
        assert((quotient + 1) * width <= at * width) by (nonlinear_arith)
            requires
                quotient + 1 <= at,
                width > 0,
        ;
    } else if at < quotient {
        assert((at + 1) * width <= quotient * width) by (nonlinear_arith)
            requires
                at + 1 <= quotient,
                width > 0,
        ;
    }
}

/// The grid grows only as far as it has to: the first event starts it on a round tenth of a
/// second; a later one that has a bin leaves it as it is; one past the end adds bins up to
/// its own; and the bins get wider only where 4096 of half their width would not have been
/// enough to reach it.
pub proof fn law_the_grid_grows_only_as_far_as_it_must(grid: Grid, timestamp: u64)
    requires
        grid.valid(),
        grid.bins == 0 || grid.start <= timestamp,
    ensures
        ({
            let after = grid.covering(timestamp as int);
            let wide = grid.width;
            &&& grid.bins == 0 ==> after.start <= timestamp < after.start + 100 && after.start % 100
                == 0 && after.width == 100 && after.bins == 1
            &&& grid.bins > 0 ==> {
                &&& after.start == grid.start
                &&& after.width >= grid.width
                &&& timestamp < grid.start + grid.bins * wide ==> after == grid
                &&& grid.start + grid.bins * wide <= timestamp < grid.start + 4096 * wide
                    ==> after.width == wide && after.start + (after.bins - 1) * wide <= timestamp
                    < after.start + after.bins * wide
                &&& timestamp >= grid.start + 4096 * wide ==> after.width % 2 == 0 && timestamp
                    >= grid.start + 4096 * (after.width / 2)
                &&& timestamp < after.start + 4096 * after.width
            }
        }),
{
    let time = timestamp as int;
    if grid.bins > 0 {
        let index = (time - grid.start) / grid.width;
        lemma_slice(time - grid.start, grid.width, index);
        lemma_reach(grid, time);
        if timestamp < grid.start + grid.bins * grid.width {
            assert(index < grid.bins) by (nonlinear_arith)
                requires
                    index * grid.width <= time - grid.start,
                    time - grid.start < grid.bins * grid.width,
                    grid.width > 0,
            ;
        } else {
            assert(index >= grid.bins) by (nonlinear_arith)
                requires
                    time - grid.start < (index + 1) * grid.width,
                    time - grid.start >= grid.bins * grid.width,
                    grid.width > 0,
            ;
        }
        if timestamp < grid.start + 4096 * grid.width {
            assert(index < 4096) by (nonlinear_arith)
                requires
                    index * grid.width <= time - grid.start,
                    time - grid.start < 4096 * grid.width,
                    grid.width > 0,
            ;
        } else {
            assert(index >= 4096) by (nonlinear_arith)
                requires
                    time - grid.start < (index + 1) * grid.width,
                    time - grid.start >= 4096 * grid.width,
                    grid.width > 0,
            ;
        }
    } else {
        let anchored = Grid { start: time - time % 100, width: 100, bins: 1 };
        assert((time - anchored.start) / 100 == 0);
    }
}

proof fn lemma_reach(grid: Grid, timestamp: int)
    requires
        grid.width > 0,
        0 < grid.bins <= MAX_BINS,
        grid.start <= timestamp,
    ensures
        ({
            let after = grid.reaching_forward(timestamp);
            &&& after.start == grid.start
            &&& after.width >= grid.width
            &&& timestamp < after.start + 4096 * after.width
            &&& (timestamp - grid.start) / grid.width < 4096 ==> after.width == grid.width
            &&& (timestamp - grid.start) / grid.width >= 4096 ==> after.width % 2 == 0 && timestamp
                >= grid.start + 4096 * (after.width / 2)
        }),
    decreases (timestamp - grid.start) / grid.width,
{
    let index = (timestamp - grid.start) / grid.width;
    lemma_slice(timestamp - grid.start, grid.width, index);
    lemma_div_pos_is_pos(timestamp - grid.start, grid.width);
    if index < 4096 {
        assert(timestamp - grid.start < 4096 * grid.width) by (nonlinear_arith)
            requires
                timestamp - grid.start < (index + 1) * grid.width,
                index < 4096,
                grid.width > 0,
        ;
    } else {
        lemma_slot_halves(timestamp - grid.start, grid.width);
        let coarse = grid.coarsened();
        lemma_reach(coarse, timestamp);
        assert(timestamp - grid.start >= 4096 * grid.width) by (nonlinear_arith)
            requires
                index * grid.width <= timestamp - grid.start,
                index >= 4096,
                grid.width > 0,
        ;
    }
}

} // verus!
