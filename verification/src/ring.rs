//! The waterfall's ring of rows on the graphics side: what each pending
//! change asks to be uploaded, and where the next row goes.
use vstd::prelude::*;
use crate::colormap::Colormap;
use crate::history::{next_ring_row, seed_placement, HISTORY_ROWS};

verus! {

/// How many bins a ring starts with before its first row.
pub const FIRST_BINS: usize = 1024;

/// A change waiting to reach the ring: one new row, a seed of many rows that
/// replaces what was there, or a sideways shift of every row by an amount of
/// type `S`.
pub enum Pending<S> {
    Row(Vec<u8>),
    Seed { rows: Vec<u8>, count: usize, bins: usize },
    Shift(S),
}

/// What the ring asks of the texture that holds it: to be made anew for a
/// number of bins, or to take `count` rows of bytes from ring row `at` on.
pub enum Upload<'a> {
    Reallocate(usize),
    Rows { at: usize, rows: &'a [u8], count: usize },
}

/// Whether `u` asks for `count` rows of `bytes` from ring row `at` on.
pub open spec fn rows_upload(u: Upload, at: int, bytes: Seq<u8>, count: int) -> bool {
    match u {
        Upload::Rows { at: a, rows, count: c } => a == at && rows@ == bytes && c == count,
        Upload::Reallocate(_) => false,
    }
}

/// Whether a seed holds as many bytes as its rows and bins call for.
pub open spec fn seed_fits<S>(pending: Pending<S>) -> bool {
    match pending {
        Pending::Seed { rows, count, bins } => count * bins <= rows@.len(),
        _ => true,
    }
}

/// The ring's width in bins and the ring row written next.
pub struct Ring {
    pub bins: usize,
    pub write: usize,
}

/// The ring row after `row`.
pub open spec fn after(row: int) -> int {
    (row + 1) % (HISTORY_ROWS as int)
}

impl Ring {
    /// Whether the ring is one the texture can hold: at least one bin, and
    /// its cursor on one of its rows.
    pub open spec fn wf(self) -> bool {
        &&& self.bins >= 1
        &&& self.write < HISTORY_ROWS
    }

    /// A ring of the first width, its cursor on the first row.
    pub fn new() -> (ring: Ring)
        ensures
            ring.wf(),
            ring.bins == FIRST_BINS,
            ring.write == 0,
    {
        Ring { bins: FIRST_BINS, write: 0 }
    }

    /// Applies one pending change and says what to upload, in order. A row
    /// of another width first makes the ring anew at that width and starts
    /// it over; a seed always does, and lays its newest rows from the first
    /// ring row on, or does nothing when it holds no row. A shift uploads
    /// nothing here.
    pub fn apply<'a, S>(&mut self, pending: &'a Pending<S>) -> (uploads: Vec<Upload<'a>>)
        requires
            old(self).wf(),
            seed_fits(*pending),
        ensures
            final(self).wf(),
            match *pending {
                Pending::Row(bins) => {
                    let fresh = bins@.len() != old(self).bins;
                    let width = if fresh {
                        if bins@.len() == 0 {
                            1
                        } else {
                            bins@.len() as int
                        }
                    } else {
                        old(self).bins as int
                    };
                    let at = if fresh {
                        0
                    } else {
                        old(self).write as int
                    };
                    &&& final(self).bins == width
                    &&& final(self).write == after(at)
                    &&& uploads@.len() == if fresh {
                        2int
                    } else {
                        1int
                    }
                    &&& fresh ==> uploads@[0] == Upload::Reallocate(width as usize)
                    &&& rows_upload(uploads@.last(), at, bins@, 1)
                },
                Pending::Seed { rows, count, bins } => {
                    let kept = if count < HISTORY_ROWS {
                        count as int
                    } else {
                        HISTORY_ROWS as int
                    };
                    let width = if bins == 0 {
                        1
                    } else {
                        bins as int
                    };
                    if kept == 0 {
                        &&& *final(self) == *old(self)
                        &&& uploads@.len() == 0
                    } else {
                        &&& final(self).bins == width
                        &&& final(self).write == kept % (HISTORY_ROWS as int)
                        &&& uploads@.len() == 2
                        &&& uploads@[0] == Upload::Reallocate(width as usize)
                        &&& rows_upload(
                            uploads@[1],
                            0,
                            rows@.subrange((count - kept) * bins, count * bins),
                            kept,
                        )
                    }
                },
                Pending::Shift(_) => {
                    &&& *final(self) == *old(self)
                    &&& uploads@.len() == 0
                },
            },
    {
        let mut uploads: Vec<Upload<'a>> = Vec::new();
        match pending {
            Pending::Row(bins) => {
                if bins.len() != self.bins {
                    self.allocate(bins.len());
                    uploads.push(Upload::Reallocate(self.bins));
                }
                uploads.push(Upload::Rows { at: self.write, rows: bins.as_slice(), count: 1 });
                self.write = next_ring_row(self.write, HISTORY_ROWS);
            },
            Pending::Seed { rows, count, bins } => {
                let count = *count;
                let bins = *bins;
                let place = seed_placement(count, HISTORY_ROWS);
                if place.rows == 0 {
                    return uploads;
                }
                self.allocate(bins);
                uploads.push(Upload::Reallocate(self.bins));
                let held = rows.len();
                proof {
                    assert(count * bins <= held);
                    assert(place.skip * bins + place.rows * bins == count * bins) by (nonlinear_arith)
                        requires
                            place.skip + place.rows == count,
                    ;
                    assert(place.skip * bins <= count * bins) by (nonlinear_arith)
                        requires
                            place.skip <= count,
                    ;
                }
                let from = place.skip * bins;
                let to = from + place.rows * bins;
                uploads.push(
                    Upload::Rows {
                        at: 0,
                        rows: vstd::slice::slice_subrange(rows.as_slice(), from, to),
                        count: place.rows,
                    },
                );
                self.write = place.write;
            },
            Pending::Shift(_) => {},
        }
        uploads
    }

    /// Makes the ring anew for `bins` bins, at least one, its cursor on the
    /// first row.
    fn allocate(&mut self, bins: usize)
        ensures
            final(self).bins == if bins == 0 {
                1
            } else {
                bins
            },
            final(self).write == 0,
    {
        self.bins = if bins == 0 {
            1
        } else {
            bins
        };
        self.write = 0;
    }
}

/// Whether a pending change is a row of `bytes`.
pub open spec fn is_row<S>(p: Pending<S>, bytes: Seq<u8>) -> bool {
    match p {
        Pending::Row(bins) => bins@ == bytes,
        _ => false,
    }
}

/// Whether a pending change is a seed of `count` rows of `bins` bins held in
/// `bytes`.
pub open spec fn is_seed<S>(p: Pending<S>, bytes: Seq<u8>, count: usize, bins: usize) -> bool {
    match p {
        Pending::Seed { rows, count: c, bins: b } => rows@ == bytes && c == count && b == bins,
        _ => false,
    }
}

/// The shifts among some pending changes, in order.
pub open spec fn shifts_in<S>(s: Seq<Pending<S>>) -> Seq<Pending<S>>
    decreases s.len(),
{
    if s.len() == 0 {
        Seq::empty()
    } else {
        let rest = shifts_in(s.drop_first());
        if s[0] is Shift {
            seq![s[0]] + rest
        } else {
            rest
        }
    }
}

/// What the waterfall is waiting to draw: the changes not yet applied to the
/// ring, the colour ramp, and whether the ramp changed since the last frame.
pub struct WaterfallFeed<S> {
    pub pending: Vec<Pending<S>>,
    pub colormap: Colormap,
    pub changed: bool,
}

impl<S> WaterfallFeed<S> {
    /// A feed with nothing pending, on the default ramp, due to be drawn.
    pub fn new() -> (feed: Self)
        ensures
            feed.pending@.len() == 0,
            feed.colormap == Colormap::Classic,
            feed.changed,
    {
        WaterfallFeed { pending: Vec::new(), colormap: Colormap::default(), changed: true }
    }

    /// Queues a new row; an empty one is no row.
    pub fn push_row(&mut self, bins: &[u8])
        ensures
            final(self).colormap == old(self).colormap,
            final(self).changed == old(self).changed,
            bins@.len() == 0 ==> final(self).pending@ == old(self).pending@,
            bins@.len() > 0 ==> {
                &&& final(self).pending@.len() == old(self).pending@.len() + 1
                &&& final(self).pending@.drop_last() == old(self).pending@
                &&& is_row(final(self).pending@.last(), bins@)
            },
    {
        if bins.len() > 0 {
            let mut row: Vec<u8> = Vec::new();
            let mut i: usize = 0;
            while i < bins.len()
                invariant
                    i <= bins@.len(),
                    row@ == bins@.take(i as int),
                decreases bins@.len() - i,
            {
                row.push(bins[i]);
                i += 1;
                assert(row@ =~= bins@.take(i as int));
            }
            assert(bins@.take(i as int) =~= bins@);
            let ghost before = self.pending@;
            self.pending.push(Pending::Row(row));
            assert(self.pending@.drop_last() =~= before);
        }
    }

    /// Queues a seed of `count` rows of `bins` bins. It replaces every row
    /// and seed still waiting, and keeps the shifts; a seed of no bins is
    /// none.
    pub fn seed(&mut self, rows: Vec<u8>, count: usize, bins: usize)
        ensures
            final(self).colormap == old(self).colormap,
            final(self).changed == old(self).changed,
            bins == 0 ==> final(self).pending@ == old(self).pending@,
            bins > 0 ==> {
                &&& final(self).pending@.len() == shifts_in(old(self).pending@).len() + 1
                &&& final(self).pending@.drop_last() == shifts_in(old(self).pending@)
                &&& is_seed(final(self).pending@.last(), rows@, count, bins)
            },
    {
        if bins == 0 {
            return;
        }
        let ghost all = self.pending@;
        let ghost map = self.colormap;
        let ghost changed = self.changed;
        let mut waiting: Vec<Pending<S>> = Vec::new();
        std::mem::swap(&mut waiting, &mut self.pending);
        while waiting.len() > 0
            invariant
                self.pending@ + shifts_in(waiting@) == shifts_in(all),
                self.colormap == map,
                self.changed == changed,
            decreases waiting@.len(),
        {
            let ghost before = waiting@;
            let next = waiting.remove(0);
            proof {
                assert(waiting@ =~= before.drop_first());
            }
            if matches!(next, Pending::Shift(_)) {
                let ghost kept = self.pending@;
                self.pending.push(next);
                assert(self.pending@ + shifts_in(waiting@) =~= kept + shifts_in(before));
            } else {
                assert(shifts_in(before) == shifts_in(waiting@));
            }
        }
        assert(self.pending@ =~= shifts_in(all)) by {
            assert(shifts_in(waiting@) =~= Seq::<Pending<S>>::empty());
            assert(self.pending@ + Seq::<Pending<S>>::empty() =~= self.pending@);
        }
        let ghost kept = self.pending@;
        self.pending.push(Pending::Seed { rows, count, bins });
        assert(self.pending@.drop_last() =~= kept);
    }

    /// Queues a sideways shift of every row by `delta`.
    pub fn push_shift(&mut self, delta: S)
        ensures
            final(self).colormap == old(self).colormap,
            final(self).changed == old(self).changed,
            final(self).pending@.len() == old(self).pending@.len() + 1,
            final(self).pending@.drop_last() == old(self).pending@,
            final(self).pending@.last() is Shift,
    {
        let ghost before = self.pending@;
        self.pending.push(Pending::Shift(delta));
        assert(self.pending@.drop_last() =~= before);
    }

    /// Switches to `colormap`; the feed is due to be drawn again if that is
    /// another ramp.
    pub fn set_colormap(&mut self, colormap: Colormap)
        ensures
            final(self).colormap == colormap,
            final(self).changed == (old(self).changed || old(self).colormap != colormap),
            final(self).pending@ == old(self).pending@,
    {
        self.changed = self.changed || self.colormap != colormap;
        self.colormap = colormap;
    }

    /// Hands out every pending change, oldest first, and leaves none.
    pub fn take_pending(&mut self) -> (taken: Vec<Pending<S>>)
        ensures
            taken@ == old(self).pending@,
            final(self).pending@.len() == 0,
            final(self).colormap == old(self).colormap,
            final(self).changed == old(self).changed,
    {
        let mut taken: Vec<Pending<S>> = Vec::new();
        std::mem::swap(&mut taken, &mut self.pending);
        taken
    }
}

} // verus!
