//! The spectrum history behind the waterfall: a ring of byte rows, resampled
//! when the bin count changes.
use vstd::prelude::*;

verus! {

/// How many rows the waterfall ring holds.
pub const HISTORY_ROWS: usize = 1024;

/// The largest byte of a sequence, or 0 for an empty one.
pub open spec fn seq_max(s: Seq<u8>) -> u8
    decreases s.len(),
{
    if s.len() == 0 {
        0
    } else {
        let rest = seq_max(s.drop_last());
        if s.last() > rest {
            s.last()
        } else {
            rest
        }
    }
}

/// The first source bin that output bin `x` of `to` covers out of `from`.
pub open spec fn first_source(x: int, from: int, to: int) -> int {
    let low = x * from / to;
    if low < from - 1 {
        low
    } else {
        from - 1
    }
}

/// The last source bin that output bin `x` of `to` covers out of `from`.
pub open spec fn last_source(x: int, from: int, to: int) -> int {
    let product = (x + 1) * from;
    let ceiling = product / to + if product % to == 0 {
        0int
    } else {
        1int
    };
    let end = if ceiling >= 1 {
        ceiling - 1
    } else {
        0
    };
    let low = first_source(x, from, to);
    let high = if end > low {
        end
    } else {
        low
    };
    if high < from - 1 {
        high
    } else {
        from - 1
    }
}

/// One row of `row.len()` bins drawn at `to` bins: each output bin keeps the
/// peak of the source bins it covers.
pub open spec fn resampled_row(row: Seq<u8>, to: int) -> Seq<u8> {
    Seq::new(
        to as nat,
        |x: int|
            seq_max(
                row.subrange(
                    first_source(x, row.len() as int, to),
                    last_source(x, row.len() as int, to) + 1,
                ),
            ),
    )
}

/// Row `r` of a block of rows `width` bytes wide.
pub open spec fn row_at(rows: Seq<u8>, r: int, width: int) -> Seq<u8> {
    rows.subrange(r * width, r * width + width)
}

/// The first `count` rows of `rows`, each `from` bins wide, redrawn at `to` bins.
pub open spec fn resampled_rows(rows: Seq<u8>, count: int, from: int, to: int) -> Seq<u8>
    decreases count,
{
    if count <= 0 {
        Seq::empty()
    } else if from == 0 || to == 0 {
        resampled_rows(rows, count - 1, from, to) + Seq::new(to as nat, |x: int| 0u8)
    } else {
        resampled_rows(rows, count - 1, from, to) + resampled_row(
            row_at(rows, count - 1, from),
            to,
        )
    }
}

proof fn lemma_resampled_rows_len(rows: Seq<u8>, count: int, from: int, to: int)
    requires
        count >= 0,
        to >= 0,
    ensures
        resampled_rows(rows, count, from, to).len() == count * to,
    decreases count,
{
    if count > 0 {
        lemma_resampled_rows_len(rows, count - 1, from, to);
        assert(resampled_rows(rows, count, from, to).len() == resampled_rows(
            rows,
            count - 1,
            from,
            to,
        ).len() + to);
        assert((count - 1) * to + to == count * to) by (nonlinear_arith);
    } else {
        assert(count * to == 0) by (nonlinear_arith)
            requires
                count == 0,
        ;
    }
}

proof fn lemma_source_bounds(x: int, from: int, to: int)
    requires
        0 <= x < to,
        from > 0,
    ensures
        0 <= first_source(x, from, to) <= last_source(x, from, to) < from,
{
    assert(x * from >= 0) by (nonlinear_arith)
        requires
            x >= 0,
            from > 0,
    ;
    assert(x * from / to >= 0) by (nonlinear_arith)
        requires
            x * from >= 0,
            to > 0,
    ;
}

/// Redraws `count` rows of `from_bins` bins at `to_bins` bins. Every output bin
/// keeps the peak of the source bins under it, so a narrow peak survives a
/// narrowing and a short row is stretched by repeating its bins. With no source
/// or no target bins every output byte is 0.
pub fn resample_rows(rows: &[u8], count: usize, from_bins: usize, to_bins: usize) -> (out: Vec<u8>)
    requires
        count * to_bins <= usize::MAX,
        from_bins > 0 && to_bins > 0 ==> count * from_bins <= rows@.len(),
    ensures
        out@ == resampled_rows(rows@, count as int, from_bins as int, to_bins as int),
        out@.len() == count * to_bins,
{
    let mut out: Vec<u8> = Vec::new();
    let available: usize = rows.len();
    let mut row: usize = 0;
    while row < count
        invariant
            row <= count,
            count * to_bins <= usize::MAX,
            from_bins > 0 && to_bins > 0 ==> count * from_bins <= rows@.len(),
            available == rows@.len(),
            out@ == resampled_rows(rows@, row as int, from_bins as int, to_bins as int),
        decreases count - row,
    {
        proof {
            lemma_resampled_rows_len(rows@, row as int, from_bins as int, to_bins as int);
        }
        let ghost before = out@;
        if from_bins == 0 || to_bins == 0 {
            let mut x: usize = 0;
            while x < to_bins
                invariant
                    x <= to_bins,
                    out@ == before + Seq::new(x as nat, |i: int| 0u8),
                decreases to_bins - x,
            {
                out.push(0);
                x += 1;
                assert(out@ =~= before + Seq::new(x as nat, |i: int| 0u8));
            }
            assert(Seq::new(to_bins as nat, |i: int| 0u8) =~= Seq::new(x as nat, |i: int| 0u8));
        } else {
            assert(row * from_bins + from_bins <= count * from_bins) by (nonlinear_arith)
                requires
                    row < count,
            ;
            assert(row * from_bins <= usize::MAX);
            let base: usize = row * from_bins;
            let ghost source = row_at(rows@, row as int, from_bins as int);
            let mut x: usize = 0;
            while x < to_bins
                invariant
                    x <= to_bins,
                    from_bins > 0,
                    to_bins > 0,
                    base + from_bins <= rows@.len(),
                    available == rows@.len(),
                    base == row * from_bins,
                    source == row_at(rows@, row as int, from_bins as int),
                    out@ == before + resampled_row(source, to_bins as int).take(x as int),
                decreases to_bins - x,
            {
                let wide_from: u128 = from_bins as u128;
                let wide_to: u128 = to_bins as u128;
                assert((x as int) * (from_bins as int) <= u128::MAX) by (nonlinear_arith)
                    requires
                        x < 0x1_0000_0000_0000_0000int,
                        from_bins < 0x1_0000_0000_0000_0000int,
                ;
                assert((x + 1) * (from_bins as int) <= u128::MAX - 1) by (nonlinear_arith)
                    requires
                        x + 1 <= 0x1_0000_0000_0000_0000int,
                        from_bins < 0x1_0000_0000_0000_0000int,
                ;
                let low_wide: u128 = (x as u128) * wide_from / wide_to;
                let low: usize = if low_wide < wide_from - 1 {
                    low_wide as usize
                } else {
                    from_bins - 1
                };
                let product: u128 = ((x + 1) as u128) * wide_from;
                assert(product / wide_to <= product) by (nonlinear_arith)
                    requires
                        wide_to >= 1,
                ;
                let ceiling: u128 = product / wide_to + if product % wide_to == 0 {
                    0
                } else {
                    1
                };
                let end_wide: u128 = if ceiling >= 1 {
                    ceiling - 1
                } else {
                    0
                };
                let high_wide: u128 = if end_wide > low as u128 {
                    end_wide
                } else {
                    low as u128
                };
                let high: usize = if high_wide < wide_from - 1 {
                    high_wide as usize
                } else {
                    from_bins - 1
                };
                proof {
                    lemma_source_bounds(x as int, from_bins as int, to_bins as int);
                    assert(low == first_source(x as int, from_bins as int, to_bins as int));
                    assert(high == last_source(x as int, from_bins as int, to_bins as int));
                }
                let mut best: u8 = 0;
                let mut i: usize = low;
                while i <= high
                    invariant
                        low <= i <= high + 1,
                        high < from_bins,
                        base + from_bins <= rows@.len(),
                        available == rows@.len(),
                        source == rows@.subrange(base as int, base + from_bins),
                        best == seq_max(source.subrange(low as int, i as int)),
                    decreases high + 1 - i,
                {
                    let value = rows[base + i];
                    assert(source.subrange(low as int, i + 1).drop_last() =~= source.subrange(
                        low as int,
                        i as int,
                    ));
                    if value > best {
                        best = value;
                    }
                    i += 1;
                }
                out.push(best);
                x += 1;
                assert(out@ =~= before + resampled_row(source, to_bins as int).take(x as int));
            }
            assert(resampled_row(source, to_bins as int).take(to_bins as int) =~= resampled_row(
                source,
                to_bins as int,
            ));
        }
        row += 1;
    }
    proof {
        lemma_resampled_rows_len(rows@, count as int, from_bins as int, to_bins as int);
    }
    out
}

} // verus!

verus! {

/// Resamples one row to `to` bins, keeping the peak under each output bin.
pub fn resample_row(row: &[u8], to: usize) -> (out: Vec<u8>)
    ensures
        row@.len() > 0 && to > 0 ==> out@ == resampled_row(row@, to as int),
        out@.len() == to,
{
    let n = row.len();
    assert(1 * to <= usize::MAX);
    assert(1 * n <= row@.len());
    let out = resample_rows(row, 1, n, to);
    proof {
        assert(out@.len() == 1 * to);
        if n > 0 && to > 0 {
            assert(resampled_rows(row@, 0, n as int, to as int) =~= Seq::<u8>::empty());
            assert(row_at(row@, 0, n as int) =~= row@);
            assert(out@ =~= resampled_row(row@, to as int));
        }
    }
    out
}

/// Where a seed of `count` rows lands in a ring of `rings` rows: how many of
/// the oldest rows are skipped, how many are laid down from the bottom, and
/// which ring row is written next.
#[derive(Clone, Copy, Debug, PartialEq, Eq)]
pub struct SeedPlacement {
    pub skip: usize,
    pub rows: usize,
    pub write: usize,
}

/// Places a seed of `count` rows in a ring of `rings` rows, keeping the newest.
pub fn seed_placement(count: usize, rings: usize) -> (place: SeedPlacement)
    ensures
        place.rows == if count < rings {
            count
        } else {
            rings
        },
        place.skip == count - place.rows,
        place.write == if rings > 0 {
            place.rows % rings
        } else {
            0
        },
{
    let rows = if count < rings {
        count
    } else {
        rings
    };
    SeedPlacement {
        skip: count - rows,
        rows,
        write: if rings > 0 {
            rows % rings
        } else {
            0
        },
    }
}

/// The ring row written after `row` in a ring of `rings` rows.
pub fn next_ring_row(row: usize, rings: usize) -> (next: usize)
    requires
        row < usize::MAX,
    ensures
        next == if rings > 0 {
            ((row + 1) % (rings as int)) as usize
        } else {
            0
        },
        rings > 0 ==> next < rings,
{
    if rings > 0 {
        (row + 1) % rings
    } else {
        0
    }
}

/// What a history hands out: its rows oldest first, laid end to end, with the
/// meta of each row.
#[derive(Clone, Debug, Default, PartialEq)]
pub struct SpectrumHistory<M> {
    pub rows: Vec<u8>,
    pub count: usize,
    pub bins: usize,
    pub meta: Vec<M>,
}

/// The rows of a sequence laid end to end.
pub open spec fn flatten(rows: Seq<Seq<u8>>) -> Seq<u8>
    decreases rows.len(),
{
    if rows.len() == 0 {
        Seq::empty()
    } else {
        flatten(rows.drop_last()) + rows.last()
    }
}

/// A sequence cut down to its newest `HISTORY_ROWS` entries after one push.
pub open spec fn keep_newest<T>(s: Seq<T>) -> Seq<T> {
    if s.len() > HISTORY_ROWS {
        s.drop_first()
    } else {
        s
    }
}

/// The last `HISTORY_ROWS` rows of the waterfall, each with the meta it was
/// recorded with.
pub struct History<M> {
    ring: Vec<Vec<u8>>,
    meta: Vec<Option<M>>,
    bins: usize,
    write: usize,
    filled: usize,
}

impl<M: Copy> History<M> {
    /// The ring slot that holds the `k`-th oldest row.
    pub closed spec fn slot(self, k: int) -> int {
        ring_slot(self.write as int, self.filled as int, k)
    }

    pub closed spec fn wf(self) -> bool {
        &&& self.write < HISTORY_ROWS
        &&& self.filled <= HISTORY_ROWS
        &&& ((self.ring@.len() == 0 && self.meta@.len() == 0 && self.filled == 0 && self.bins
            == 0) || (self.ring@.len() == HISTORY_ROWS && self.meta@.len() == HISTORY_ROWS
            && self.bins > 0 && (forall|p: int|
            0 <= p < HISTORY_ROWS ==> (#[trigger] self.ring@[p])@.len() == self.bins) && (forall|
            k: int,
        |
            0 <= k < self.filled ==> (#[trigger] self.meta@[self.slot(k)]) is Some)))
    }

    /// The held rows, oldest first.
    pub closed spec fn rows(self) -> Seq<Seq<u8>> {
        Seq::new(self.filled as nat, |k: int| self.ring@[self.slot(k)]@)
    }

    /// The meta of each held row, oldest first.
    pub closed spec fn metas(self) -> Seq<M> {
        Seq::new(self.filled as nat, |k: int| self.meta@[self.slot(k)]->0)
    }

    /// How many bins each held row has.
    pub closed spec fn width(self) -> nat {
        self.bins as nat
    }
}

impl<M: Copy> Default for History<M> {
    fn default() -> (held: Self)
        ensures
            held.wf(),
            held.rows() == Seq::<Seq<u8>>::empty(),
            held.metas() == Seq::<M>::empty(),
            held.width() == 0,
    {
        let held = History { ring: Vec::new(), meta: Vec::new(), bins: 0, write: 0, filled: 0 };
        assert(held.rows() =~= Seq::<Seq<u8>>::empty());
        assert(held.metas() =~= Seq::<M>::empty());
        held
    }
}


/// A copy of a byte slice.
pub fn copy_of(bytes: &[u8]) -> (out: Vec<u8>)
    ensures
        out@ == bytes@,
{
    let mut out: Vec<u8> = Vec::new();
    let mut i: usize = 0;
    while i < bytes.len()
        invariant
            i <= bytes@.len(),
            out@ == bytes@.take(i as int),
        decreases bytes@.len() - i,
    {
        out.push(bytes[i]);
        i += 1;
        assert(out@ =~= bytes@.take(i as int));
    }
    assert(bytes@.take(i as int) =~= bytes@);
    out
}

/// The held rows after the bin count changes from `from` to `to`: unchanged
/// when it does not change, each resampled when it does.
pub open spec fn carried(rows: Seq<Seq<u8>>, from: nat, to: nat) -> Seq<Seq<u8>> {
    if from == to {
        rows
    } else {
        rows.map_values(|row: Seq<u8>| resampled_row(row, to as int))
    }
}

fn empty_slots<M>() -> (meta: Vec<Option<M>>)
    ensures
        meta@.len() == HISTORY_ROWS,
        forall|p: int| 0 <= p < HISTORY_ROWS ==> meta@[p] is None,
{
    let mut meta: Vec<Option<M>> = Vec::new();
    let mut i: usize = 0;
    while i < HISTORY_ROWS
        invariant
            i <= HISTORY_ROWS,
            meta@.len() == i,
            forall|p: int| 0 <= p < i ==> meta@[p] is None,
        decreases HISTORY_ROWS - i,
    {
        meta.push(None);
        i += 1;
    }
    meta
}

fn blank_ring(bins: usize) -> (ring: Vec<Vec<u8>>)
    ensures
        ring@.len() == HISTORY_ROWS,
        forall|p: int| 0 <= p < HISTORY_ROWS ==> (#[trigger] ring@[p])@.len() == bins,
{
    let mut ring: Vec<Vec<u8>> = Vec::new();
    let mut i: usize = 0;
    while i < HISTORY_ROWS
        invariant
            i <= HISTORY_ROWS,
            ring@.len() == i,
            forall|p: int| 0 <= p < i ==> (#[trigger] ring@[p])@.len() == bins,
        decreases HISTORY_ROWS - i,
    {
        let mut row: Vec<u8> = Vec::new();
        let mut j: usize = 0;
        while j < bins
            invariant
                j <= bins,
                row@.len() == j,
            decreases bins - j,
        {
            row.push(0);
            j += 1;
        }
        ring.push(row);
        i += 1;
    }
    ring
}

/// The ring slot of the `k`-th oldest of `filled` rows when `write` is next.
pub open spec fn ring_slot(write: int, filled: int, k: int) -> int {
    (write + HISTORY_ROWS - filled + k) % (HISTORY_ROWS as int)
}

proof fn lemma_slot_step(w: int, f: int)
    requires
        0 <= w < HISTORY_ROWS,
        0 <= f <= HISTORY_ROWS,
    ensures
        forall|k: int| 0 <= k < f && k + HISTORY_ROWS > f ==> #[trigger] ring_slot(w, f, k) != w,
        ring_slot(w, f, f) == w,
        forall|k: int| 0 <= k < f ==> 0 <= #[trigger] ring_slot(w, f, k) < HISTORY_ROWS,
        f < HISTORY_ROWS ==> forall|k: int|
            0 <= k <= f ==> #[trigger] ring_slot((w + 1) % (HISTORY_ROWS as int), f + 1, k)
                == ring_slot(w, f, k),
        f == HISTORY_ROWS ==> forall|k: int|
            0 <= k < f ==> #[trigger] ring_slot((w + 1) % (HISTORY_ROWS as int), f, k)
                == ring_slot(w, f, k + 1),
{
    let n = HISTORY_ROWS as int;
    assert forall|k: int| 0 <= k < f && k + HISTORY_ROWS > f implies #[trigger] ring_slot(w, f, k)
        != w by {
        let x = w + n - f + k;
        if x < n {
            vstd::arithmetic::div_mod::lemma_small_mod(x as nat, n as nat);
        } else {
            vstd::arithmetic::div_mod::lemma_small_mod((x - n) as nat, n as nat);
            vstd::arithmetic::div_mod::lemma_mod_add_multiples_vanish(x - n, n);
        }
    }
}

impl<M: Copy> History<M> {
    /// Appends one row with its meta. An empty row is ignored. When the bin
    /// count changes, the rows already held are resampled to the new count;
    /// once the ring is full the oldest row is dropped.
    pub fn record(&mut self, bins: &[u8], meta: M)
        requires
            old(self).wf(),
        ensures
            final(self).wf(),
            bins@.len() == 0 ==> final(self).rows() == old(self).rows() && final(self).metas()
                == old(self).metas() && final(self).width() == old(self).width(),
            bins@.len() > 0 ==> final(self).width() == bins@.len() && final(self).rows()
                == keep_newest(
                carried(old(self).rows(), old(self).width(), bins@.len()).push(bins@),
            ) && final(self).metas() == keep_newest(old(self).metas().push(meta)),
            bins@.len() > 0 && (old(self).rows().len() == 0 || old(self).width() == bins@.len())
                ==> flatten(final(self).rows()) == (flatten(old(self).rows()) + bins@).skip(
                (old(self).rows().len() + 1 - final(self).rows().len()) * bins@.len(),
            ) && final(self).rows().len() == if old(self).rows().len() < HISTORY_ROWS {
                old(self).rows().len() + 1
            } else {
                HISTORY_ROWS as nat
            },
    {
        let n = bins.len();
        if n == 0 {
            return;
        }
        let ghost before_rows = self.rows();
        let ghost before_metas = self.metas();
        let ghost old_filled = self.filled;
        let ghost old_write = self.write;
        let ghost old_ring = self.ring@;
        if n != self.bins {
            if self.filled > 0 {
                let mut fresh: Vec<Vec<u8>> = Vec::new();
                let mut p: usize = 0;
                while p < HISTORY_ROWS
                    invariant
                        p <= HISTORY_ROWS,
                        self.wf(),
                        self.filled > 0,
                        n > 0,
                        self.ring@ == old_ring,
                        fresh@.len() == p,
                        forall|q: int|
                            0 <= q < p ==> (#[trigger] fresh@[q])@ == resampled_row(
                                old_ring[q]@,
                                n as int,
                            ),
                    decreases HISTORY_ROWS - p,
                {
                    let row = resample_row(self.ring[p].as_slice(), n);
                    fresh.push(row);
                    p += 1;
                }
                self.ring = fresh;
                proof {
                    assert forall|k: int| 0 <= k < self.filled implies (#[trigger] self.meta@[self.slot(
                        k,
                    )]) is Some by {
                        assert(self.slot(k) == old(self).slot(k));
                    }
                    assert forall|k: int| 0 <= k < self.filled implies (#[trigger] self.ring@[self.slot(
                        k,
                    )])@ == resampled_row(before_rows[k], n as int) by {
                        assert(before_rows[k] == old_ring[self.slot(k)]@);
                    }
                    assert(self.rows() =~= carried(before_rows, self.bins as nat, n as nat));
                }
            } else {
                self.ring = blank_ring(n);
                self.meta = empty_slots();
                self.write = 0;
                assert(self.rows() =~= carried(before_rows, self.bins as nat, n as nat));
            }
            self.bins = n;
        }
        assert(self.meta@.len() == HISTORY_ROWS);
        if self.meta.len() != HISTORY_ROWS {
            self.meta = empty_slots();
        }
        proof {
            if n == old(self).bins {
                assert(self.rows() =~= carried(before_rows, old(self).bins as nat, n as nat));
            }
            assert(self.metas() =~= before_metas);
        }
        proof {
            assert forall|k: int| 0 <= k < self.filled implies (#[trigger] self.meta@[self.slot(
                k,
            )]) is Some by {
                assert(self.slot(k) == old(self).slot(k));
            }
        }
        let ghost mid = *self;
        assert(mid.wf());
        let w = self.write;
        let row = copy_of(bins);
        self.ring.set(w, row);
        self.meta.set(w, Some(meta));
        self.write = (w + 1) % HISTORY_ROWS;
        if self.filled < HISTORY_ROWS {
            self.filled = self.filled + 1;
        }
        proof {
            let f = mid.filled as int;
            lemma_slot_step(w as int, f);
            assert forall|p: int| 0 <= p < HISTORY_ROWS implies (#[trigger] self.ring@[p])@.len()
                == self.bins by {
                if p != w {
                    assert(self.ring@[p] == mid.ring@[p]);
                }
            }
            if f < HISTORY_ROWS {
                assert forall|k: int| 0 <= k <= f implies #[trigger] self.slot(k) == mid.slot(k) by {
                    lemma_slot_step(w as int, f);
                }
                assert forall|k: int| 0 <= k < self.filled implies (#[trigger] self.meta@[self.slot(
                    k,
                )]) is Some by {
                    if k < f {
                        assert(self.slot(k) == mid.slot(k));
                    }
                }
                assert(self.rows() =~= mid.rows().push(bins@));
                assert(self.metas() =~= mid.metas().push(meta));
            } else {
                assert forall|k: int| 0 <= k < f implies #[trigger] self.slot(k) == mid.slot(k + 1) by {
                    lemma_slot_step(w as int, f);
                }
                assert forall|k: int| 0 <= k < self.filled implies (#[trigger] self.meta@[self.slot(
                    k,
                )]) is Some by {
                    assert(self.slot(k) == mid.slot(k + 1));
                }
                assert(self.rows() =~= mid.rows().push(bins@).drop_first());
                assert(self.metas() =~= mid.metas().push(meta).drop_first());
            }
            assert(mid.rows() == carried(old(self).rows(), old(self).width(), bins@.len()));
            assert(mid.metas() == old(self).metas());
            assert(self.rows() == keep_newest(carried(old(self).rows(), old(self).width(), bins@.len()).push(bins@)));
            assert(self.metas() == keep_newest(old(self).metas().push(meta)));
            if old(self).rows().len() == 0 || old(self).width() == bins@.len() {
                law_read_after_record(*old(self), *self, bins@, meta);
            }
        }
    }
}

/// Appends every byte of `bytes` to `out`.
pub fn append_bytes(out: &mut Vec<u8>, bytes: &[u8])
    ensures
        final(out)@ == old(out)@ + bytes@,
{
    let ghost start = out@;
    let mut i: usize = 0;
    while i < bytes.len()
        invariant
            i <= bytes@.len(),
            out@ == start + bytes@.take(i as int),
        decreases bytes@.len() - i,
    {
        out.push(bytes[i]);
        i += 1;
        assert(out@ =~= start + bytes@.take(i as int));
    }
    assert(bytes@.take(i as int) =~= bytes@);
}

impl<M: Copy> History<M> {
    /// The meta of the newest row, if any row is held.
    pub fn newest(&self) -> (newest: Option<M>)
        requires
            self.wf(),
        ensures
            newest == if self.metas().len() > 0 {
                Some(self.metas().last())
            } else {
                None::<M>
            },
    {
        if self.filled > 0 {
            proof {
                assert(self.slot(self.filled - 1) == (self.write + HISTORY_ROWS - 1) % (
                HISTORY_ROWS as int));
            }
            self.meta[(self.write + HISTORY_ROWS - 1) % HISTORY_ROWS]
        } else {
            None
        }
    }

    /// The held rows oldest first, laid end to end, with their metas.
    pub fn read(&self) -> (out: SpectrumHistory<M>)
        requires
            self.wf(),
        ensures
            out.rows@ == flatten(self.rows()),
            out.count == self.rows().len(),
            out.bins == self.width(),
            out.meta@ == self.metas(),
    {
        let mut rows: Vec<u8> = Vec::new();
        let mut meta: Vec<M> = Vec::new();
        let first = (self.write + HISTORY_ROWS - self.filled) % HISTORY_ROWS;
        let mut k: usize = 0;
        while k < self.filled
            invariant
                self.wf(),
                k <= self.filled,
                first == (self.write + HISTORY_ROWS - self.filled) % (HISTORY_ROWS as int),
                rows@ == flatten(self.rows().take(k as int)),
                meta@ == self.metas().take(k as int),
            decreases self.filled - k,
        {
            let at = (first + k) % HISTORY_ROWS;
            proof {
                assert(at == self.slot(k as int));
                assert(self.rows().take(k + 1).drop_last() =~= self.rows().take(k as int));
                assert(self.rows().take(k + 1).last() == self.ring@[at as int]@);
            }
            append_bytes(&mut rows, self.ring[at].as_slice());
            meta.push(self.meta[at].unwrap());
            k += 1;
            assert(meta@ =~= self.metas().take(k as int));
        }
        assert(self.rows().take(k as int) =~= self.rows());
        assert(self.metas().take(k as int) =~= self.metas());
        SpectrumHistory { rows, count: self.filled, bins: self.bins, meta }
    }
}

/// A history holds at most `HISTORY_ROWS` rows, one meta for each, and every
/// row it holds has its width in bins.
pub proof fn law_history_shape<M: Copy>(h: History<M>)
    requires
        h.wf(),
    ensures
        h.rows().len() <= HISTORY_ROWS,
        h.metas().len() == h.rows().len(),
        forall|k: int| 0 <= k < h.rows().len() ==> (#[trigger] h.rows()[k]).len() == h.width(),
        h.rows().len() > 0 ==> h.width() > 0,
{
    assert forall|k: int| 0 <= k < h.rows().len() implies (#[trigger] h.rows()[k]).len() == h.width() by {
        let p = h.slot(k);
        assert(0 <= p < HISTORY_ROWS);
        assert(h.rows()[k] == h.ring@[p]@);
    }
}

/// Rows laid end to end are the first row followed by the rest.
proof fn lemma_flatten_first(s: Seq<Seq<u8>>)
    requires
        s.len() > 0,
    ensures
        flatten(s) == s[0] + flatten(s.drop_first()),
    decreases s.len(),
{
    if s.len() == 1 {
        assert(s.drop_first() =~= Seq::<Seq<u8>>::empty());
        assert(s.drop_last() =~= Seq::<Seq<u8>>::empty());
        assert(flatten(s.drop_last()) == Seq::<u8>::empty());
        assert(flatten(s.drop_first()) == Seq::<u8>::empty());
        assert(s.last() == s[0]);
        assert(flatten(s) =~= s[0]);
        assert(s[0] + flatten(s.drop_first()) =~= s[0]);
    } else {
        lemma_flatten_first(s.drop_last());
        assert(s.drop_last().drop_first() =~= s.drop_first().drop_last());
        assert(s.drop_first().last() == s.last());
        assert(s.drop_last()[0] == s[0]);
        assert(flatten(s) =~= s[0] + flatten(s.drop_first()));
    }
}

/// Reading after recording a non-empty row of the width the history holds
/// (or into an empty history): one row more, up to `HISTORY_ROWS`; the bytes
/// read are those read before followed by the new row, with the oldest
/// row's bytes dropped when the ring was full; and likewise the metas, the
/// newest being the one just recorded.
pub proof fn law_read_after_record<M: Copy>(h0: History<M>, h1: History<M>, bins: Seq<u8>, meta: M)
    requires
        h0.wf(),
        bins.len() > 0,
        h0.rows().len() == 0 || h0.width() == bins.len(),
        h1.width() == bins.len(),
        h1.rows() == keep_newest(carried(h0.rows(), h0.width(), bins.len()).push(bins)),
        h1.metas() == keep_newest(h0.metas().push(meta)),
    ensures
        h1.rows().len() == if h0.rows().len() < HISTORY_ROWS {
            h0.rows().len() + 1
        } else {
            HISTORY_ROWS as nat
        },
        flatten(h1.rows()) == (flatten(h0.rows()) + bins).skip(
            (h0.rows().len() + 1 - h1.rows().len()) * bins.len(),
        ),
        h1.metas() == h0.metas().push(meta).skip(h0.rows().len() + 1 - h1.rows().len()),
        h1.metas().len() == h1.rows().len(),
        h1.metas().last() == meta,
{
    law_history_shape(h0);
    let r0 = h0.rows();
    if h0.width() != bins.len() {
        assert(r0 =~= Seq::<Seq<u8>>::empty());
        assert(carried(r0, h0.width(), bins.len()) =~= r0);
    }
    assert(carried(r0, h0.width(), bins.len()) == r0);
    let pushed = r0.push(bins);
    assert(pushed.drop_last() =~= r0);
    assert(flatten(pushed) == flatten(r0) + bins);
    let m0 = h0.metas();
    if pushed.len() > HISTORY_ROWS {
        lemma_flatten_first(pushed);
        assert(pushed[0].len() == bins.len());
        assert((flatten(r0) + bins).skip((1 * bins.len()) as int) =~= flatten(pushed.drop_first()));
        assert(m0.push(meta).drop_first() =~= m0.push(meta).skip(1));
    } else {
        assert((flatten(r0) + bins).skip((0 * bins.len()) as int) =~= flatten(pushed));
        assert(m0.push(meta).skip(0) =~= m0.push(meta));
    }
}

/// The ring row the cursor reaches from `row` after `steps` rows are written
/// to a ring of `rings` rows.
pub open spec fn cursor_after(row: int, steps: nat, rings: int) -> int
    decreases steps,
{
    if steps == 0 {
        row
    } else {
        let prev = cursor_after(row, (steps - 1) as nat, rings);
        if rings > 0 {
            (prev + 1) % rings
        } else {
            0
        }
    }
}

/// Writing rows moves the cursor one ring row on each time, wrapping at the
/// end: after a ring's worth of rows it is back where it began.
pub proof fn law_cursor_wraps(row: int, rings: int, steps: nat)
    requires
        0 <= row < rings,
    ensures
        cursor_after(row, steps, rings) == (row + steps) % rings,
        cursor_after(row, rings as nat, rings) == row,
{
    lemma_cursor_steps(row, rings, steps);
    lemma_cursor_steps(row, rings, rings as nat);
    vstd::arithmetic::div_mod::lemma_mod_add_multiples_vanish(row, rings);
    vstd::arithmetic::div_mod::lemma_small_mod(row as nat, rings as nat);
}

proof fn lemma_cursor_steps(row: int, rings: int, steps: nat)
    requires
        0 <= row < rings,
    ensures
        cursor_after(row, steps, rings) == (row + steps) % rings,
    decreases steps,
{
    if steps == 0 {
        vstd::arithmetic::div_mod::lemma_small_mod(row as nat, rings as nat);
    } else {
        lemma_cursor_steps(row, rings, (steps - 1) as nat);
        let prev = row + steps - 1;
        vstd::arithmetic::div_mod::lemma_add_mod_noop(prev, 1, rings);
        if rings > 1 {
            vstd::arithmetic::div_mod::lemma_small_mod(1nat, rings as nat);
        } else {
            assert(((prev % rings) + 1) % rings == 0 && (prev + 1) % rings == 0) by (nonlinear_arith)
                requires
                    rings == 1,
            ;
        }
    }
}

/// Every ring row is written within one ring's worth of rows, wherever the
/// cursor starts.
pub proof fn law_cursor_visits_every_row(row: int, rings: int, target: int)
    requires
        0 <= row < rings,
        0 <= target < rings,
    ensures
        exists|steps: nat| steps < rings && #[trigger] cursor_after(row, steps, rings) == target,
{
    let steps: nat = if target >= row {
        (target - row) as nat
    } else {
        (target + rings - row) as nat
    };
    lemma_cursor_steps(row, rings, steps);
    if target >= row {
        vstd::arithmetic::div_mod::lemma_small_mod(target as nat, rings as nat);
    } else {
        vstd::arithmetic::div_mod::lemma_mod_add_multiples_vanish(target, rings);
        vstd::arithmetic::div_mod::lemma_small_mod(target as nat, rings as nat);
    }
    assert(cursor_after(row, steps, rings) == target);
}

/// Recording keeps at most a ring's worth of rows, the newest last: the one
/// just recorded.
pub proof fn law_recorded_row_is_newest<T>(held: Seq<T>, x: T)
    requires
        held.len() <= HISTORY_ROWS,
    ensures
        keep_newest(held.push(x)).last() == x,
        keep_newest(held.push(x)).len() == if held.len() < HISTORY_ROWS {
            held.len() + 1
        } else {
            HISTORY_ROWS as nat
        },
        keep_newest(held.push(x)) == held.push(x).skip(held.push(x).len() - keep_newest(held.push(x)).len()),
{
    assert(held.push(x).skip(0) =~= held.push(x));
    assert(held.push(x).drop_first() =~= held.push(x).skip(1));
}


proof fn lemma_seq_max_ge(s: Seq<u8>, k: int)
    requires
        0 <= k < s.len(),
    ensures
        seq_max(s) >= s[k],
    decreases s.len(),
{
    if k < s.len() - 1 {
        lemma_seq_max_ge(s.drop_last(), k);
    }
}

proof fn lemma_bin_is_covered(j: int, from: int, to: int)
    requires
        0 <= j < from,
        to > 0,
    ensures
        0 <= j * to / from < to,
        first_source(j * to / from, from, to) <= j <= last_source(j * to / from, from, to),
{
    let x = j * to / from;
    assert(0 <= j * to) by (nonlinear_arith)
        requires
            j >= 0,
            to > 0,
    ;
    assert(x * from <= j * to && j * to < (x + 1) * from) by (nonlinear_arith)
        requires
            x == j * to / from,
            from > 0,
            j * to >= 0,
    ;
    assert(0 <= x < to) by (nonlinear_arith)
        requires
            x * from <= j * to,
            j * to < (x + 1) * from,
            j < from,
            from > 0,
            to > 0,
            j * to >= 0,
    ;
    assert(x * from / to <= j) by (nonlinear_arith)
        requires
            x * from <= j * to,
            to > 0,
            x >= 0,
            from > 0,
    ;
    let product = (x + 1) * from;
    let ceiling = product / to + if product % to == 0 {
        0int
    } else {
        1int
    };
    assert(ceiling - 1 >= j) by (nonlinear_arith)
        requires
            j * to < product,
            to > 0,
            j >= 0,
            ceiling == product / to + if product % to == 0 {
                0int
            } else {
                1int
            },
    ;
}

/// Resampling keeps every peak: each source bin's level is reached by some
/// output bin, whether the row is narrowed or stretched.
pub proof fn law_peaks_survive_resampling(row: Seq<u8>, to: int, j: int)
    requires
        0 <= j < row.len(),
        to > 0,
    ensures
        exists|x: int| 0 <= x < to && #[trigger] resampled_row(row, to)[x] >= row[j],
{
    let from = row.len() as int;
    let x = j * to / from;
    lemma_bin_is_covered(j, from, to);
    lemma_source_bounds(x, from, to);
    let first = first_source(x, from, to);
    let last = last_source(x, from, to);
    let run = row.subrange(first, last + 1);
    assert(run[j - first] == row[j]);
    lemma_seq_max_ge(run, j - first);
    assert(resampled_row(row, to)[x] == seq_max(run));
}


proof fn lemma_seq_max_is_an_element(s: Seq<u8>)
    requires
        s.len() > 0,
    ensures
        exists|k: int| 0 <= k < s.len() && s[k] == seq_max(s),
    decreases s.len(),
{
    if s.len() == 1 {
        assert(s.drop_last().len() == 0);
        assert(seq_max(s.drop_last()) == 0);
        assert(s[0] == seq_max(s));
    } else {
        lemma_seq_max_is_an_element(s.drop_last());
        let k = choose|k: int| 0 <= k < s.drop_last().len() && s.drop_last()[k] == seq_max(s.drop_last());
        if s.last() > seq_max(s.drop_last()) {
            assert(s[s.len() - 1] == seq_max(s));
        } else {
            assert(s[k] == seq_max(s));
        }
    }
}

proof fn lemma_seq_max_bounded(s: Seq<u8>, bound: u8)
    requires
        forall|k: int| 0 <= k < s.len() ==> s[k] <= bound,
    ensures
        seq_max(s) <= bound,
    decreases s.len(),
{
    if s.len() > 0 {
        lemma_seq_max_bounded(s.drop_last(), bound);
    }
}

/// Resampling draws nothing new and loses no peak: every output bin holds
/// the level of some source bin, and the loudest output bin is as loud as
/// the loudest source bin.
pub proof fn law_resampling_keeps_levels(row: Seq<u8>, to: int)
    requires
        row.len() > 0,
        to > 0,
    ensures
        forall|x: int| 0 <= x < to ==> exists|j: int| 0 <= j < row.len() && #[trigger] resampled_row(row, to)[x] == row[j],
        seq_max(resampled_row(row, to)) == seq_max(row),
{
    let out = resampled_row(row, to);
    let from = row.len() as int;
    assert forall|x: int| 0 <= x < to implies exists|j: int| 0 <= j < row.len() && #[trigger] out[x] == row[j] by {
        lemma_source_bounds(x, from, to);
        let first = first_source(x, from, to);
        let run = row.subrange(first, last_source(x, from, to) + 1);
        lemma_seq_max_is_an_element(run);
        let k = choose|k: int| 0 <= k < run.len() && run[k] == seq_max(run);
        assert(out[x] == row[first + k]);
    }
    lemma_seq_max_is_an_element(row);
    let j0 = choose|k: int| 0 <= k < row.len() && row[k] == seq_max(row);
    assert forall|x: int| 0 <= x < out.len() implies out[x] <= seq_max(row) by {
        let j = choose|j: int| 0 <= j < row.len() && out[x] == row[j];
        lemma_seq_max_ge(row, j);
    }
    lemma_seq_max_bounded(out, seq_max(row));
    law_peaks_survive_resampling(row, to, j0);
    let x = choose|x: int| 0 <= x < to && #[trigger] resampled_row(row, to)[x] >= row[j0];
    lemma_seq_max_ge(out, x);
}

/// A row drawn at its own width comes back unchanged.
proof fn lemma_same_width_row(row: Seq<u8>)
    requires
        row.len() > 0,
    ensures
        resampled_row(row, row.len() as int) == row,
{
    let n = row.len() as int;
    assert forall|x: int| 0 <= x < n implies #[trigger] resampled_row(row, n)[x] == row[x] by {
        assert(x * n / n == x) by (nonlinear_arith)
            requires
                n > 0,
        ;
        assert((x + 1) * n % n == 0 && (x + 1) * n / n == x + 1) by (nonlinear_arith)
            requires
                n > 0,
        ;
        assert(first_source(x, n, n) == x);
        assert(last_source(x, n, n) == x);
        let run = row.subrange(x, x + 1);
        assert(run.drop_last() =~= Seq::<u8>::empty());
        assert(seq_max(run.drop_last()) == 0);
        assert(run.last() == row[x]);
        assert(seq_max(run) == row[x]);
    }
    assert(resampled_row(row, n) =~= row);
}

/// Rows drawn at the width they have come back unchanged.
pub proof fn law_equal_widths_give_rows_back(rows: Seq<u8>, count: int, from: int)
    requires
        from > 0,
        count >= 0,
        count * from <= rows.len(),
    ensures
        resampled_rows(rows, count, from, from) == rows.take(count * from),
    decreases count,
{
    if count > 0 {
        assert((count - 1) * from + from == count * from) by (nonlinear_arith);
        assert((count - 1) * from >= 0) by (nonlinear_arith)
            requires
                count >= 1,
                from > 0,
        ;
        law_equal_widths_give_rows_back(rows, count - 1, from);
        let last = row_at(rows, count - 1, from);
        lemma_same_width_row(last);
        assert(rows.take((count - 1) * from) + last =~= rows.take(count * from));
    } else {
        assert(count * from == 0) by (nonlinear_arith)
            requires
                count == 0,
        ;
        assert(rows.take(0) =~= Seq::<u8>::empty());
    }
}

/// Resampled rows are laid end to end, `to` bytes each: row `r` of the
/// output is row `r` of the source redrawn at `to` bins, or all zeros where
/// there are no source or no target bins.
pub proof fn law_resampled_rows_by_row(rows: Seq<u8>, count: int, from: int, to: int, r: int)
    requires
        0 <= r < count,
        to >= 0,
    ensures
        resampled_rows(rows, count, from, to).len() == count * to,
        row_at(resampled_rows(rows, count, from, to), r, to) == if from == 0 || to == 0 {
            Seq::new(to as nat, |x: int| 0u8)
        } else {
            resampled_row(row_at(rows, r, from), to)
        },
    decreases count,
{
    lemma_resampled_rows_len(rows, count, from, to);
    lemma_resampled_rows_len(rows, count - 1, from, to);
    let prev = resampled_rows(rows, count - 1, from, to);
    let whole = resampled_rows(rows, count, from, to);
    if from > 0 && to > 0 {
        lemma_resampled_row_len(row_at(rows, count - 1, from), to);
    }
    if r < count - 1 {
        law_resampled_rows_by_row(rows, count - 1, from, to, r);
        assert(r * to + to <= (count - 1) * to) by (nonlinear_arith)
            requires
                r <= count - 2,
                to >= 0,
        ;
        assert(r * to >= 0) by (nonlinear_arith)
            requires
                r >= 0,
                to >= 0,
        ;
        assert(row_at(whole, r, to) =~= row_at(prev, r, to));
    } else {
        assert(row_at(whole, r, to) =~= whole.subrange(prev.len() as int, whole.len() as int));
    }
}

proof fn lemma_resampled_row_len(row: Seq<u8>, to: int)
    requires
        to >= 0,
    ensures
        resampled_row(row, to).len() == to,
{
}

/// How a held row is redrawn for a new tuning: kept as it was (it has no
/// meta to place it by), blanked (it was measured at another span, or has
/// slid out of view), or slid by a whole number of bins toward lower bins
/// (a negative count slides it toward higher ones).
#[derive(Clone, Copy, Debug, PartialEq, Eq, Structural)]
pub enum Slide {
    Keep,
    Blank,
    By(i64),
}

/// One row redrawn: `source` is the row as held, `placed` the row as it is
/// to be slid (redrawn in the held level window where one is held).
pub open spec fn slid_row(source: Seq<u8>, placed: Seq<u8>, slide: Slide) -> Seq<u8> {
    match slide {
        Slide::Keep => source,
        Slide::Blank => Seq::new(source.len(), |x: int| 0u8),
        Slide::By(s) => Seq::new(
            source.len(),
            |x: int|
                if 0 <= x + s < source.len() {
                    placed[x + s]
                } else {
                    0u8
                },
        ),
    }
}

/// Whether a slide moves a row by less than its width.
pub open spec fn slide_fits(slide: Slide, bins: int) -> bool {
    match slide {
        Slide::By(s) => -bins < s < bins,
        _ => true,
    }
}

fn slide_row(source: &[u8], placed: &[u8], slide: Slide) -> (out: Vec<u8>)
    requires
        placed@.len() == source@.len(),
        slide_fits(slide, source@.len() as int),
    ensures
        out@ == slid_row(source@, placed@, slide),
{
    let bins = source.len();
    let mut out: Vec<u8> = Vec::new();
    let mut x: usize = 0;
    while x < bins
        invariant
            x <= bins,
            bins == source@.len(),
            placed@.len() == bins,
            slide_fits(slide, bins as int),
            out@ == slid_row(source@, placed@, slide).take(x as int),
        decreases bins - x,
    {
        let b: u8 = match slide {
            Slide::Keep => source[x],
            Slide::Blank => 0,
            Slide::By(s) => {
                if s >= 0 {
                    let shift = s as usize;
                    if x < bins - shift {
                        placed[x + shift]
                    } else {
                        0
                    }
                } else {
                    let back = (0i128 - s as i128) as usize;
                    if x >= back {
                        placed[x - back]
                    } else {
                        0
                    }
                }
            },
        };
        out.push(b);
        x += 1;
        assert(out@ =~= slid_row(source@, placed@, slide).take(x as int));
    }
    assert(slid_row(source@, placed@, slide).take(x as int) =~= slid_row(source@, placed@, slide));
    out
}

/// The first `count` rows of `bins` bins of a history redrawn for a new
/// tuning, each as its slide says: kept from `rows`, blanked, or slid from
/// `placed`, the same rows as they are to be slid.
pub open spec fn aligned_rows(rows: Seq<u8>, placed: Seq<u8>, count: int, bins: int, slides: Seq<Slide>) -> Seq<Seq<u8>> {
    Seq::new(count as nat, |r: int| slid_row(row_at(rows, r, bins), row_at(placed, r, bins), slides[r]))
}

/// Redraws the first `count` rows of a history, `bins` bins each, for a new
/// tuning: each row is kept, blanked or slid as its slide says, the rows
/// laid end to end.
pub fn align_rows(rows: &[u8], placed: &[u8], count: usize, bins: usize, slides: &[Slide]) -> (out: Vec<u8>)
    requires
        count * bins <= rows@.len(),
        count * bins <= placed@.len(),
        slides@.len() == count,
        forall|r: int| 0 <= r < count ==> slide_fits(#[trigger] slides@[r], bins as int),
    ensures
        out@ == flatten(aligned_rows(rows@, placed@, count as int, bins as int, slides@)),
{
    let ghost all = aligned_rows(rows@, placed@, count as int, bins as int, slides@);
    let held = rows.len();
    let mut out: Vec<u8> = Vec::new();
    let mut r: usize = 0;
    assert(all.take(0) =~= Seq::<Seq<u8>>::empty());
    while r < count
        invariant
            r <= count,
            count * bins <= rows@.len(),
            count * bins <= placed@.len(),
            held == rows@.len(),
            slides@.len() == count,
            forall|k: int| 0 <= k < count ==> slide_fits(#[trigger] slides@[k], bins as int),
            all == aligned_rows(rows@, placed@, count as int, bins as int, slides@),
            out@ == flatten(all.take(r as int)),
        decreases count - r,
    {
        assert(r * bins + bins <= count * bins) by (nonlinear_arith)
            requires
                r < count,
        ;
        let at = r * bins;
        let source = vstd::slice::slice_subrange(rows, at, at + bins);
        let moved = vstd::slice::slice_subrange(placed, at, at + bins);
        assert(source@ == row_at(rows@, r as int, bins as int));
        assert(moved@ == row_at(placed@, r as int, bins as int));
        let row = slide_row(source, moved, slides[r]);
        append_bytes(&mut out, row.as_slice());
        proof {
            assert(all.take(r + 1).drop_last() =~= all.take(r as int));
            assert(all.take(r + 1).last() == row@);
        }
        r += 1;
    }
    assert(all.take(r as int) =~= all);
    out
}

} // verus!
