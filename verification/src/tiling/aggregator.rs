//! The streaming pyramid builder: rows of tiles go in at any zoom level in
//! increasing row order, and every pair of vertically adjacent rows comes out
//! merged into one row of the next coarser zoom as soon as both are there.
//!
//! The aggregator never does I/O.  Each call of `offer` takes one row and
//! says what became of it; a merged row is handed back so that the caller
//! can persist it and offer it again one level up.

use crate::tiling::dem::{can_merge_rows, is_row_merge, option_view, TileRow, TileSet};
use crate::tiling::DataInvariantError;
use vstd::prelude::*;

verus! {

/// What became of an offered row.
pub enum Step<C> {
    /// The row is at the coarsest level; nothing is left to do with it.
    Done,
    /// The row waits for the row below it.
    Stored,
    /// The row was merged; the result belongs to the next coarser level.
    Merged(TileSet<C>),
}

/// One slot per zoom level from `min_zoom` up to the base zoom, each empty
/// or holding the upper row of a pair whose lower row has not come yet.
pub struct PyramidAggregator<C> {
    min_zoom: usize,
    slots: Vec<Option<TileSet<C>>>,
}

/// The state of an aggregator: `slots[k]` is the row pending at zoom
/// `min_zoom + k`.
pub struct Pyramid<C> {
    pub min_zoom: nat,
    pub slots: Seq<Option<TileRow<C>>>,
}

impl<C> Pyramid<C> {
    /// The finest zoom level, at which resampled rows enter.
    pub open spec fn base_zoom(self) -> int {
        self.min_zoom + self.slots.len() - 1
    }

    /// The row pending at zoom `z`.
    pub open spec fn slot(self, z: int) -> Option<TileRow<C>> {
        self.slots[z - self.min_zoom]
    }

    /// The same state with `row` in the slot of zoom `z`.
    pub open spec fn with_slot(self, z: int, row: Option<TileRow<C>>) -> Pyramid<C> {
        Pyramid { min_zoom: self.min_zoom, slots: self.slots.update(z - self.min_zoom, row) }
    }

    /// There is a slot for `min_zoom`, which stays empty; a pending row is
    /// well formed, sits at its own zoom and has an even row index.
    pub open spec fn wf(self) -> bool {
        &&& self.slots.len() >= 1
        &&& self.base_zoom() <= usize::MAX
        &&& self.slots[0] is None
        &&& forall|k: int|
            0 <= k < self.slots.len() ==> (#[trigger] self.slots[k] matches Some(r) ==> r.wf()
                && r.zoom == self.min_zoom + k && r.y % 2 == 0)
    }

    /// No row is pending.
    pub open spec fn is_empty(self) -> bool {
        forall|k: int| 0 <= k < self.slots.len() ==> #[trigger] self.slots[k] is None
    }

    /// The finest zoom with a pending row, or `min_zoom` when none is
    /// pending.
    pub open spec fn finest_pending(self) -> int
        decreases self.slots.len(),
    {
        if self.slots.len() == 0 {
            self.min_zoom as int
        } else if self.slots.last() is Some {
            self.min_zoom + self.slots.len() - 1
        } else {
            (Pyramid { min_zoom: self.min_zoom, slots: self.slots.drop_last() }).finest_pending()
        }
    }
}

/// Two states for the same zoom levels.
pub open spec fn same_levels<C>(p: Pyramid<C>, q: Pyramid<C>) -> bool {
    p.min_zoom == q.min_zoom && p.slots.len() == q.slots.len()
}

/// Some zoom level has a row pending in both states.
pub open spec fn collide<C>(p: Pyramid<C>, q: Pyramid<C>) -> bool {
    exists|k: int| 0 <= k < p.slots.len() && #[trigger] p.slots[k] is Some && q.slots[k] is Some
}

/// The pending rows of `q` laid over those of `p`.
pub open spec fn overlay<C>(p: Pyramid<C>, q: Pyramid<C>) -> Pyramid<C> {
    Pyramid {
        min_zoom: p.min_zoom,
        slots: Seq::new(
            p.slots.len(),
            |k: int|
                if q.slots[k] is Some {
                    q.slots[k]
                } else {
                    p.slots[k]
                },
        ),
    }
}

/// Two rows that can sit one above the other: same tile range, same tile
/// size.
pub open spec fn same_shape<C>(a: TileRow<C>, b: TileRow<C>) -> bool {
    &&& a.left == b.left
    &&& a.right == b.right
    &&& a.tiles[0].rows == b.tiles[0].rows
    &&& a.tiles[0].cols == b.tiles[0].cols
}

/// Why `row` cannot be offered in state `p`, if it cannot.
pub open spec fn offer_error<C>(p: Pyramid<C>, row: TileRow<C>) -> Option<DataInvariantError> {
    if row.zoom < p.min_zoom || row.zoom > p.base_zoom() {
        Some(DataInvariantError::ZoomOutOfRange)
    } else if row.left >= row.right {
        Some(DataInvariantError::ShapeMismatch)
    } else if row.zoom == p.min_zoom {
        None
    } else {
        match p.slot(row.zoom as int) {
            Some(top) => if row.y % 2 == 0 || top.y + 1 != row.y {
                Some(DataInvariantError::OutOfOrder)
            } else if !same_shape(top, row) {
                Some(DataInvariantError::ShapeMismatch)
            } else {
                None
            },
            None => None,
        }
    }
}

/// What `offer` does: `post` and `res` are a possible outcome of offering
/// `row` in state `pre`.
pub open spec fn is_offer<C, F: Fn(C, C, C, C) -> C>(
    pre: Pyramid<C>,
    row: TileRow<C>,
    absent: C,
    average: &F,
    post: Pyramid<C>,
    res: Result<Step<C>, DataInvariantError>,
) -> bool {
    match offer_error(pre, row) {
        Some(e) => res == Err::<Step<C>, DataInvariantError>(e) && post == pre,
        None => if row.zoom == pre.min_zoom {
            res == Ok::<Step<C>, DataInvariantError>(Step::Done) && post == pre
        } else if row.y % 2 == 0 {
            res == Ok::<Step<C>, DataInvariantError>(Step::Stored) && post == pre.with_slot(
                row.zoom as int,
                Some(row),
            )
        } else {
            &&& res matches Ok(Step::Merged(out)) && is_row_merge(
                pre.slot(row.zoom as int),
                Some(row),
                absent,
                average,
                out@,
            )
            &&& post == pre.with_slot(row.zoom as int, None)
        },
    }
}

impl<C> View for PyramidAggregator<C> {
    type V = Pyramid<C>;

    closed spec fn view(&self) -> Pyramid<C> {
        Pyramid {
            min_zoom: self.min_zoom as nat,
            slots: Seq::new(self.slots@.len(), |k: int| option_view(self.slots@[k])),
        }
    }
}

impl<C: Copy> PyramidAggregator<C> {
    /// An aggregator with every slot empty, for the zoom levels
    /// `min_zoom ..= base_zoom`.
    pub fn new(min_zoom: usize, base_zoom: usize) -> (agg: Self)
        requires
            min_zoom <= base_zoom,
        ensures
            agg@.wf(),
            agg@.is_empty(),
            agg@.min_zoom == min_zoom,
            agg@.base_zoom() == base_zoom,
    {
        let mut slots: Vec<Option<TileSet<C>>> = Vec::new();
        let mut z: usize = min_zoom;
        slots.push(None);
        while z < base_zoom
            invariant
                min_zoom <= z <= base_zoom,
                slots.len() == z - min_zoom + 1,
                forall|k: int| 0 <= k < slots.len() ==> #[trigger] slots@[k] is None,
            decreases base_zoom - z,
        {
            slots.push(None);
            z += 1;
        }
        PyramidAggregator { min_zoom, slots }
    }

    /// The coarsest zoom level.
    pub fn min_zoom(&self) -> (z: usize)
        ensures
            z == self@.min_zoom,
    {
        self.min_zoom
    }

    /// The finest zoom level.
    pub fn base_zoom(&self) -> (z: usize)
        requires
            self@.wf(),
        ensures
            z == self@.base_zoom(),
    {
        self.min_zoom + (self.slots.len() - 1)
    }

    /// Whether no row is pending.
    pub fn is_empty(&self) -> (b: bool)
        ensures
            b == self@.is_empty(),
    {
        let mut k: usize = 0;
        while k < self.slots.len()
            invariant
                k <= self.slots.len(),
                forall|i: int| 0 <= i < k ==> #[trigger] self@.slots[i] is None,
            decreases self.slots.len() - k,
        {
            if self.slots[k].is_some() {
                assert(self@.slots[k as int] is Some);
                return false;
            }
            k += 1;
        }
        true
    }

    /// Takes one row.
    ///
    /// A row at `min_zoom` is done.  A row with an even `y` is stored as the
    /// upper row of its pair.  A row with an odd `y` is merged with the row
    /// stored above it, or alone if none is stored, and the merged row is
    /// handed back: it enters the next coarser level through another call.
    /// A row that does not fit, or that holds no tile, is refused and the
    /// state stays as it was.
    pub fn offer<F: Fn(C, C, C, C) -> C>(&mut self, ts: TileSet<C>, absent: C, average: &F) -> (res:
        Result<Step<C>, DataInvariantError>)
        requires
            old(self)@.wf(),
            ts@.is_row(),
            forall|a: C, b: C, c: C, d: C| average.requires((a, b, c, d)),
        ensures
            final(self)@.wf(),
            is_offer(old(self)@, ts@, absent, average, final(self)@, res),
    {
        let zoom = ts.zoom();
        if zoom < self.min_zoom || zoom - self.min_zoom >= self.slots.len() {
            return Err(DataInvariantError::ZoomOutOfRange);
        }
        let (left, right) = ts.xrange();
        if left >= right {
            return Err(DataInvariantError::ShapeMismatch);
        }
        if zoom == self.min_zoom {
            return Ok(Step::Done);
        }
        let k: usize = zoom - self.min_zoom;
        let ghost pre = self@;
        assert(pre.slot(zoom as int) == option_view(self.slots@[k as int]));
        if !ts.can_scale_down_with_top() {
            if self.slots[k].is_some() {
                return Err(DataInvariantError::OutOfOrder);
            }
            self.slots[k] = Some(ts);
            assert(self@.slots =~= pre.slots.update(k as int, Some(ts@)));
            return Ok(Step::Stored);
        }
        match &self.slots[k] {
            Some(top) => {
                assert(top@.wf());
                if top.y() + 1 != ts.y() {
                    return Err(DataInvariantError::OutOfOrder);
                }
                let (l0, r0) = top.xrange();
                let (l1, r1) = ts.xrange();
                let (h0, w0) = top.tiles()[0].data().dim();
                let (h1, w1) = ts.tiles()[0].data().dim();
                if l0 != l1 || r0 != r1 || h0 != h1 || w0 != w1 {
                    return Err(DataInvariantError::ShapeMismatch);
                }
            },
            None => {},
        }
        let top = self.slots[k].take();
        assert(self@.slots =~= pre.slots.update(k as int, None));
        let mut ts = ts;
        assert(can_merge_rows(option_view(top), Some(ts@)));
        ts.scale_down_with_top(top, absent, average);
        Ok(Step::Merged(ts))
    }

    /// Starts to wind the pyramid up once no more rows will come: takes the
    /// pending row of the finest zoom that has one and merges it alone, its
    /// lower neighbour counting as absent.  The merged row is handed back to
    /// be offered one level up.  `None` when nothing is pending.
    pub fn flush_next<F: Fn(C, C, C, C) -> C>(&mut self, absent: C, average: &F) -> (res: Option<
        TileSet<C>,
    >)
        requires
            old(self)@.wf(),
            forall|a: C, b: C, c: C, d: C| average.requires((a, b, c, d)),
        ensures
            final(self)@.wf(),
            res is None <==> old(self)@.is_empty(),
            res is None ==> final(self)@ == old(self)@,
            res matches Some(out) ==> {
                let z = old(self)@.finest_pending();
                &&& old(self)@.min_zoom < z <= old(self)@.base_zoom()
                &&& old(self)@.slot(z) is Some
                &&& forall|f: int| z < f <= old(self)@.base_zoom() ==> old(self)@.slot(f) is None
                &&& is_row_merge(old(self)@.slot(z), None, absent, average, out@)
                &&& final(self)@ == old(self)@.with_slot(z, None)
            },
    {
        let ghost pre = self@;
        let mut k: usize = self.slots.len();
        assert(pre.slots.take(k as int) =~= pre.slots);
        while k > 0
            invariant
                k <= self.slots.len(),
                self@ == pre,
                pre == old(self)@,
                pre.wf(),
                forall|i: int| k <= i < self.slots.len() ==> #[trigger] pre.slots[i] is None,
                pre.finest_pending() == (Pyramid {
                    min_zoom: pre.min_zoom,
                    slots: pre.slots.take(k as int),
                }).finest_pending(),
                forall|a: C, b: C, c: C, d: C| average.requires((a, b, c, d)),
            decreases k,
        {
            k -= 1;
            let ghost head = Pyramid { min_zoom: pre.min_zoom, slots: pre.slots.take(k + 1) };
            assert(head.slots.last() == pre.slots[k as int]);
            assert(head.slots.drop_last() =~= pre.slots.take(k as int));
            assert(pre.finest_pending() == head.finest_pending());
            if self.slots[k].is_some() {
                assert(pre.slots[k as int] is Some);
                assert(head.finest_pending() == pre.min_zoom + k);
                assert(!pre.is_empty());
                assert(k > 0);
                let top = self.slots[k].take();
                assert(self@.slots =~= pre.slots.update(k as int, None));
                let mut ts = top.unwrap();
                assert(can_merge_rows(Some(ts@), None));
                ts.scale_down_as_top(absent, average);
                return Some(ts);
            }
            assert(pre.slots[k as int] is None);
            assert(head.finest_pending() == (Pyramid {
                min_zoom: pre.min_zoom,
                slots: head.slots.drop_last(),
            }).finest_pending());
        }
        assert(pre.is_empty());
        None
    }

    /// Combines the state of another aggregator into this one, as if the
    /// rows pending there had been offered here: each moves into the slot of
    /// its zoom.  Refused, with this state unchanged, when the two are not
    /// for the same zoom levels or when a zoom has a row pending in both.
    pub fn absorb(&mut self, other: Self) -> (res: Result<(), DataInvariantError>)
        requires
            old(self)@.wf(),
            other@.wf(),
        ensures
            final(self)@.wf(),
            !same_levels(old(self)@, other@) ==> res == Err::<(), DataInvariantError>(
                DataInvariantError::ZoomOutOfRange,
            ),
            same_levels(old(self)@, other@) && collide(old(self)@, other@) ==> res == Err::<
                (),
                DataInvariantError,
            >(DataInvariantError::OutOfOrder),
            res is Err ==> final(self)@ == old(self)@,
            same_levels(old(self)@, other@) && !collide(old(self)@, other@) ==> res is Ok
                && final(self)@ == overlay(old(self)@, other@),
    {
        if self.min_zoom != other.min_zoom || self.slots.len() != other.slots.len() {
            return Err(DataInvariantError::ZoomOutOfRange);
        }
        let n: usize = self.slots.len();
        let mut k: usize = 0;
        while k < n
            invariant
                k <= n,
                n == self.slots.len(),
                n == other.slots.len(),
                self@ == old(self)@,
                old(self)@.wf(),
                same_levels(self@, other@),
                forall|i: int|
                    0 <= i < k ==> !(#[trigger] self@.slots[i] is Some && other@.slots[i] is Some),
            decreases n - k,
        {
            if self.slots[k].is_some() && other.slots[k].is_some() {
                assert(self@.slots[k as int] is Some && other@.slots[k as int] is Some);
                return Err(DataInvariantError::OutOfOrder);
            }
            assert(!(self@.slots[k as int] is Some && other@.slots[k as int] is Some));
            k += 1;
        }
        let ghost pre = self@;
        let ghost add = other@;
        assert(!collide(pre, add));
        let mut other = other;
        let mut k: usize = 0;
        while k < n
            invariant
                k <= n,
                n == self.slots.len(),
                n == other.slots.len(),
                pre == old(self)@,
                pre.wf(),
                add.wf(),
                same_levels(pre, add),
                pre.slots.len() == n,
                self@.min_zoom == pre.min_zoom,
                forall|i: int| 0 <= i < k ==> #[trigger] self@.slots[i] == overlay(pre, add).slots[i],
                forall|i: int| k <= i < n ==> #[trigger] self@.slots[i] == pre.slots[i],
                forall|i: int| k <= i < n ==> #[trigger] other@.slots[i] == add.slots[i],
            decreases n - k,
        {
            let ghost before = self@;
            let ghost obefore = other@;
            assert(before.slots[k as int] == pre.slots[k as int]);
            assert(obefore.slots[k as int] == add.slots[k as int]);
            assert(obefore.slots[k as int] == option_view(other.slots@[k as int]));
            if other.slots[k].is_some() {
                let moved = other.slots[k].take();
                assert(option_view(moved) == add.slots[k as int]);
                self.slots[k] = moved;
                assert(self@.slots[k as int] == option_view(moved));
            }
            assert(self@.slots[k as int] == overlay(pre, add).slots[k as int]);
            assert forall|i: int| 0 <= i < k implies #[trigger] self@.slots[i] == overlay(
                pre,
                add,
            ).slots[i] by {
                assert(self@.slots[i] == before.slots[i]);
            }
            assert forall|i: int| k < i < n implies #[trigger] self@.slots[i] == pre.slots[i] by {
                assert(self@.slots[i] == before.slots[i]);
            }
            assert forall|i: int| k < i < n implies #[trigger] other@.slots[i] == add.slots[i] by {
                assert(other@.slots[i] == obefore.slots[i]);
            }
            k += 1;
        }
        assert(self@.slots =~= overlay(pre, add).slots);
        Ok(())
    }
}

} // verus!
