//! One axis of a resampling: how a run of source pixels falls among the
//! pixels of a row of tiles.
//!
//! Positions are whole numbers of a unit so small that both a source pixel
//! and a tile pixel measure a whole number of units.  Overlaps are then
//! exact, and the overlaps of a source pixel add up to its width.

use vstd::arithmetic::div_mod::{
    lemma_div_is_ordered,
    lemma_div_pos_is_pos,
    lemma_fundamental_div_mod,
    lemma_mod_bound,
    lemma_multiply_divide_lt,
};
use vstd::arithmetic::mul::{lemma_mul_inequality, lemma_mul_is_commutative};
use vstd::prelude::*;

verus! {

/// Largest width, in units, of a source pixel or a tile pixel.
pub const MAX_WIDTH: u64 = 0x4000_0000_0000_0000;

/// Largest number of pixels along an axis.
pub const MAX_COUNT: usize = 0x8000_0000;

/// Largest distance, in units, of the first source pixel from the first
/// tile pixel.
pub const MAX_ORIGIN: i128 = 0x10_0000_0000_0000_0000_0000_0000;

/// Source pixel `i` covers the units `origin + i * step` up to
/// `origin + (i + 1) * step`; tile pixel (cell) `k` covers `k * cell` up to
/// `(k + 1) * cell`; there are `count` source pixels and `cells` cells.
pub struct Axis {
    origin: i128,
    step: u64,
    cell: u64,
    cells: usize,
    count: usize,
}

/// An axis as plain numbers.
pub struct AxisView {
    pub origin: int,
    pub step: int,
    pub cell: int,
    pub cells: int,
    pub count: int,
}

impl AxisView {
    /// Widths are positive and every number is within its limit.
    pub open spec fn wf(self) -> bool {
        &&& 0 < self.step <= MAX_WIDTH
        &&& 0 < self.cell <= MAX_WIDTH
        &&& 0 <= self.cells <= MAX_COUNT
        &&& 0 <= self.count <= MAX_COUNT
        &&& -MAX_ORIGIN <= self.origin <= MAX_ORIGIN
    }

    /// The end of the last cell.
    pub open spec fn extent(self) -> int {
        self.cells * self.cell
    }

    /// A position moved into the run of cells.
    pub open spec fn clip(self, v: int) -> int {
        if v < 0 {
            0
        } else if v > self.extent() {
            self.extent()
        } else {
            v
        }
    }

    /// Where source pixel `i` starts, within the run of cells.
    pub open spec fn low(self, i: int) -> int {
        self.clip(self.origin + i * self.step)
    }

    /// Where source pixel `i` ends, within the run of cells.
    pub open spec fn high(self, i: int) -> int {
        self.clip(self.origin + (i + 1) * self.step)
    }

    /// The first cell that source pixel `i` reaches.
    pub open spec fn first_cell(self, i: int) -> int {
        self.low(i) / self.cell
    }

    /// One past the last cell that source pixel `i` reaches.
    pub open spec fn end_cell(self, i: int) -> int {
        (self.high(i) + self.cell - 1) / self.cell
    }

    /// How much of source pixel `i` lies in cell `k`.
    pub open spec fn overlap(self, i: int, k: int) -> int {
        let a = if self.low(i) > k * self.cell {
            self.low(i)
        } else {
            k * self.cell
        };
        let b = if self.high(i) < (k + 1) * self.cell {
            self.high(i)
        } else {
            (k + 1) * self.cell
        };
        if b > a {
            b - a
        } else {
            0
        }
    }

    /// The overlaps of source pixel `i` with the cells from its first up to
    /// `k`, added up.
    pub open spec fn overlap_sum(self, i: int, k: int) -> int
        decreases k - self.first_cell(i),
    {
        if k <= self.first_cell(i) {
            0
        } else {
            self.overlap_sum(i, k - 1) + self.overlap(i, k - 1)
        }
    }

    /// The overlaps of cell `k` with the first `n` source pixels, added up.
    pub open spec fn cover_sum(self, k: int, n: int) -> int
        decreases n,
    {
        if n <= 0 {
            0
        } else {
            self.cover_sum(k, n - 1) + self.overlap(n - 1, k)
        }
    }

    /// Cell `k` lies wholly under the run of source pixels.
    pub open spec fn covered(self, k: int) -> bool {
        self.origin <= k * self.cell && (k + 1) * self.cell <= self.origin + self.count * self.step
    }

    /// Source pixel `i` lies wholly within the run of cells.
    pub open spec fn interior(self, i: int) -> bool {
        0 <= self.origin + i * self.step && self.origin + (i + 1) * self.step <= self.extent()
    }
}

/// A product of two bounded factors is bounded by the product of the
/// bounds.
pub proof fn lemma_mul_bounds(a: int, b: int, x: int, y: int)
    requires
        0 <= a <= x,
        0 <= b <= y,
    ensures
        0 <= a * b <= x * y,
{
    assert(0 <= a * b <= x * y) by (nonlinear_arith)
        requires
            0 <= a <= x,
            0 <= b <= y,
    ;
}

/// The cells that a source pixel reaches: they lie among the cells of the
/// axis, each overlaps the pixel, and the pixel reaches no further.
pub proof fn lemma_cell_range(ax: AxisView, i: int)
    requires
        ax.wf(),
        0 <= i < ax.count,
    ensures
        0 <= ax.low(i) <= ax.high(i) <= ax.extent(),
        0 <= ax.first_cell(i) <= ax.end_cell(i) <= ax.cells,
        ax.first_cell(i) * ax.cell <= ax.low(i),
        ax.high(i) <= ax.end_cell(i) * ax.cell,
        ax.low(i) < ax.high(i) ==> ax.low(i) < (ax.first_cell(i) + 1) * ax.cell && (ax.end_cell(i)
            - 1) * ax.cell < ax.high(i) && ax.first_cell(i) < ax.end_cell(i),
        ax.low(i) == ax.high(i) ==> ax.first_cell(i) == ax.end_cell(i) || (ax.first_cell(i) + 1
            == ax.end_cell(i) && ax.overlap(i, ax.first_cell(i)) == 0),
{
    let c = ax.cell;
    let lo = ax.low(i);
    let hi = ax.high(i);
    lemma_mul_bounds(ax.cells, c, MAX_COUNT as int, MAX_WIDTH as int);
    assert((i + 1) * ax.step == i * ax.step + ax.step) by (nonlinear_arith);
    assert(lo <= hi);
    lemma_fundamental_div_mod(lo, c);
    lemma_mod_bound(lo, c);
    lemma_mul_is_commutative(c, lo / c);
    lemma_div_pos_is_pos(lo, c);
    let t = hi + c - 1;
    lemma_fundamental_div_mod(t, c);
    lemma_mod_bound(t, c);
    lemma_mul_is_commutative(c, t / c);
    lemma_div_pos_is_pos(t, c);
    lemma_div_is_ordered(lo, t, c);
    // end_cell <= cells, since high <= cells * cell
    assert(t / c <= ax.cells) by {
        lemma_mul_is_commutative(c, ax.cells);
        assert(t < c * (ax.cells + 1)) by (nonlinear_arith)
            requires
                t == hi + c - 1,
                hi <= ax.cells * c,
                c > 0,
        ;
        lemma_multiply_divide_lt(t, c, ax.cells + 1);
    }
    assert((t / c) * c >= hi);
    assert((t / c - 1) * c == (t / c) * c - c) by (nonlinear_arith);
    assert((lo / c + 1) * c == (lo / c) * c + c) by (nonlinear_arith);
    if lo < hi {
        assert(lo / c < t / c) by {
            if lo / c >= t / c {
                lemma_mul_inequality(t / c, lo / c, c);
            }
        }
    }
    if lo == hi {
        if lo / c != t / c {
            assert(lo / c + 1 == t / c) by {
                if t / c >= lo / c + 2 {
                    lemma_mul_inequality(lo / c + 2, t / c, c);
                    assert((lo / c + 2) * c == (lo / c) * c + 2 * c) by (nonlinear_arith);
                }
            }
        }
    }
}

/// The overlaps of a source pixel with the cells it reaches add up to the
/// part of the pixel that lies within the run of cells.
pub proof fn lemma_overlaps_add_up(ax: AxisView, i: int, k: int)
    requires
        ax.wf(),
        0 <= i < ax.count,
        ax.first_cell(i) <= k <= ax.end_cell(i),
    ensures
        ax.overlap_sum(i, k) == (if k == ax.first_cell(i) {
            0
        } else if k * ax.cell < ax.high(i) {
            k * ax.cell - ax.low(i)
        } else {
            ax.high(i) - ax.low(i)
        }),
        k < ax.end_cell(i) && ax.low(i) < ax.high(i) ==> ax.overlap(i, k) > 0,
    decreases k - ax.first_cell(i),
{
    lemma_cell_range(ax, i);
    let c = ax.cell;
    let f = ax.first_cell(i);
    let e = ax.end_cell(i);
    assert((k + 1) * c == k * c + c) by (nonlinear_arith);
    assert((k - 1) * c == k * c - c) by (nonlinear_arith);
    if k < e {
        lemma_mul_inequality(k + 1, e, c);
        lemma_mul_inequality(f, k, c);
        if k + 1 <= e - 1 {
            lemma_mul_inequality(k + 1, e - 1, c);
        }
        if f + 1 <= k {
            lemma_mul_inequality(f + 1, k, c);
        }
    }
    if k > f {
        lemma_overlaps_add_up(ax, i, k - 1);
        lemma_mul_inequality(f + 1, k, c);
        lemma_mul_inequality(k, e, c);
        if k <= e - 1 {
            lemma_mul_inequality(k, e - 1, c);
        }
        if k - 1 > f {
            lemma_mul_inequality(f + 1, k - 1, c);
        }
    }
}

/// The overlaps of a source pixel that lies wholly within the run of cells
/// add up to its width.
pub proof fn lemma_interior_overlaps(ax: AxisView, i: int)
    requires
        ax.wf(),
        0 <= i < ax.count,
        ax.interior(i),
    ensures
        ax.overlap_sum(i, ax.end_cell(i)) == ax.step,
{
    lemma_cell_range(ax, i);
    lemma_overlaps_add_up(ax, i, ax.end_cell(i));
    assert((i + 1) * ax.step == i * ax.step + ax.step) by (nonlinear_arith);
}

/// The overlaps of a cell with the source pixels add up to the part of the
/// cell that the pixels reach; for a cell that lies wholly under the source
/// pixels, to its width.
pub proof fn lemma_covers_add_up(ax: AxisView, k: int, n: int)
    requires
        ax.wf(),
        0 <= k < ax.cells,
        0 <= n <= ax.count,
        ax.origin <= k * ax.cell,
    ensures
        ax.cover_sum(k, n) == (if ax.origin + n * ax.step <= k * ax.cell {
            0
        } else if ax.origin + n * ax.step >= (k + 1) * ax.cell {
            ax.cell
        } else {
            ax.origin + n * ax.step - k * ax.cell
        }),
        n == ax.count && ax.covered(k) ==> ax.cover_sum(k, n) == ax.cell,
    decreases n,
{
    let c = ax.cell;
    assert((k + 1) * c == k * c + c) by (nonlinear_arith);
    assert(0 <= k * c) by (nonlinear_arith)
        requires
            k >= 0,
            c > 0,
    ;
    lemma_mul_inequality(k + 1, ax.cells, c);
    if n > 0 {
        lemma_covers_add_up(ax, k, n - 1);
        assert(n * ax.step == (n - 1) * ax.step + ax.step) by (nonlinear_arith);
        assert((n - 1 + 1) * ax.step == n * ax.step);
    } else {
        assert(0 * ax.step == 0) by (nonlinear_arith);
    }
}

impl View for Axis {
    type V = AxisView;

    closed spec fn view(&self) -> AxisView {
        AxisView {
            origin: self.origin as int,
            step: self.step as int,
            cell: self.cell as int,
            cells: self.cells as int,
            count: self.count as int,
        }
    }
}

impl Axis {
    /// The numbers are within their limits.
    #[verifier::type_invariant]
    spec fn valid(&self) -> bool {
        self@.wf()
    }

    /// The axis of these numbers, if they are within the limits.
    pub fn new(origin: i128, step: u64, cell: u64, cells: usize, count: usize) -> (ax: Option<Self>)
        ensures
            ax is Some <==> (AxisView {
                origin: origin as int,
                step: step as int,
                cell: cell as int,
                cells: cells as int,
                count: count as int,
            }).wf(),
            ax matches Some(a) ==> a@ == (AxisView {
                origin: origin as int,
                step: step as int,
                cell: cell as int,
                cells: cells as int,
                count: count as int,
            }),
    {
        if step == 0 || step > MAX_WIDTH || cell == 0 || cell > MAX_WIDTH || cells > MAX_COUNT
            || count > MAX_COUNT || origin < -MAX_ORIGIN || origin > MAX_ORIGIN {
            None
        } else {
            Some(Axis { origin, step, cell, cells, count })
        }
    }

    /// The number of source pixels.
    pub fn count(&self) -> (n: usize)
        ensures
            n == self@.count,
            self@.wf(),
    {
        proof {
            use_type_invariant(self);
        }
        self.count
    }

    /// The number of cells.
    pub fn cells(&self) -> (n: usize)
        ensures
            n == self@.cells,
    {
        self.cells
    }

    /// The width of a source pixel in units.
    pub fn step(&self) -> (s: u64)
        ensures
            s == self@.step,
            0 < s <= MAX_WIDTH,
    {
        proof {
            use_type_invariant(self);
        }
        self.step
    }

    /// The width of a cell in units.
    pub fn cell(&self) -> (s: u64)
        ensures
            s == self@.cell,
            0 < s <= MAX_WIDTH,
    {
        proof {
            use_type_invariant(self);
        }
        self.cell
    }

    /// Where source pixel `i` starts and ends, within the run of cells.
    pub fn span(&self, i: usize) -> (s: (i128, i128))
        requires
            i < self@.count,
        ensures
            s.0 == self@.low(i as int),
            s.1 == self@.high(i as int),
            0 <= s.0 <= s.1 <= self@.extent(),
    {
        proof {
            use_type_invariant(self);
            lemma_cell_range(self@, i as int);
            lemma_mul_bounds(i as int, self.step as int, MAX_COUNT as int, MAX_WIDTH as int);
            lemma_mul_bounds(i + 1, self.step as int, MAX_COUNT as int, MAX_WIDTH as int);
            lemma_mul_bounds(self.cells as int, self.cell as int, MAX_COUNT as int, MAX_WIDTH as int);
        }
        let extent: i128 = self.cells as i128 * self.cell as i128;
        let lo: i128 = self.origin + i as i128 * self.step as i128;
        let hi: i128 = self.origin + (i as i128 + 1) * self.step as i128;
        let lo = if lo < 0 { 0 } else if lo > extent { extent } else { lo };
        let hi = if hi < 0 { 0 } else if hi > extent { extent } else { hi };
        (lo, hi)
    }

    /// The cells that source pixel `i` reaches: the first, and one past the
    /// last.
    pub fn range(&self, i: usize) -> (r: (usize, usize))
        requires
            i < self@.count,
        ensures
            r.0 == self@.first_cell(i as int),
            r.1 == self@.end_cell(i as int),
            r.0 <= r.1 <= self@.cells,
    {
        proof {
            use_type_invariant(self);
            lemma_cell_range(self@, i as int);
            lemma_mul_bounds(self.cells as int, self.cell as int, MAX_COUNT as int, MAX_WIDTH as int);
        }
        let (lo, hi) = self.span(i);
        let c: i128 = self.cell as i128;
        ((lo / c) as usize, ((hi + c - 1) / c) as usize)
    }

    /// How much of source pixel `i` lies in cell `k`, in units.
    pub fn overlap(&self, i: usize, k: usize) -> (w: u64)
        requires
            i < self@.count,
            k < self@.cells,
        ensures
            w == self@.overlap(i as int, k as int),
            w <= self@.cell,
    {
        proof {
            use_type_invariant(self);
            lemma_mul_bounds(k as int, self.cell as int, MAX_COUNT as int, MAX_WIDTH as int);
            lemma_mul_bounds(k + 1, self.cell as int, MAX_COUNT as int, MAX_WIDTH as int);
            assert((k + 1) * self.cell == k * self.cell + self.cell) by (nonlinear_arith);
        }
        let (lo, hi) = self.span(i);
        let c: i128 = self.cell as i128;
        let left: i128 = k as i128 * c;
        let right: i128 = (k as i128 + 1) * c;
        let a = if lo > left { lo } else { left };
        let b = if hi < right { hi } else { right };
        if b > a {
            (b - a) as u64
        } else {
            0
        }
    }
}

} // verus!
