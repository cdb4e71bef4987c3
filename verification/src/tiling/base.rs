//! Resampling one row of tiles from the raster rows that it covers.

use crate::tiling::axis::{
    lemma_cell_range,
    lemma_covers_add_up,
    lemma_mul_bounds,
    lemma_overlaps_add_up,
    Axis,
    AxisView,
    MAX_WIDTH,
};
use crate::tiling::web_mercator::{tile_size, MAX_ZOOM};
use crate::tiling::{Config, Dims, ICoords};
use vstd::arithmetic::power2::pow2;
use vstd::prelude::*;

verus! {

/// The tiles of one zoom level that a raster covers from left to right.
pub struct RowProc {
    zoom: usize,
    tile_size: usize,
    x_range: (usize, usize),
}

impl RowProc {
    /// The zoom level.
    pub closed spec fn zoom_level(&self) -> usize {
        self.zoom
    }

    /// Pixels per tile edge.
    pub closed spec fn tile_res(&self) -> usize {
        self.tile_size
    }

    /// The tile columns covered, left inclusive, right exclusive.
    pub closed spec fn columns(&self) -> (usize, usize) {
        self.x_range
    }

    /// The row processor for the tile columns `x_range` at `zoom`.
    pub fn new(zoom: usize, tile_size: usize, x_range: (usize, usize)) -> (p: Self)
        ensures
            p.zoom_level() == zoom,
            p.tile_res() == tile_size,
            p.columns() == x_range,
    {
        RowProc { zoom, tile_size, x_range }
    }

    /// The tile row `tile_y` of these columns lies on the world grid: the
    /// zoom is one that tiles are made for, the columns are a non-empty
    /// range of its tiles, and so is the row.
    pub open spec fn on_grid(&self, tile_y: usize) -> bool {
        &&& self.zoom_level() <= MAX_ZOOM
        &&& self.columns().0 < self.columns().1 <= pow2(self.zoom_level() as nat)
        &&& tile_y < pow2(self.zoom_level() as nat)
    }

    /// The extent of tile row `tile_y` on the world grid, as its corner of
    /// least and its corner of greatest coordinates; `None` if the row does
    /// not lie on the grid.
    pub fn get_bounds(&self, tile_y: usize) -> (b: Option<((u64, u64), (u64, u64))>)
        ensures
            b is Some <==> self.on_grid(tile_y),
            b matches Some(b) ==> {
                let span = pow2((32 - self.zoom_level()) as nat);
                &&& b.0.0 == self.columns().0 * span
                &&& b.0.1 == tile_y * span
                &&& b.1.0 == self.columns().1 * span
                &&& b.1.1 == (tile_y + 1) * span
                &&& b.0.0 <= b.1.0 <= 0x1_0000_0000
                &&& b.0.1 <= b.1.1 <= 0x1_0000_0000
            },
    {
        if self.zoom > MAX_ZOOM {
            return None;
        }
        let span: u64 = tile_size(self.zoom);
        let tiles: u64 = 0x1_0000_0000u64 / span;
        proof {
            let z = self.zoom as nat;
            vstd::arithmetic::power2::lemma_pow2_adds((32 - z) as nat, z);
            vstd::arithmetic::power2::lemma2_to64();
            vstd::arithmetic::power2::lemma_pow2_pos(z);
            assert(pow2(32) == 0x1_0000_0000);
            assert((32 - z) as nat + z == 32);
            assert(span * pow2(z) == 0x1_0000_0000);
            assert(pow2(z) * span == span * pow2(z)) by (nonlinear_arith);
            vstd::arithmetic::div_mod::lemma_div_by_multiple(pow2(z) as int, span as int);
            assert(tiles == pow2(z));
        }
        if self.x_range.0 >= self.x_range.1 || self.x_range.1 as u64 > tiles || tile_y as u64
            >= tiles {
            return None;
        }
        proof {
            lemma_mul_bounds(self.x_range.0 as int, span as int, tiles as int, span as int);
            lemma_mul_bounds(self.x_range.1 as int, span as int, tiles as int, span as int);
            lemma_mul_bounds(tile_y + 1, span as int, tiles as int, span as int);
            lemma_mul_bounds(tile_y as int, span as int, tiles as int, span as int);
            assert(tiles * span == span * tiles) by (nonlinear_arith);
            assert(self.x_range.0 * span <= self.x_range.1 * span) by (nonlinear_arith)
                requires
                    self.x_range.0 <= self.x_range.1,
                    span >= 0,
            ;
            assert(tile_y * span <= (tile_y + 1) * span) by (nonlinear_arith)
                requires
                    span >= 0,
            ;
        }
        Some(
            (
                (self.x_range.0 as u64 * span, tile_y as u64 * span),
                (self.x_range.1 as u64 * span, (tile_y as u64 + 1) * span),
            ),
        )
    }
}

/// The raster pixels, along one axis, that a stretch of the world grid
/// touches: `lo` and `hi` bound the stretch, the raster starts at `start`
/// and its `pixels` pixels span `extent` grid cells.  The result is the
/// index of the first pixel touched and one past the last, both within the
/// raster; the two are equal where nothing is touched.
pub open spec fn pixels_touched(lo: int, hi: int, start: int, extent: int, pixels: int) -> (int, int) {
    let whole = pixels * extent;
    let a = (lo - start) * pixels;
    let b = (hi - start) * pixels;
    let a = if a < 0 { 0 } else if a > whole { whole } else { a };
    let b = if b < 0 { 0 } else if b > whole { whole } else { b };
    if extent <= 0 || b <= a {
        (0, 0)
    } else {
        (a / extent, (b + extent - 1) / extent)
    }
}

/// The raster pixels that a stretch of the world grid touches.
pub fn window_along(lo: u64, hi: u64, start: u32, extent: u32, pixels: usize) -> (r: (usize, usize))
    requires
        lo <= hi <= 0x1_0000_0000,
    ensures
        r.0 == pixels_touched(lo as int, hi as int, start as int, extent as int, pixels as int).0,
        r.1 == pixels_touched(lo as int, hi as int, start as int, extent as int, pixels as int).1,
        r.0 <= r.1 <= pixels,
{
    if extent == 0 {
        return (0, 0);
    }
    proof {
        lemma_mul_bounds(pixels as int, extent as int, usize::MAX as int, 0xffff_ffff);
        assert(usize::MAX * 0xffff_ffff <= 0xffff_ffff_ffff_ffff * 0xffff_ffff) by (nonlinear_arith)
            requires
                usize::MAX <= 0xffff_ffff_ffff_ffff,
        ;
    }
    let whole: u128 = pixels as u128 * extent as u128;
    let a: u128 = if lo <= start as u64 {
        proof {
            assert((lo - start) * pixels <= 0) by (nonlinear_arith)
                requires
                    lo - start <= 0,
                    pixels >= 0,
            ;
        }
        0
    } else {
        proof {
            lemma_mul_bounds(lo - start, pixels as int, 0x1_0000_0000, usize::MAX as int);
            assert(0x1_0000_0000 * usize::MAX <= 0x1_0000_0000 * 0xffff_ffff_ffff_ffff)
                by (nonlinear_arith)
                requires
                    usize::MAX <= 0xffff_ffff_ffff_ffff,
            ;
        }
        let v: u128 = (lo - start as u64) as u128 * pixels as u128;
        if v > whole {
            whole
        } else {
            v
        }
    };
    let b: u128 = if hi <= start as u64 {
        proof {
            assert((hi - start) * pixels <= 0) by (nonlinear_arith)
                requires
                    hi - start <= 0,
                    pixels >= 0,
            ;
        }
        0
    } else {
        proof {
            lemma_mul_bounds(hi - start, pixels as int, 0x1_0000_0000, usize::MAX as int);
            assert(0x1_0000_0000 * usize::MAX <= 0x1_0000_0000 * 0xffff_ffff_ffff_ffff)
                by (nonlinear_arith)
                requires
                    usize::MAX <= 0xffff_ffff_ffff_ffff,
            ;
        }
        let v: u128 = (hi - start as u64) as u128 * pixels as u128;
        if v > whole {
            whole
        } else {
            v
        }
    };
    if b <= a {
        return (0, 0);
    }
    let e: u128 = extent as u128;
    proof {
        let t = b + e - 1;
        vstd::arithmetic::div_mod::lemma_div_is_ordered(a as int, t as int, e as int);
        assert(t < e * (pixels + 1)) by (nonlinear_arith)
            requires
                t == b + e - 1,
                b <= pixels * e,
                e > 0,
        ;
        vstd::arithmetic::div_mod::lemma_multiply_divide_lt(t as int, e as int, pixels + 1);
        vstd::arithmetic::div_mod::lemma_div_pos_is_pos(a as int, e as int);
    }
    ((a / e) as usize, ((b + e - 1) / e) as usize)
}

impl RowProc {
    /// The window of the raster that tile row `tile_y` touches, as offset
    /// and size, each as `(columns, rows)`: the pixels of `pixels_touched`
    /// along each axis.  The size is `(0, 0)`, at offset `(0, 0)`, where the
    /// row does not lie on the grid or misses the raster.
    pub fn pixel_window(&self, tile_y: usize, cfg: &Config) -> (win: (ICoords, Dims))
        ensures
            !self.on_grid(tile_y) ==> win == ((0isize, 0isize), (0usize, 0usize)),
            self.on_grid(tile_y) ==> {
                let span = pow2((32 - self.zoom_level()) as nat);
                let across = pixels_touched(
                    self.columns().0 * span,
                    self.columns().1 * span,
                    cfg.bounds().lo().0 as int,
                    cfg.bounds().hi().0 - cfg.bounds().lo().0,
                    cfg.size().0 as int,
                );
                let down = pixels_touched(
                    tile_y * span,
                    (tile_y + 1) * span,
                    cfg.bounds().lo().1 as int,
                    cfg.bounds().hi().1 - cfg.bounds().lo().1,
                    cfg.size().1 as int,
                );
                if across.0 == across.1 || down.0 == down.1 || cfg.size().0 > isize::MAX
                    || cfg.size().1 > isize::MAX {
                    win == ((0isize, 0isize), (0usize, 0usize))
                } else {
                    &&& win.0.0 == across.0
                    &&& win.0.1 == down.0
                    &&& win.1.0 == across.1 - across.0
                    &&& win.1.1 == down.1 - down.0
                }
            },
            win.0.0 >= 0,
            win.0.1 >= 0,
            win.0.0 + win.1.0 <= cfg.size().0,
            win.0.1 + win.1.1 <= cfg.size().1,
    {
        let empty: (ICoords, Dims) = ((0, 0), (0, 0));
        let b = match self.get_bounds(tile_y) {
            Some(b) => b,
            None => {
                return empty;
            },
        };
        let lo = cfg.wm_bounds().min();
        let hi = cfg.wm_bounds().max();
        let size = cfg.raster_size();
        if size.0 > isize::MAX as usize || size.1 > isize::MAX as usize {
            return empty;
        }
        proof {
            let span = pow2((32 - self.zoom_level()) as nat) as int;
            assert(tile_y * span <= (tile_y + 1) * span) by (nonlinear_arith)
                requires
                    span >= 0,
            ;
            assert(self.x_range.0 * span <= self.x_range.1 * span) by (nonlinear_arith)
                requires
                    span >= 0,
                    self.x_range.0 <= self.x_range.1,
            ;
        }
        let across = window_along(b.0.0, b.1.0, lo.0, hi.0 - lo.0, size.0);
        let down = window_along(b.0.1, b.1.1, lo.1, hi.1 - lo.1, size.1);
        if across.0 == across.1 || down.0 == down.1 {
            return empty;
        }
        ((across.0 as isize, down.0 as isize), (across.1 - across.0, down.1 - down.0))
    }
}

/// Largest tile size and largest raster side, in pixels, that a resampling
/// is set up for.
pub const MAX_SIDE: usize = 0x4000_0000;

/// A product of a factor bounded in size and a bounded non-negative factor
/// is bounded in size by the product of the bounds.
pub proof fn lemma_mul_signed_bounds(a: int, b: int, x: int, y: int)
    requires
        -x <= a <= x,
        0 <= b <= y,
    ensures
        -(x * y) <= a * b <= x * y,
{
    assert(-(x * y) <= a * b <= x * y) by (nonlinear_arith)
        requires
            -x <= a <= x,
            0 <= b <= y,
    ;
}

/// The axis along which `count` raster pixels, the first of them pixel
/// `off` of the raster, fall among the pixels of `tiles` tiles of `ts`
/// pixels each.  The raster starts at grid position `start` and its
/// `pixels` pixels span `extent` grid cells; the tiles start at grid
/// position `band` and each spans `span` grid cells.  The unit is a grid
/// cell divided by `pixels * ts`.
pub open spec fn band_axis(
    start: int,
    extent: int,
    pixels: int,
    band: int,
    span: int,
    tiles: int,
    ts: int,
    off: int,
    count: int,
) -> AxisView {
    AxisView {
        origin: ((start - band) * pixels + off * extent) * ts,
        step: extent * ts,
        cell: span * pixels,
        cells: tiles * ts,
        count,
    }
}

impl RowProc {
    /// The resampling of the raster window at `off` of size `size` into
    /// tile row `tile_y`.
    pub open spec fn chunk_view(&self, tile_y: usize, cfg: &Config, off: ICoords, size: Dims) -> ChunkView {
        let span = pow2((32 - self.zoom_level()) as nat) as int;
        let ts = self.tile_res() as int;
        ChunkView {
            x: band_axis(
                cfg.bounds().lo().0 as int,
                cfg.bounds().hi().0 - cfg.bounds().lo().0,
                cfg.size().0 as int,
                self.columns().0 * span,
                span,
                self.columns().1 - self.columns().0,
                ts,
                off.0 as int,
                size.0 as int,
            ),
            y: band_axis(
                cfg.bounds().lo().1 as int,
                cfg.bounds().hi().1 - cfg.bounds().lo().1,
                cfg.size().1 as int,
                tile_y * span,
                span,
                1,
                ts,
                off.1 as int,
                size.1 as int,
            ),
            tile_width: ts,
            tile_height: ts,
        }
    }

    /// The window can be resampled into the tile row: the row lies on the
    /// grid, tile and raster sides and the window are within the limits,
    /// and so are the two axes.
    pub open spec fn can_resample(&self, tile_y: usize, cfg: &Config, off: ICoords, size: Dims) -> bool {
        &&& self.on_grid(tile_y)
        &&& 0 < self.tile_res() <= MAX_SIDE
        &&& cfg.size().0 <= MAX_SIDE
        &&& cfg.size().1 <= MAX_SIDE
        &&& 0 <= off.0 <= MAX_SIDE
        &&& 0 <= off.1 <= MAX_SIDE
        &&& self.chunk_view(tile_y, cfg, off, size).wf()
    }

    /// Sets up the resampling of the raster window at `off` of size `size`
    /// into tile row `tile_y`; `None` where that cannot be done.
    pub fn chunk_processor(&self, tile_y: usize, cfg: &Config, off: ICoords, size: Dims) -> (res:
        Option<ChunkConfig>)
        ensures
            res is Some <==> self.can_resample(tile_y, cfg, off, size),
            res matches Some(c) ==> c@ == self.chunk_view(tile_y, cfg, off, size),
    {
        let b = match self.get_bounds(tile_y) {
            Some(b) => b,
            None => {
                return None;
            },
        };
        let ts = self.tile_size;
        let (w, h) = cfg.raster_size();
        if ts == 0 || ts > MAX_SIDE || w > MAX_SIDE || h > MAX_SIDE || off.0 < 0 || off.0
            > MAX_SIDE as isize || off.1 < 0 || off.1 > MAX_SIDE as isize {
            return None;
        }
        let lo = cfg.wm_bounds().min();
        let hi = cfg.wm_bounds().max();
        let span: u64 = tile_size(self.zoom);
        let tiles: usize = self.x_range.1 - self.x_range.0;
        let ghost want = self.chunk_view(tile_y, cfg, off, size);
        proof {
            vstd::arithmetic::power2::lemma_pow2_pos(self.zoom as nat);
            crate::tiling::web_mercator::lemma_tile_range(self.zoom as nat, 0);
            lemma_mul_bounds(tiles as int, ts as int, 0x8000_0000, MAX_SIDE as int);
        }
        if tiles as u64 * ts as u64 > 0x8000_0000 {
            proof {
                assert(want.x.cells > 0x8000_0000);
            }
            return None;
        }
        let x = Self::axis(lo.0, hi.0 - lo.0, w, b.0.0, span, tiles, ts, off.0, size.0);
        let y = Self::axis(lo.1, hi.1 - lo.1, h, b.0.1, span, 1, ts, off.1, size.1);
        match (x, y) {
            (Some(x), Some(y)) => ChunkConfig::new(x, y, (ts, ts)),
            _ => None,
        }
    }

    /// One axis of a resampling, if its numbers are within the limits.
    fn axis(
        start: u32,
        extent: u32,
        pixels: usize,
        band: u64,
        span: u64,
        tiles: usize,
        ts: usize,
        off: isize,
        count: usize,
    ) -> (ax: Option<Axis>)
        requires
            pixels <= MAX_SIDE,
            0 < ts <= MAX_SIDE,
            0 <= off <= MAX_SIDE,
            band <= 0x1_0000_0000,
            span <= 0x1_0000_0000,
            tiles * ts <= 0x8000_0000,
        ensures
            ax is Some <==> band_axis(
                start as int,
                extent as int,
                pixels as int,
                band as int,
                span as int,
                tiles as int,
                ts as int,
                off as int,
                count as int,
            ).wf(),
            ax matches Some(a) ==> a@ == band_axis(
                start as int,
                extent as int,
                pixels as int,
                band as int,
                span as int,
                tiles as int,
                ts as int,
                off as int,
                count as int,
            ),
    {
        proof {
            lemma_mul_signed_bounds(start - band, pixels as int, 0x1_0000_0000, MAX_SIDE as int);
            lemma_mul_bounds(off as int, extent as int, MAX_SIDE as int, 0xffff_ffff);
            lemma_mul_signed_bounds(
                (start - band) * pixels + off * extent,
                ts as int,
                0x1_0000_0000 * MAX_SIDE + MAX_SIDE * 0xffff_ffff,
                MAX_SIDE as int,
            );
            lemma_mul_bounds(extent as int, ts as int, 0xffff_ffff, MAX_SIDE as int);
            lemma_mul_bounds(span as int, pixels as int, 0x1_0000_0000, MAX_SIDE as int);
        }
        let base: i128 = (start as i128 - band as i128) * pixels as i128 + off as i128
            * extent as i128;
        let origin: i128 = base * ts as i128;
        let step: u64 = extent as u64 * ts as u64;
        let cell: u64 = span * pixels as u64;
        let cells: usize = tiles * ts;
        Axis::new(origin, step, cell, cells, count)
    }
}

/// The resampling of one band of raster rows into one row of tiles: an
/// axis across and an axis down, and the size of a tile in pixels.
pub struct ChunkConfig {
    x: Axis,
    y: Axis,
    tile_size: Dims,
}

/// A resampling as plain numbers.
pub struct ChunkView {
    pub x: AxisView,
    pub y: AxisView,
    pub tile_width: int,
    pub tile_height: int,
}

/// What one source pixel adds to one tile pixel: the tile and the pixel
/// within it, both as `(column, row)`, the source pixel as `(column, row)`
/// of the band, and the area in which the two overlap, in square units.
pub struct Contribution {
    pub tile: Dims,
    pub cell: Dims,
    pub source: Dims,
    pub weight: u128,
}

impl ChunkView {
    /// Both axes are well formed and a tile has pixels.
    pub open spec fn wf(self) -> bool {
        self.x.wf() && self.y.wf() && self.tile_width > 0 && self.tile_height > 0
    }

    /// The area of a source pixel in square units: what its overlaps add up
    /// to when it lies wholly within the row of tiles.
    pub open spec fn pixel_area(self) -> int {
        self.x.step * self.y.step
    }

    /// The area of a tile pixel in square units.
    pub open spec fn cell_area(self) -> int {
        self.x.cell * self.y.cell
    }

    /// What source pixel `(c, r)` adds to the tile pixel in column `k` and
    /// row `l` of the row of tiles.
    pub open spec fn contribution(self, c: int, r: int, k: int, l: int) -> Contribution {
        Contribution {
            tile: ((k / self.tile_width) as usize, (l / self.tile_height) as usize),
            cell: ((k % self.tile_width) as usize, (l % self.tile_height) as usize),
            source: (c as usize, r as usize),
            weight: (self.x.overlap(c, k) * self.y.overlap(r, l)) as u128,
        }
    }

    /// The contributions of source pixel `(c, r)` to row `l`, for the
    /// columns from the first it reaches up to `k_end`, left to right.
    pub open spec fn row_trace(self, c: int, r: int, l: int, k_end: int) -> Seq<Contribution>
        decreases k_end - self.x.first_cell(c),
    {
        if k_end <= self.x.first_cell(c) {
            Seq::empty()
        } else {
            self.row_trace(c, r, l, k_end - 1).push(self.contribution(c, r, k_end - 1, l))
        }
    }

    /// The contributions of source pixel `(c, r)` to the rows from the
    /// first it reaches up to `l_end`, top to bottom.
    pub open spec fn pixel_trace(self, c: int, r: int, l_end: int) -> Seq<Contribution>
        decreases l_end - self.y.first_cell(r),
    {
        if l_end <= self.y.first_cell(r) {
            Seq::empty()
        } else {
            self.pixel_trace(c, r, l_end - 1) + self.row_trace(
                c,
                r,
                l_end - 1,
                self.x.end_cell(c),
            )
        }
    }

    /// All contributions of source pixel `(c, r)`.
    pub open spec fn pixel_all(self, c: int, r: int) -> Seq<Contribution> {
        self.pixel_trace(c, r, self.y.end_cell(r))
    }

    /// The contributions of the first `c_end` pixels of source row `r`.
    pub open spec fn line_trace(self, r: int, c_end: int) -> Seq<Contribution>
        decreases c_end,
    {
        if c_end <= 0 {
            Seq::empty()
        } else {
            self.line_trace(r, c_end - 1) + self.pixel_all(c_end - 1, r)
        }
    }

    /// The contributions of the first `r_end` source rows: row by row,
    /// pixel by pixel, and for each pixel the tile pixels it reaches, row
    /// by row.
    pub open spec fn band_trace(self, r_end: int) -> Seq<Contribution>
        decreases r_end,
    {
        if r_end <= 0 {
            Seq::empty()
        } else {
            self.band_trace(r_end - 1) + self.line_trace(r_end - 1, self.x.count)
        }
    }
}

/// The weights of a sequence of contributions, added up.
pub open spec fn total_weight(items: Seq<Contribution>) -> int
    decreases items.len(),
{
    if items.len() == 0 {
        0
    } else {
        total_weight(items.drop_last()) + items.last().weight
    }
}

/// The weight of two sequences laid end to end is the sum of their weights.
pub proof fn lemma_total_weight_concat(a: Seq<Contribution>, b: Seq<Contribution>)
    ensures
        total_weight(a + b) == total_weight(a) + total_weight(b),
    decreases b.len(),
{
    if b.len() == 0 {
        assert(a + b =~= a);
    } else {
        assert((a + b).drop_last() =~= a + b.drop_last());
        assert((a + b).last() == b.last());
        lemma_total_weight_concat(a, b.drop_last());
    }
}

/// The weights that a source pixel gives to one row of tile pixels add up
/// to its overlap with that row times the width it covers.
pub proof fn lemma_row_weight(cv: ChunkView, c: int, r: int, l: int, k_end: int)
    requires
        cv.wf(),
        0 <= c < cv.x.count,
        0 <= r < cv.y.count,
        cv.y.first_cell(r) <= l < cv.y.end_cell(r),
        cv.x.first_cell(c) <= k_end <= cv.x.end_cell(c),
    ensures
        total_weight(cv.row_trace(c, r, l, k_end)) == cv.x.overlap_sum(c, k_end) * cv.y.overlap(r, l),
        cv.row_trace(c, r, l, k_end).len() == k_end - cv.x.first_cell(c),
    decreases k_end - cv.x.first_cell(c),
{
    if k_end > cv.x.first_cell(c) {
        lemma_row_weight(cv, c, r, l, k_end - 1);
        let t = cv.row_trace(c, r, l, k_end);
        let before = cv.row_trace(c, r, l, k_end - 1);
        assert(t.drop_last() =~= before);
        lemma_weight_fits(cv, c, r, k_end - 1, l);
        let a = cv.x.overlap_sum(c, k_end - 1);
        let b = cv.x.overlap(c, k_end - 1);
        let h = cv.y.overlap(r, l);
        assert((a + b) * h == a * h + b * h) by (nonlinear_arith);
    } else {
        assert(0 * cv.y.overlap(r, l) == 0) by (nonlinear_arith);
    }
}

/// An overlap area fits the machine word it is handed out in.
pub proof fn lemma_weight_fits(cv: ChunkView, c: int, r: int, k: int, l: int)
    requires
        cv.wf(),
    ensures
        0 <= cv.x.overlap(c, k) <= cv.x.cell,
        0 <= cv.y.overlap(r, l) <= cv.y.cell,
        0 <= cv.x.overlap(c, k) * cv.y.overlap(r, l) <= MAX_WIDTH * MAX_WIDTH,
        cv.contribution(c, r, k, l).weight == cv.x.overlap(c, k) * cv.y.overlap(r, l),
{
    assert((k + 1) * cv.x.cell == k * cv.x.cell + cv.x.cell) by (nonlinear_arith);
    assert((l + 1) * cv.y.cell == l * cv.y.cell + cv.y.cell) by (nonlinear_arith);
    lemma_mul_bounds(
        cv.x.overlap(c, k),
        cv.y.overlap(r, l),
        MAX_WIDTH as int,
        MAX_WIDTH as int,
    );
}

/// The weights that a source pixel gives to the rows up to `l_end` add up
/// to the height it covers there times the width it covers.
pub proof fn lemma_pixel_weight(cv: ChunkView, c: int, r: int, l_end: int)
    requires
        cv.wf(),
        0 <= c < cv.x.count,
        0 <= r < cv.y.count,
        cv.y.first_cell(r) <= l_end <= cv.y.end_cell(r),
    ensures
        total_weight(cv.pixel_trace(c, r, l_end)) == cv.x.overlap_sum(c, cv.x.end_cell(c))
            * cv.y.overlap_sum(r, l_end),
    decreases l_end - cv.y.first_cell(r),
{
    let w = cv.x.overlap_sum(c, cv.x.end_cell(c));
    if l_end > cv.y.first_cell(r) {
        lemma_pixel_weight(cv, c, r, l_end - 1);
        lemma_cell_range(cv.x, c);
        lemma_row_weight(cv, c, r, l_end - 1, cv.x.end_cell(c));
        lemma_total_weight_concat(
            cv.pixel_trace(c, r, l_end - 1),
            cv.row_trace(c, r, l_end - 1, cv.x.end_cell(c)),
        );
        let a = cv.y.overlap_sum(r, l_end - 1);
        let b = cv.y.overlap(r, l_end - 1);
        assert(w * (a + b) == w * a + w * b) by (nonlinear_arith);
    } else {
        assert(w * 0 == 0) by (nonlinear_arith);
    }
}

/// Weight-sum law: the overlap areas that a source pixel hands out add up
/// to the part of its area that lies within the row of tiles; for a pixel
/// that lies wholly within, to its whole area, so that as fractions of the
/// pixel they add up to one.
pub proof fn lemma_weights_add_up(cv: ChunkView, c: int, r: int)
    requires
        cv.wf(),
        0 <= c < cv.x.count,
        0 <= r < cv.y.count,
    ensures
        total_weight(cv.pixel_all(c, r)) == (cv.x.high(c) - cv.x.low(c)) * (cv.y.high(r) - cv.y.low(
            r,
        )),
        cv.x.interior(c) && cv.y.interior(r) ==> total_weight(cv.pixel_all(c, r)) == cv.pixel_area(),
{
    lemma_cell_range(cv.x, c);
    lemma_cell_range(cv.y, r);
    lemma_pixel_weight(cv, c, r, cv.y.end_cell(r));
    lemma_overlaps_add_up(cv.x, c, cv.x.end_cell(c));
    lemma_overlaps_add_up(cv.y, r, cv.y.end_cell(r));
    let w = cv.x.high(c) - cv.x.low(c);
    let h = cv.y.high(r) - cv.y.low(r);
    assert(cv.x.overlap_sum(c, cv.x.end_cell(c)) == w) by {
        if cv.x.end_cell(c) > cv.x.first_cell(c) {
            if cv.x.low(c) == cv.x.high(c) {
                assert(cv.x.overlap_sum(c, cv.x.end_cell(c)) == cv.x.overlap_sum(c, cv.x.first_cell(c))
                    + cv.x.overlap(c, cv.x.first_cell(c)));
            }
        }
    }
    assert(cv.y.overlap_sum(r, cv.y.end_cell(r)) == h) by {
        if cv.y.end_cell(r) > cv.y.first_cell(r) {
            if cv.y.low(r) == cv.y.high(r) {
                assert(cv.y.overlap_sum(r, cv.y.end_cell(r)) == cv.y.overlap_sum(r, cv.y.first_cell(r))
                    + cv.y.overlap(r, cv.y.first_cell(r)));
            }
        }
    }
    if cv.x.interior(c) && cv.y.interior(r) {
        assert((c + 1) * cv.x.step == c * cv.x.step + cv.x.step) by (nonlinear_arith);
        assert((r + 1) * cv.y.step == r * cv.y.step + cv.y.step) by (nonlinear_arith);
    }
}

impl ChunkView {
    /// What the source pixels of the first `r_end` rows give to the tile
    /// pixel in column `k` and row `l`, added up: in each row the overlaps
    /// across, times the overlap of the row down.
    pub open spec fn cell_weight(self, k: int, l: int, r_end: int) -> int
        decreases r_end,
    {
        if r_end <= 0 {
            0
        } else {
            self.cell_weight(k, l, r_end - 1) + self.x.cover_sum(k, self.x.count) * self.y.overlap(
                r_end - 1,
                l,
            )
        }
    }
}

/// The weights of the contributions of `items` to tile pixel `cell` of tile
/// `tile`, added up.
pub open spec fn weight_into(items: Seq<Contribution>, tile: Dims, cell: Dims) -> int
    decreases items.len(),
{
    if items.len() == 0 {
        0
    } else {
        weight_into(items.drop_last(), tile, cell) + (if items.last().tile == tile
            && items.last().cell == cell {
            items.last().weight as int
        } else {
            0
        })
    }
}

/// What reaches a tile pixel from two sequences laid end to end is the sum
/// of what reaches it from each.
pub proof fn lemma_weight_into_concat(a: Seq<Contribution>, b: Seq<Contribution>, tile: Dims, cell: Dims)
    ensures
        weight_into(a + b, tile, cell) == weight_into(a, tile, cell) + weight_into(b, tile, cell),
    decreases b.len(),
{
    if b.len() == 0 {
        assert(a + b =~= a);
    } else {
        assert((a + b).drop_last() =~= a + b.drop_last());
        assert((a + b).last() == b.last());
        lemma_weight_into_concat(a, b.drop_last(), tile, cell);
    }
}

impl ChunkView {
    /// The tile that holds column `k` and row `l` of the row of tiles.
    pub open spec fn tile_of(self, k: int, l: int) -> Dims {
        ((k / self.tile_width) as usize, (l / self.tile_height) as usize)
    }

    /// Where in its tile column `k` and row `l` of the row of tiles lie.
    pub open spec fn cell_of(self, k: int, l: int) -> Dims {
        ((k % self.tile_width) as usize, (l % self.tile_height) as usize)
    }
}

/// Different tile pixels of the row of tiles are told apart by their tile
/// and their place in it.
pub proof fn lemma_cells_apart(cv: ChunkView, k1: int, l1: int, k2: int, l2: int)
    requires
        cv.wf(),
        0 <= k1 < cv.x.cells,
        0 <= k2 < cv.x.cells,
        0 <= l1 < cv.y.cells,
        0 <= l2 < cv.y.cells,
        cv.tile_of(k1, l1) == cv.tile_of(k2, l2),
        cv.cell_of(k1, l1) == cv.cell_of(k2, l2),
    ensures
        k1 == k2,
        l1 == l2,
{
    let w = cv.tile_width;
    let h = cv.tile_height;
    vstd::arithmetic::div_mod::lemma_fundamental_div_mod(k1, w);
    vstd::arithmetic::div_mod::lemma_fundamental_div_mod(k2, w);
    vstd::arithmetic::div_mod::lemma_fundamental_div_mod(l1, h);
    vstd::arithmetic::div_mod::lemma_fundamental_div_mod(l2, h);
    vstd::arithmetic::div_mod::lemma_mod_bound(k1, w);
    vstd::arithmetic::div_mod::lemma_mod_bound(k2, w);
    vstd::arithmetic::div_mod::lemma_mod_bound(l1, h);
    vstd::arithmetic::div_mod::lemma_mod_bound(l2, h);
    vstd::arithmetic::div_mod::lemma_div_pos_is_pos(k1, w);
    vstd::arithmetic::div_mod::lemma_div_pos_is_pos(k2, w);
    vstd::arithmetic::div_mod::lemma_div_pos_is_pos(l1, h);
    vstd::arithmetic::div_mod::lemma_div_pos_is_pos(l2, h);
    vstd::arithmetic::div_mod::lemma_div_is_ordered(k1, cv.x.cells, w);
    vstd::arithmetic::div_mod::lemma_div_is_ordered(k2, cv.x.cells, w);
    vstd::arithmetic::div_mod::lemma_div_is_ordered(l1, cv.y.cells, h);
    vstd::arithmetic::div_mod::lemma_div_is_ordered(l2, cv.y.cells, h);
    vstd::arithmetic::div_mod::lemma_div_is_ordered_by_denominator(cv.x.cells, 1, w);
    vstd::arithmetic::div_mod::lemma_div_is_ordered_by_denominator(cv.y.cells, 1, h);
    assert(cv.x.cells / 1 == cv.x.cells);
    assert(cv.y.cells / 1 == cv.y.cells);
}

/// An overlap with a cell that a source pixel does not reach is empty.
pub proof fn lemma_no_overlap_outside(ax: AxisView, i: int, k: int)
    requires
        ax.wf(),
        0 <= i < ax.count,
        0 <= k < ax.cells,
        k < ax.first_cell(i) || k >= ax.end_cell(i),
    ensures
        ax.overlap(i, k) == 0,
{
    lemma_cell_range(ax, i);
    let c = ax.cell;
    assert((k + 1) * c == k * c + c) by (nonlinear_arith);
    if k < ax.first_cell(i) {
        vstd::arithmetic::mul::lemma_mul_inequality(k + 1, ax.first_cell(i), c);
    } else {
        vstd::arithmetic::mul::lemma_mul_inequality(ax.end_cell(i), k, c);
    }
}

/// What one row of the contributions of a source pixel gives to a tile
/// pixel: the overlap area, if the row is the row of the tile pixel and its
/// column is among those handed out, and else nothing.
pub proof fn lemma_row_into(cv: ChunkView, c: int, r: int, row: int, k_end: int, k: int, l: int)
    requires
        cv.wf(),
        0 <= c < cv.x.count,
        0 <= r < cv.y.count,
        0 <= row < cv.y.cells,
        cv.x.first_cell(c) <= k_end <= cv.x.end_cell(c),
        0 <= k < cv.x.cells,
        0 <= l < cv.y.cells,
    ensures
        weight_into(cv.row_trace(c, r, row, k_end), cv.tile_of(k, l), cv.cell_of(k, l)) == (if row
            == l && cv.x.first_cell(c) <= k < k_end {
            cv.x.overlap(c, k) * cv.y.overlap(r, l)
        } else {
            0
        }),
    decreases k_end - cv.x.first_cell(c),
{
    lemma_cell_range(cv.x, c);
    if k_end > cv.x.first_cell(c) {
        lemma_row_into(cv, c, r, row, k_end - 1, k, l);
        let t = cv.row_trace(c, r, row, k_end);
        assert(t.drop_last() =~= cv.row_trace(c, r, row, k_end - 1));
        assert(t.last() == cv.contribution(c, r, k_end - 1, row));
        lemma_weight_fits(cv, c, r, k_end - 1, row);
        if t.last().tile == cv.tile_of(k, l) && t.last().cell == cv.cell_of(k, l) {
            lemma_cells_apart(cv, k_end - 1, row, k, l);
        }
    }
}

/// What the contributions of a source pixel give to a tile pixel: the
/// overlap area of the two.
pub proof fn lemma_pixel_into(cv: ChunkView, c: int, r: int, l_end: int, k: int, l: int)
    requires
        cv.wf(),
        0 <= c < cv.x.count,
        0 <= r < cv.y.count,
        cv.y.first_cell(r) <= l_end <= cv.y.end_cell(r),
        0 <= k < cv.x.cells,
        0 <= l < cv.y.cells,
    ensures
        weight_into(cv.pixel_trace(c, r, l_end), cv.tile_of(k, l), cv.cell_of(k, l)) == (if cv.y.first_cell(
            r,
        ) <= l < l_end {
            cv.x.overlap(c, k) * cv.y.overlap(r, l)
        } else {
            0
        }),
        l_end == cv.y.end_cell(r) ==> weight_into(
            cv.pixel_all(c, r),
            cv.tile_of(k, l),
            cv.cell_of(k, l),
        ) == cv.x.overlap(c, k) * cv.y.overlap(r, l),
    decreases l_end - cv.y.first_cell(r),
{
    lemma_cell_range(cv.x, c);
    lemma_cell_range(cv.y, r);
    let ox = cv.x.overlap(c, k);
    let oy = cv.y.overlap(r, l);
    if l_end > cv.y.first_cell(r) {
        lemma_pixel_into(cv, c, r, l_end - 1, k, l);
        lemma_row_into(cv, c, r, l_end - 1, cv.x.end_cell(c), k, l);
        lemma_weight_into_concat(
            cv.pixel_trace(c, r, l_end - 1),
            cv.row_trace(c, r, l_end - 1, cv.x.end_cell(c)),
            cv.tile_of(k, l),
            cv.cell_of(k, l),
        );
        if l == l_end - 1 && !(cv.x.first_cell(c) <= k < cv.x.end_cell(c)) {
            lemma_no_overlap_outside(cv.x, c, k);
            assert(ox * oy == 0) by (nonlinear_arith)
                requires
                    ox == 0,
            ;
        }
    }
    if l_end == cv.y.end_cell(r) && !(cv.y.first_cell(r) <= l < l_end) {
        lemma_no_overlap_outside(cv.y, r, l);
        assert(ox * oy == 0) by (nonlinear_arith)
            requires
                oy == 0,
        ;
    }
}

/// What the contributions of the first pixels of a source row give to a
/// tile pixel: their overlaps across, times the overlap of the row down.
pub proof fn lemma_line_into(cv: ChunkView, r: int, c_end: int, k: int, l: int)
    requires
        cv.wf(),
        0 <= r < cv.y.count,
        0 <= c_end <= cv.x.count,
        0 <= k < cv.x.cells,
        0 <= l < cv.y.cells,
    ensures
        weight_into(cv.line_trace(r, c_end), cv.tile_of(k, l), cv.cell_of(k, l)) == cv.x.cover_sum(
            k,
            c_end,
        ) * cv.y.overlap(r, l),
    decreases c_end,
{
    let oy = cv.y.overlap(r, l);
    if c_end > 0 {
        lemma_line_into(cv, r, c_end - 1, k, l);
        lemma_cell_range(cv.y, r);
        lemma_pixel_into(cv, c_end - 1, r, cv.y.end_cell(r), k, l);
        lemma_weight_into_concat(
            cv.line_trace(r, c_end - 1),
            cv.pixel_all(c_end - 1, r),
            cv.tile_of(k, l),
            cv.cell_of(k, l),
        );
        let a = cv.x.cover_sum(k, c_end - 1);
        let b = cv.x.overlap(c_end - 1, k);
        assert((a + b) * oy == a * oy + b * oy) by (nonlinear_arith);
    } else {
        assert(0 * oy == 0) by (nonlinear_arith);
    }
}

/// What the contributions of the first source rows give to a tile pixel.
pub proof fn lemma_band_into(cv: ChunkView, r_end: int, k: int, l: int)
    requires
        cv.wf(),
        0 <= r_end <= cv.y.count,
        0 <= k < cv.x.cells,
        0 <= l < cv.y.cells,
    ensures
        weight_into(cv.band_trace(r_end), cv.tile_of(k, l), cv.cell_of(k, l)) == cv.cell_weight(
            k,
            l,
            r_end,
        ),
    decreases r_end,
{
    if r_end > 0 {
        lemma_band_into(cv, r_end - 1, k, l);
        lemma_line_into(cv, r_end - 1, cv.x.count, k, l);
        lemma_weight_into_concat(
            cv.band_trace(r_end - 1),
            cv.line_trace(r_end - 1, cv.x.count),
            cv.tile_of(k, l),
            cv.cell_of(k, l),
        );
    }
}

/// Area conservation: a tile pixel that lies wholly under the band of
/// source pixels receives, from all the contributions that `process` hands
/// out, overlap areas that add up to its own area.  So where every sample is
/// the same, the weighted mean of what reaches the tile pixel is that
/// sample.
pub proof fn lemma_cell_weights_add_up(cv: ChunkView, k: int, l: int)
    requires
        cv.wf(),
        0 <= k < cv.x.cells,
        0 <= l < cv.y.cells,
        cv.x.covered(k),
        cv.y.covered(l),
    ensures
        cv.cell_weight(k, l, cv.y.count) == cv.cell_area(),
        weight_into(cv.band_trace(cv.y.count), cv.tile_of(k, l), cv.cell_of(k, l)) == cv.cell_area(),
{
    lemma_covers_add_up(cv.x, k, cv.x.count);
    lemma_covers_add_up(cv.y, l, cv.y.count);
    lemma_cell_weight(cv, k, l, cv.y.count);
    lemma_band_into(cv, cv.y.count, k, l);
}

/// What the first rows of source pixels give to a tile pixel is what the
/// rows overlap of it down, times what the source pixels overlap across.
pub proof fn lemma_cell_weight(cv: ChunkView, k: int, l: int, r_end: int)
    requires
        0 <= r_end,
    ensures
        cv.cell_weight(k, l, r_end) == cv.x.cover_sum(k, cv.x.count) * cv.y.cover_sum(l, r_end),
    decreases r_end,
{
    let w = cv.x.cover_sum(k, cv.x.count);
    if r_end > 0 {
        lemma_cell_weight(cv, k, l, r_end - 1);
        let a = cv.y.cover_sum(l, r_end - 1);
        let b = cv.y.overlap(r_end - 1, l);
        assert(w * (a + b) == w * a + w * b) by (nonlinear_arith);
    } else {
        assert(w * 0 == 0) by (nonlinear_arith);
    }
}

/// `accs` are the values that pass through `f` when it is handed the
/// contributions `items` one after the other: each is what `f` made of the
/// one before and the next contribution.
pub open spec fn chain<A, F: Fn(A, Dims, Dims, Dims, u128) -> A>(
    f: &F,
    items: Seq<Contribution>,
    accs: Seq<A>,
) -> bool {
    &&& accs.len() == items.len() + 1
    &&& forall|i: int|
        0 <= i < items.len() ==> f.ensures(
            (accs[i], items[i].tile, items[i].cell, items[i].source, items[i].weight),
            #[trigger] accs[i + 1],
        )
}

/// `out` is what comes of handing the contributions `items` to `f` one
/// after the other, starting from `init`.
pub open spec fn folds<A, F: Fn(A, Dims, Dims, Dims, u128) -> A>(
    f: &F,
    init: A,
    items: Seq<Contribution>,
    out: A,
) -> bool {
    exists|accs: Seq<A>| #[trigger] chain(f, items, accs) && accs[0] == init && accs.last() == out
}

impl View for ChunkConfig {
    type V = ChunkView;

    closed spec fn view(&self) -> ChunkView {
        ChunkView {
            x: self.x@,
            y: self.y@,
            tile_width: self.tile_size.0 as int,
            tile_height: self.tile_size.1 as int,
        }
    }
}

impl ChunkConfig {
    /// A tile has pixels.
    #[verifier::type_invariant]
    spec fn valid(&self) -> bool {
        self.tile_size.0 > 0 && self.tile_size.1 > 0
    }

    /// The resampling along the two axes into tiles of `tile_size` pixels;
    /// `None` if a tile would have no pixels.
    pub fn new(x: Axis, y: Axis, tile_size: Dims) -> (cfg: Option<Self>)
        ensures
            cfg is Some <==> tile_size.0 > 0 && tile_size.1 > 0,
            cfg matches Some(c) ==> c@ == (ChunkView {
                x: x@,
                y: y@,
                tile_width: tile_size.0 as int,
                tile_height: tile_size.1 as int,
            }) && c@.wf(),
    {
        if tile_size.0 == 0 || tile_size.1 == 0 {
            None
        } else {
            let _ = x.count();
            let _ = y.count();
            Some(ChunkConfig { x, y, tile_size })
        }
    }

    /// The size of the band in source pixels, as `(columns, rows)`.
    pub fn data_size(&self) -> (d: Dims)
        ensures
            d.0 == self@.x.count,
            d.1 == self@.y.count,
            self@.wf(),
    {
        proof {
            use_type_invariant(self);
        }
        (self.x.count(), self.y.count())
    }

    /// The area of a source pixel in square units.
    pub fn pixel_area(&self) -> (a: u128)
        ensures
            a == self@.pixel_area(),
            a > 0,
    {
        let w = self.x.step();
        let h = self.y.step();
        proof {
            lemma_mul_bounds(w as int, h as int, MAX_WIDTH as int, MAX_WIDTH as int);
            assert(w * h > 0) by (nonlinear_arith)
                requires
                    w > 0,
                    h > 0,
            ;
        }
        w as u128 * h as u128
    }

    /// The area of a tile pixel in square units.
    pub fn cell_area(&self) -> (a: u128)
        ensures
            a == self@.cell_area(),
            a > 0,
    {
        let w = self.x.cell();
        let h = self.y.cell();
        proof {
            lemma_mul_bounds(w as int, h as int, MAX_WIDTH as int, MAX_WIDTH as int);
            assert(w * h > 0) by (nonlinear_arith)
                requires
                    w > 0,
                    h > 0,
            ;
        }
        w as u128 * h as u128
    }

    /// Hands every contribution of source pixel `(c, r)` to `f`: for each
    /// tile pixel that the source pixel reaches, row by row, the tile, the
    /// pixel within the tile, the source pixel and the exact area of the
    /// overlap.
    pub fn process_pixel<A, F: Fn(A, Dims, Dims, Dims, u128) -> A>(
        &self,
        c: usize,
        r: usize,
        init: A,
        f: &F,
    ) -> (out: A)
        requires
            c < self@.x.count,
            r < self@.y.count,
            forall|a: A, t: Dims, p: Dims, s: Dims, w: u128| f.requires((a, t, p, s, w)),
        ensures
            folds(f, init, self@.pixel_all(c as int, r as int), out),
    {
        proof {
            use_type_invariant(self);
        }
        let _ = self.x.count();
        let _ = self.y.count();
        let ghost cv = self@;
        let (k0, k1) = self.x.range(c);
        let (l0, l1) = self.y.range(r);
        let (tw, th) = self.tile_size;
        let mut acc = init;
        let ghost mut accs: Seq<A> = seq![init];
        let mut l: usize = l0;
        while l < l1
            invariant
                cv == self@,
                cv.wf(),
                tw == cv.tile_width,
                th == cv.tile_height,
                c < cv.x.count,
                r < cv.y.count,
                k0 == cv.x.first_cell(c as int),
                k1 == cv.x.end_cell(c as int),
                l0 == cv.y.first_cell(r as int),
                l1 == cv.y.end_cell(r as int),
                k0 <= k1 <= cv.x.cells,
                l0 <= l <= l1 <= cv.y.cells,
                forall|a: A, t: Dims, p: Dims, s: Dims, w: u128| f.requires((a, t, p, s, w)),
                chain(f, cv.pixel_trace(c as int, r as int, l as int), accs),
                accs[0] == init,
                accs.last() == acc,
            decreases l1 - l,
        {
            let h = self.y.overlap(r, l);
            let ghost above = cv.pixel_trace(c as int, r as int, l as int);
            let mut k: usize = k0;
            while k < k1
                invariant
                    cv == self@,
                    cv.wf(),
                    tw == cv.tile_width,
                    th == cv.tile_height,
                    c < cv.x.count,
                    r < cv.y.count,
                    k0 == cv.x.first_cell(c as int),
                    k0 <= k <= k1 <= cv.x.cells,
                    l < cv.y.cells,
                    h == cv.y.overlap(r as int, l as int),
                    forall|a: A, t: Dims, p: Dims, s: Dims, w: u128| f.requires((a, t, p, s, w)),
                    chain(f, above + cv.row_trace(c as int, r as int, l as int, k as int), accs),
                    accs[0] == init,
                    accs.last() == acc,
                decreases k1 - k,
            {
                let w = self.x.overlap(c, k);
                proof {
                    lemma_weight_fits(cv, c as int, r as int, k as int, l as int);
                }
                let weight: u128 = w as u128 * h as u128;
                let ghost before = above + cv.row_trace(c as int, r as int, l as int, k as int);
                let ghost held = accs;
                acc = f(acc, (k / tw, l / th), (k % tw, l % th), (c, r), weight);
                proof {
                    let item = cv.contribution(c as int, r as int, k as int, l as int);
                    let after = above + cv.row_trace(c as int, r as int, l as int, k + 1);
                    assert(after =~= before.push(item));
                    accs = accs.push(acc);
                    assert forall|i: int| 0 <= i < after.len() implies f.ensures(
                        (accs[i], after[i].tile, after[i].cell, after[i].source, after[i].weight),
                        #[trigger] accs[i + 1],
                    ) by {
                        if i < before.len() {
                            assert(accs[i] == held[i] && accs[i + 1] == held[i + 1]);
                            assert(after[i] == before[i]);
                        }
                    }
                }
                k += 1;
            }
            proof {
                assert(cv.pixel_trace(c as int, r as int, l + 1) == above + cv.row_trace(
                    c as int,
                    r as int,
                    l as int,
                    k1 as int,
                ));
            }
            l += 1;
            proof {
                assert(above + cv.row_trace(c as int, r as int, l - 1, k0 as int) =~= above) by {
                    assert(cv.row_trace(c as int, r as int, l - 1, k0 as int) =~= Seq::empty());
                }
            }
        }
        proof {
            assert(chain(f, cv.pixel_all(c as int, r as int), accs));
        }
        acc
    }

    /// Hands every contribution of the band to `f`: source row by source
    /// row, pixel by pixel, each as `process_pixel` does.
    pub fn process<A, F: Fn(A, Dims, Dims, Dims, u128) -> A>(&self, init: A, f: &F) -> (out: A)
        requires
            forall|a: A, t: Dims, p: Dims, s: Dims, w: u128| f.requires((a, t, p, s, w)),
        ensures
            folds(f, init, self@.band_trace(self@.y.count), out),
    {
        let (cols, rows) = self.data_size();
        let ghost cv = self@;
        let mut acc = init;
        let ghost mut accs: Seq<A> = seq![init];
        let mut r: usize = 0;
        while r < rows
            invariant
                cv == self@,
                cols == cv.x.count,
                rows == cv.y.count,
                r <= rows,
                forall|a: A, t: Dims, p: Dims, s: Dims, w: u128| f.requires((a, t, p, s, w)),
                chain(f, cv.band_trace(r as int), accs),
                accs[0] == init,
                accs.last() == acc,
            decreases rows - r,
        {
            let ghost above = cv.band_trace(r as int);
            let mut c: usize = 0;
            assert(above + cv.line_trace(r as int, 0) =~= above);
            while c < cols
                invariant
                    cv == self@,
                    cols == cv.x.count,
                    rows == cv.y.count,
                    r < rows,
                    c <= cols,
                    forall|a: A, t: Dims, p: Dims, s: Dims, w: u128| f.requires((a, t, p, s, w)),
                    chain(f, above + cv.line_trace(r as int, c as int), accs),
                    accs[0] == init,
                    accs.last() == acc,
                decreases cols - c,
            {
                let ghost before = above + cv.line_trace(r as int, c as int);
                let ghost mid = acc;
                acc = self.process_pixel(c, r, acc, f);
                proof {
                    let more = cv.pixel_all(c as int, r as int);
                    let tail = choose|tail: Seq<A>| #[trigger]
                        chain(f, more, tail) && tail[0] == mid && tail.last() == acc;
                    lemma_chain_concat(f, before, accs, more, tail);
                    accs = accs + tail.drop_first();
                    assert(above + cv.line_trace(r as int, c + 1) =~= before + more);
                }
                c += 1;
            }
            r += 1;
        }
        acc
    }
}

/// The values that pass through two runs of contributions, the second
/// starting where the first ended, pass through the two laid end to end.
pub proof fn lemma_chain_concat<A, F: Fn(A, Dims, Dims, Dims, u128) -> A>(
    f: &F,
    a: Seq<Contribution>,
    accs: Seq<A>,
    b: Seq<Contribution>,
    tail: Seq<A>,
)
    requires
        chain(f, a, accs),
        chain(f, b, tail),
        accs.last() == tail[0],
    ensures
        chain(f, a + b, accs + tail.drop_first()),
        (accs + tail.drop_first())[0] == accs[0],
        (accs + tail.drop_first()).last() == tail.last(),
{
    let all = accs + tail.drop_first();
    let items = a + b;
    assert forall|i: int| 0 <= i < items.len() implies f.ensures(
        (all[i], items[i].tile, items[i].cell, items[i].source, items[i].weight),
        #[trigger] all[i + 1],
    ) by {
        if i < a.len() {
            assert(all[i] == accs[i] && all[i + 1] == accs[i + 1]);
        } else {
            let j = i - a.len();
            assert(items[i] == b[j]);
            assert(all[i + 1] == tail[j + 1]);
            assert(all[i] == tail[j]);
        }
    }
}

} // verus!
