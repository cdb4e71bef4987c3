//! Tiling a raster into the Web Mercator tile grid.
//!
//! `Config` places a raster on the world grid and derives from that the
//! zoom levels worth building and the tiles that cover the raster at each.

pub mod aggregator;
pub mod axis;
pub mod base;
pub mod codec;
pub mod dem;
pub mod index;
pub mod samples;
pub mod stream;
pub mod web_mercator;

use crate::tiling::base::RowProc;
use crate::tiling::web_mercator::{
    fine_enough,
    in_one_tile,
    largest_zoom_containing,
    lemma_tile_halves,
    tile_index,
    tile_of,
    zoom_for_resolution,
    Bounds,
    GridPoint,
    MAX_ZOOM,
};
use vstd::prelude::*;

verus! {

/// Width and height of a raster or of a window into one.
pub type Dims = (usize, usize);

/// Pixel offset into a raster.
pub type ICoords = (isize, isize);

/// Why a raster cannot be tiled.
#[derive(Clone, Copy, Debug, PartialEq, Eq, Structural)]
pub enum GeometryError {
    /// The tile size is zero or odd.
    TileSize,
    /// The raster is not north aligned: the images of its four corners are
    /// not the corners of an upright rectangle.
    NotNorthAligned,
    /// The pixels are not square on the world grid, beyond a quarter of
    /// their smaller side.
    NotSquare,
}

/// Rows or tiles that do not fit together: a sign of a bug in the driver.
#[derive(Clone, Copy, Debug, PartialEq, Eq, Structural)]
pub enum DataInvariantError {
    /// The row's zoom lies outside the levels the aggregator was made for.
    ZoomOutOfRange,
    /// The row is not the next one in row order at its zoom level.
    OutOfOrder,
    /// Tiles differ in size or have an odd side, rows differ in their tile
    /// range, or a row holds no tile.
    ShapeMismatch,
    /// A quad-merge was asked for with all four corners absent.
    NoCorner,
}

/// How a raster lies on the world grid, and the size of the tiles to cut.
pub struct Config {
    tile_size: usize,
    wm_bounds: Bounds,
    raster_size: Dims,
}

/// Whether pixels are square within the tolerance: the raster has
/// `w x h` pixels and spans `dx x dy` grid cells, so a pixel measures
/// `dx / w` by `dy / h`, and the two may differ by at most a quarter of the
/// smaller.
pub open spec fn is_square(dx: nat, dy: nat, w: nat, h: nat) -> bool {
    let a = dx * h;
    let b = dy * w;
    4 * (if a >= b { a - b } else { b - a }) <= (if a <= b { a } else { b })
}

/// Whether the coordinate `v` misses the coordinate `edge`, which it should
/// share, by more than a hundred-thousandth of the distance of `edge` from
/// the middle of the world, where Web Mercator coordinates are zero.
pub open spec fn off_edge(v: int, edge: int) -> bool {
    100000 * (if v >= edge { v - edge } else { edge - v }) > (if edge >= 0x8000_0000 {
        edge - 0x8000_0000
    } else {
        0x8000_0000 - edge
    })
}

/// Whether a raster is north aligned within the tolerance.  `corners` are
/// the images on the world grid of the corners of the raster: upper left,
/// upper right, lower left, lower right.  The upper left and the lower
/// right one span the rectangle; the other two must lie on its edges.
pub open spec fn is_north_aligned(corners: [GridPoint; 4]) -> bool {
    let left = corners[0].0;
    let top = corners[0].1;
    let right = corners[3].0;
    let bottom = corners[3].1;
    &&& !off_edge(corners[1].0 as int, right as int)
    &&& !off_edge(corners[1].1 as int, top as int)
    &&& !off_edge(corners[2].0 as int, left as int)
    &&& !off_edge(corners[2].1 as int, bottom as int)
}

/// Whether a configuration can be made: the tile size is positive and even,
/// the raster is north aligned, and its pixels are square.
pub open spec fn can_tile(corners: [GridPoint; 4], raster_size: Dims, tile_size: usize) -> bool {
    let span = Bounds::new_spec(corners[0], corners[3]);
    &&& tile_size > 0
    &&& tile_size % 2 == 0
    &&& is_north_aligned(corners)
    &&& is_square(
        (span.1.0 - span.0.0) as nat,
        (span.1.1 - span.0.1) as nat,
        raster_size.0 as nat,
        raster_size.1 as nat,
    )
}

/// Whether the coordinate `v` misses the coordinate `edge` by more than the
/// tolerance.
fn misses_edge(v: u32, edge: u32) -> (off: bool)
    ensures
        off == off_edge(v as int, edge as int),
{
    let gap: u64 = if v >= edge { (v - edge) as u64 } else { (edge - v) as u64 };
    let reach: u64 = if edge >= 0x8000_0000 {
        (edge - 0x8000_0000) as u64
    } else {
        (0x8000_0000 - edge) as u64
    };
    100000 * gap > reach
}

/// The tiles that cover `bounds` at `zoom`: `[left, top, right, bottom]`,
/// left and top inclusive, right and bottom exclusive.
pub open spec fn tile_rect(zoom: nat, bounds: Bounds) -> [nat; 4] {
    [
        tile_of(zoom, bounds.lo().0 as nat),
        tile_of(zoom, bounds.lo().1 as nat),
        tile_of(zoom, bounds.hi().0 as nat) + 1,
        tile_of(zoom, bounds.hi().1 as nat) + 1,
    ]
}

/// The tile rectangle of one zoom is the halved rectangle of the next.
///
/// Halving takes an inclusive-exclusive range `l..r` to
/// `l / 2 .. (r - 1) / 2 + 1`, the range of the parent tiles: it is how a
/// row of tiles shrinks when it is merged into the next coarser zoom.  So
/// the rectangle derived afresh at `zoom` is the one reached by merging up
/// from `zoom + 1`, and each contains the other.
pub proof fn lemma_tile_rect_nests(zoom: nat, bounds: Bounds)
    ensures
        tile_rect(zoom, bounds)[0] == tile_rect(zoom + 1, bounds)[0] / 2,
        tile_rect(zoom, bounds)[1] == tile_rect(zoom + 1, bounds)[1] / 2,
        tile_rect(zoom, bounds)[2] == (tile_rect(zoom + 1, bounds)[2] - 1) / 2 + 1,
        tile_rect(zoom, bounds)[3] == (tile_rect(zoom + 1, bounds)[3] - 1) / 2 + 1,
{
    lemma_tile_halves(zoom, bounds.lo().0 as nat);
    lemma_tile_halves(zoom, bounds.lo().1 as nat);
    lemma_tile_halves(zoom, bounds.hi().0 as nat);
    lemma_tile_halves(zoom, bounds.hi().1 as nat);
}

impl Config {
    /// Tiles have an even, positive number of pixels per side.
    #[verifier::type_invariant]
    spec fn valid(&self) -> bool {
        self.tile_size > 0 && self.tile_size % 2 == 0
    }

    /// Pixels per tile edge.
    pub closed spec fn tile_res(&self) -> usize {
        self.tile_size
    }

    /// The extent of the raster on the world grid.
    pub closed spec fn bounds(&self) -> Bounds {
        self.wm_bounds
    }

    /// Width and height of the raster in pixels.
    pub closed spec fn size(&self) -> Dims {
        self.raster_size
    }

    /// The configuration for a raster of `raster_size` pixels.  `corners`
    /// are the images on the world grid of the corners of the raster: upper
    /// left, upper right, lower left, lower right.  The extent of the raster
    /// is the rectangle spanned by the upper left and the lower right one.
    ///
    /// Fails if `tile_size` is zero or odd, else if the raster is not north
    /// aligned, and else if the pixels are not square; succeeds otherwise.
    pub fn for_raster(corners: [GridPoint; 4], raster_size: Dims, tile_size: usize) -> (res: Result<
        Self,
        GeometryError,
    >)
        ensures
            res is Ok <==> can_tile(corners, raster_size, tile_size),
            tile_size == 0 || tile_size % 2 == 1 ==> res == Err::<Self, GeometryError>(
                GeometryError::TileSize,
            ),
            tile_size > 0 && tile_size % 2 == 0 && !is_north_aligned(corners) ==> res == Err::<
                Self,
                GeometryError,
            >(GeometryError::NotNorthAligned),
            tile_size > 0 && tile_size % 2 == 0 && is_north_aligned(corners) && !can_tile(
                corners,
                raster_size,
                tile_size,
            ) ==> res == Err::<Self, GeometryError>(GeometryError::NotSquare),
            res matches Ok(cfg) ==> {
                &&& cfg.tile_res() == tile_size
                &&& cfg.size() == raster_size
                &&& cfg.bounds().lo() == Bounds::new_spec(corners[0], corners[3]).0
                &&& cfg.bounds().hi() == Bounds::new_spec(corners[0], corners[3]).1
            },
    {
        if tile_size == 0 || tile_size % 2 == 1 {
            return Err(GeometryError::TileSize);
        }
        let a = corners[0];
        let b = corners[3];
        if misses_edge(corners[1].0, b.0) || misses_edge(corners[1].1, a.1) || misses_edge(
            corners[2].0,
            a.0,
        ) || misses_edge(corners[2].1, b.1) {
            return Err(GeometryError::NotNorthAligned);
        }
        let wm_bounds = Bounds::new(a, b);
        let lo = wm_bounds.min();
        let hi = wm_bounds.max();
        let dx: u128 = (hi.0 - lo.0) as u128;
        let dy: u128 = (hi.1 - lo.1) as u128;
        assert(dx * raster_size.1 <= 0xffff_ffff * 0xffff_ffff_ffff_ffff) by (nonlinear_arith)
            requires
                dx <= 0xffff_ffff,
                raster_size.1 <= 0xffff_ffff_ffff_ffff,
        ;
        assert(dy * raster_size.0 <= 0xffff_ffff * 0xffff_ffff_ffff_ffff) by (nonlinear_arith)
            requires
                dy <= 0xffff_ffff,
                raster_size.0 <= 0xffff_ffff_ffff_ffff,
        ;
        let across: u128 = dx * raster_size.1 as u128;
        let down: u128 = dy * raster_size.0 as u128;
        let (small, large) = if across <= down { (across, down) } else { (down, across) };
        if 4 * (large - small) > small {
            return Err(GeometryError::NotSquare);
        }
        Ok(Config { tile_size, wm_bounds, raster_size })
    }

    /// Pixels per tile edge: positive and even.
    pub fn tile_size(&self) -> (s: usize)
        ensures
            s == self.tile_res(),
            s > 0,
            s % 2 == 0,
    {
        proof {
            use_type_invariant(self);
        }
        self.tile_size
    }

    /// The extent of the raster on the world grid.
    pub fn wm_bounds(&self) -> (b: Bounds)
        ensures
            b == self.bounds(),
    {
        self.wm_bounds
    }

    /// Width and height of the raster in pixels.
    pub fn raster_size(&self) -> (d: Dims)
        ensures
            d == self.size(),
    {
        self.raster_size
    }

    /// The finest zoom worth building: the smallest at which a tile pixel
    /// is no larger than a raster pixel, measured along `x`.
    pub fn max_zoom(&self) -> (z: usize)
        ensures
            z <= MAX_ZOOM,
            forall|k: nat|
                k < z ==> !#[trigger] fine_enough(
                    k,
                    (self.bounds().hi().0 - self.bounds().lo().0) as nat,
                    self.size().0 as nat,
                    self.tile_res() as nat,
                ),
            z < MAX_ZOOM ==> fine_enough(
                z as nat,
                (self.bounds().hi().0 - self.bounds().lo().0) as nat,
                self.size().0 as nat,
                self.tile_res() as nat,
            ),
    {
        let lo = self.wm_bounds.min();
        let hi = self.wm_bounds.max();
        zoom_for_resolution(hi.0 - lo.0, self.raster_size.0, self.tile_size)
    }

    /// The coarsest zoom worth building: the largest at which the whole
    /// raster lies in one tile.
    pub fn min_zoom(&self) -> (z: usize)
        ensures
            z <= MAX_ZOOM,
            forall|k: nat| k <= z ==> #[trigger] in_one_tile(k, self.bounds()),
            forall|k: nat|
                z < k <= MAX_ZOOM ==> !#[trigger] in_one_tile(k, self.bounds()),
    {
        largest_zoom_containing(self.wm_bounds)
    }

    /// The tiles that cover the raster at `zoom`, as
    /// `[left, top, right, bottom]`.  The zoom may be any at which a tile
    /// index fits the machine word.
    pub fn tile_index_bounds(&self, zoom: usize) -> (r: [usize; 4])
        requires
            zoom < usize::BITS,
        ensures
            r[0] == tile_rect(zoom as nat, self.bounds())[0],
            r[1] == tile_rect(zoom as nat, self.bounds())[1],
            r[2] == tile_rect(zoom as nat, self.bounds())[2],
            r[3] == tile_rect(zoom as nat, self.bounds())[3],
            r[0] < r[2] <= vstd::arithmetic::power2::pow2(zoom as nat),
            r[1] < r[3] <= vstd::arithmetic::power2::pow2(zoom as nat),
    {
        let lo = self.wm_bounds.min();
        let hi = self.wm_bounds.max();
        let (left, top) = tile_index(zoom, lo);
        let (right, bot) = tile_index(zoom, hi);
        proof {
            crate::tiling::web_mercator::lemma_tile_ordered(zoom as nat, lo.0 as nat, hi.0 as nat);
            crate::tiling::web_mercator::lemma_tile_ordered(zoom as nat, lo.1 as nat, hi.1 as nat);
        }
        [left, top, right + 1, bot + 1]
    }

    /// The row processor for the tiles that cover the raster at `zoom`.
    pub fn base_proc(&self, zoom: usize) -> (p: RowProc)
        requires
            zoom < usize::BITS,
        ensures
            p.zoom_level() == zoom,
            p.tile_res() == self.tile_res(),
            p.columns().0 == tile_rect(zoom as nat, self.bounds())[0],
            p.columns().1 == tile_rect(zoom as nat, self.bounds())[2],
    {
        let r = self.tile_index_bounds(zoom);
        RowProc::new(zoom, self.tile_size, (r[0], r[2]))
    }
}

} // verus!
