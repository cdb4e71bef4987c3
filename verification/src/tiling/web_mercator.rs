//! The Web Mercator tile grid in whole numbers.
//!
//! The world square is divided into `2^32 x 2^32` grid cells; a position is
//! the pair of cell indices, `x` growing eastwards and `y` southwards.  At
//! zoom `z` a tile is `2^(32 - z)` cells wide, so a tile index is a position
//! with its low bits dropped, and the tile of a position at one zoom is half
//! its tile at the next.

use vstd::arithmetic::div_mod::{lemma_div_denominator, lemma_multiply_divide_lt};
use vstd::arithmetic::power2::{lemma2_to64, lemma2_to64_rest, lemma_pow2_pos, lemma_pow2_unfold, pow2};
use vstd::prelude::*;

verus! {

/// EPSG code of the Web Mercator projection.
pub const WEB_MERCATOR_EPSG: u32 = 3857;

/// The zoom level at which a tile is one grid cell.
pub const GRID_ZOOM: usize = 32;

/// The finest zoom level that tiles are made for.
pub const MAX_ZOOM: usize = 31;

/// A position on the world grid.
pub type GridPoint = (u32, u32);

/// An axis-aligned rectangle on the world grid, given by its corner of
/// least and its corner of greatest coordinates.
#[derive(Clone, Copy, Debug)]
pub struct Bounds {
    min: GridPoint,
    max: GridPoint,
}

impl Bounds {
    /// The corners are ordered in both coordinates.
    #[verifier::type_invariant]
    spec fn ordered(&self) -> bool {
        self.min.0 <= self.max.0 && self.min.1 <= self.max.1
    }

    /// The corner of least coordinates.
    pub closed spec fn lo(&self) -> GridPoint {
        self.min
    }

    /// The corner of greatest coordinates.
    pub closed spec fn hi(&self) -> GridPoint {
        self.max
    }

    /// The two corners, least first, of the rectangle spanned by `a` and
    /// `b`.
    pub open spec fn new_spec(a: GridPoint, b: GridPoint) -> (GridPoint, GridPoint) {
        (
            (if a.0 <= b.0 { a.0 } else { b.0 }, if a.1 <= b.1 { a.1 } else { b.1 }),
            (if a.0 <= b.0 { b.0 } else { a.0 }, if a.1 <= b.1 { b.1 } else { a.1 }),
        )
    }

    /// The rectangle spanned by two opposite corners, in any order.
    pub fn new(a: GridPoint, b: GridPoint) -> (r: Self)
        ensures
            r.lo() == Self::new_spec(a, b).0,
            r.hi() == Self::new_spec(a, b).1,
    {
        let (x0, x1) = if a.0 <= b.0 { (a.0, b.0) } else { (b.0, a.0) };
        let (y0, y1) = if a.1 <= b.1 { (a.1, b.1) } else { (b.1, a.1) };
        Bounds { min: (x0, y0), max: (x1, y1) }
    }

    /// The corner of least coordinates.
    pub fn min(&self) -> (p: GridPoint)
        ensures
            p == self.lo(),
            p.0 <= self.hi().0,
            p.1 <= self.hi().1,
    {
        proof {
            use_type_invariant(self);
        }
        self.min
    }

    /// The corner of greatest coordinates.
    pub fn max(&self) -> (p: GridPoint)
        ensures
            p == self.hi(),
            self.lo().0 <= p.0,
            self.lo().1 <= p.1,
    {
        proof {
            use_type_invariant(self);
        }
        self.max
    }
}

/// The tile index, at `zoom`, of grid coordinate `v`.  Up to zoom 32 a tile
/// is `2^(32 - zoom)` cells wide; beyond, a cell is `2^(zoom - 32)` tiles
/// wide, and the index is that of the first of them.
pub open spec fn tile_of(zoom: nat, v: nat) -> nat {
    if zoom <= 32 {
        v / pow2((32 - zoom) as nat)
    } else {
        v * pow2((zoom - 32) as nat)
    }
}

/// Whether the two corners of `b` lie in one tile at `zoom`.
pub open spec fn in_one_tile(zoom: nat, b: Bounds) -> bool {
    tile_of(zoom, b.lo().0 as nat) == tile_of(zoom, b.hi().0 as nat) && tile_of(
        zoom,
        b.lo().1 as nat,
    ) == tile_of(zoom, b.hi().1 as nat)
}

/// The tile of a position at one zoom is half its tile at the next.
pub proof fn lemma_tile_halves(zoom: nat, v: nat)
    ensures
        tile_of(zoom, v) == tile_of(zoom + 1, v) / 2,
{
    if zoom < 32 {
        let d = pow2((32 - (zoom + 1)) as nat);
        lemma_pow2_pos((32 - (zoom + 1)) as nat);
        lemma_pow2_unfold((32 - zoom) as nat);
        lemma_div_denominator(v as int, d as int, 2);
        assert(d * 2 == 2 * d) by (nonlinear_arith);
    } else {
        let d = pow2((zoom - 32) as nat);
        lemma_pow2_unfold((zoom + 1 - 32) as nat);
        assert(pow2((zoom + 1 - 32) as nat) == 2 * d);
        assert(v * (2 * d) == (v * d) * 2) by (nonlinear_arith);
        if zoom == 32 {
            lemma2_to64();
            assert(d == 1);
            assert(v / 1 == v);
            assert(v * 1 == v);
        }
    }
}

/// A tile index at `zoom` is below `2^zoom`.
pub proof fn lemma_tile_range(zoom: nat, v: nat)
    requires
        v < 0x1_0000_0000,
    ensures
        tile_of(zoom, v) < pow2(zoom),
        zoom <= 32 ==> pow2(zoom) <= 0x1_0000_0000,
        zoom <= 31 ==> pow2(zoom) <= 0x8000_0000,
{
    lemma2_to64();
    assert(pow2(32) == 0x1_0000_0000);
    if zoom <= 32 {
        let d = pow2((32 - zoom) as nat);
        lemma_pow2_pos((32 - zoom) as nat);
        vstd::arithmetic::power2::lemma_pow2_adds((32 - zoom) as nat, zoom);
        lemma_multiply_divide_lt(v as int, d as int, pow2(zoom) as int);
        lemma_pow2_pos(zoom);
        assert(pow2(zoom) <= 0x1_0000_0000) by (nonlinear_arith)
            requires
                d * pow2(zoom) == 0x1_0000_0000,
                d >= 1,
                pow2(zoom) >= 1,
        ;
        if zoom <= 31 {
            lemma_pow2_unfold((32 - zoom) as nat);
            lemma_pow2_pos((31 - zoom) as nat);
            assert(pow2(zoom) <= 0x8000_0000) by (nonlinear_arith)
                requires
                    d * pow2(zoom) == 0x1_0000_0000,
                    d >= 2,
                    pow2(zoom) >= 1,
            ;
        }
    } else {
        let d = pow2((zoom - 32) as nat);
        lemma_pow2_pos((zoom - 32) as nat);
        vstd::arithmetic::power2::lemma_pow2_adds(32, (zoom - 32) as nat);
        assert(v * d < 0x1_0000_0000 * d) by (nonlinear_arith)
            requires
                v < 0x1_0000_0000,
                d >= 1,
        ;
    }
}

/// The tiles of positions are in the order of the positions.
pub proof fn lemma_tile_ordered(zoom: nat, a: nat, b: nat)
    requires
        a <= b,
    ensures
        tile_of(zoom, a) <= tile_of(zoom, b),
{
    if zoom <= 32 {
        let d = pow2((32 - zoom) as nat);
        lemma_pow2_pos((32 - zoom) as nat);
        vstd::arithmetic::div_mod::lemma_div_is_ordered(a as int, b as int, d as int);
    } else {
        let d = pow2((zoom - 32) as nat);
        assert(a * d <= b * d) by (nonlinear_arith)
            requires
                a <= b,
                d >= 0,
        ;
    }
}

/// Positions in one tile at a zoom are in one tile at every coarser zoom.
pub proof fn lemma_one_tile_downwards(z1: nat, z2: nat, b: Bounds)
    requires
        z1 <= z2,
        in_one_tile(z2, b),
    ensures
        in_one_tile(z1, b),
    decreases z2 - z1,
{
    if z1 < z2 {
        let z = (z2 - 1) as nat;
        lemma_tile_halves(z, b.lo().0 as nat);
        lemma_tile_halves(z, b.hi().0 as nat);
        lemma_tile_halves(z, b.lo().1 as nat);
        lemma_tile_halves(z, b.hi().1 as nat);
        lemma_one_tile_downwards(z1, z, b);
    }
}

/// The width and height of a tile at `zoom`, in grid cells.
pub fn tile_size(zoom: usize) -> (s: u64)
    requires
        zoom <= GRID_ZOOM,
    ensures
        s == pow2((32 - zoom) as nat),
        1 <= s <= 0x1_0000_0000,
{
    let shift: u64 = (32 - zoom) as u64;
    proof {
        lemma2_to64();
        lemma2_to64_rest();
        lemma_pow2_pos(shift as nat);
        lemma_tile_range(shift as nat, 0);
        vstd::bits::lemma_u64_shl_is_mul(1, shift);
    }
    1u64 << shift
}

/// The tile index of one grid coordinate at a zoom beyond that of the grid.
fn fine_tile_index(zoom: usize, v: u32) -> (t: usize)
    requires
        32 < zoom < usize::BITS,
    ensures
        t == tile_of(zoom as nat, v as nat),
        t < pow2(zoom as nat) <= usize::MAX,
{
    let shift: u64 = (zoom - 32) as u64;
    proof {
        lemma_tile_range(zoom as nat, v as nat);
        lemma_tile_range(shift as nat, 0);
        vstd::bits::lemma_usize_pow2_no_overflow(zoom as nat);
        lemma_pow2_pos(shift as nat);
        assert(v * pow2(shift as nat) <= 0xffff_ffff * 0x8000_0000) by (nonlinear_arith)
            requires
                v <= 0xffff_ffff,
                pow2(shift as nat) <= 0x8000_0000,
        ;
        vstd::bits::lemma_u64_shl_is_mul(v as u64, shift);
    }
    ((v as u64) << shift) as usize
}

/// The tile, at `zoom`, that holds the grid position `pt`.  The zoom may be
/// any at which a tile index fits the machine word.
pub fn tile_index(zoom: usize, pt: GridPoint) -> (t: (usize, usize))
    requires
        zoom < usize::BITS,
    ensures
        t.0 == tile_of(zoom as nat, pt.0 as nat),
        t.1 == tile_of(zoom as nat, pt.1 as nat),
        t.0 < pow2(zoom as nat) <= usize::MAX,
        t.1 < pow2(zoom as nat) <= usize::MAX,
{
    if zoom <= 32 {
        let s = tile_size(zoom);
        proof {
            lemma_tile_range(zoom as nat, pt.0 as nat);
            lemma_tile_range(zoom as nat, pt.1 as nat);
            vstd::bits::lemma_usize_pow2_no_overflow(zoom as nat);
        }
        ((pt.0 as u64 / s) as usize, (pt.1 as u64 / s) as usize)
    } else {
        (fine_tile_index(zoom, pt.0), fine_tile_index(zoom, pt.1))
    }
}

/// The largest zoom, up to `MAX_ZOOM`, at which the whole of `bounds` lies
/// in a single tile: found by probing one zoom after the other until the
/// tiles of the two corners part.
pub fn largest_zoom_containing(bounds: Bounds) -> (z: usize)
    ensures
        z <= MAX_ZOOM,
        forall|k: nat| k <= z ==> in_one_tile(k, bounds),
        forall|k: nat| z < k <= MAX_ZOOM ==> !in_one_tile(k, bounds),
{
    let lo = bounds.min();
    let hi = bounds.max();
    proof {
        lemma_pow2_pos(32);
        lemma2_to64();
        assert(pow2(32) == 0x1_0000_0000);
        vstd::arithmetic::div_mod::lemma_basic_div(lo.0 as int, 0x1_0000_0000);
        vstd::arithmetic::div_mod::lemma_basic_div(lo.1 as int, 0x1_0000_0000);
        vstd::arithmetic::div_mod::lemma_basic_div(hi.0 as int, 0x1_0000_0000);
        vstd::arithmetic::div_mod::lemma_basic_div(hi.1 as int, 0x1_0000_0000);
        assert(in_one_tile(0, bounds));
    }
    let mut zoom: usize = 1;
    while zoom <= MAX_ZOOM
        invariant
            1 <= zoom <= MAX_ZOOM + 1,
            lo == bounds.lo(),
            hi == bounds.hi(),
            in_one_tile((zoom - 1) as nat, bounds),
        decreases MAX_ZOOM + 1 - zoom,
    {
        let (l, t) = tile_index(zoom, lo);
        let (r, b) = tile_index(zoom, hi);
        if l != r || t != b {
            proof {
                assert(!in_one_tile(zoom as nat, bounds));
                assert forall|k: nat| k <= zoom - 1 implies in_one_tile(k, bounds) by {
                    lemma_one_tile_downwards(k, (zoom - 1) as nat, bounds);
                }
                assert forall|k: nat| zoom - 1 < k <= MAX_ZOOM implies !in_one_tile(k, bounds) by {
                    if in_one_tile(k, bounds) {
                        lemma_one_tile_downwards(zoom as nat, k, bounds);
                    }
                }
            }
            return zoom - 1;
        }
        zoom += 1;
    }
    proof {
        assert forall|k: nat| k <= MAX_ZOOM implies in_one_tile(k, bounds) by {
            lemma_one_tile_downwards(k, MAX_ZOOM as nat, bounds);
        }
    }
    MAX_ZOOM
}

/// Whether a tile pixel at `zoom` is no larger than a source pixel, for
/// tiles of `tile_res` pixels and a source whose `pixels` pixels span
/// `extent` grid cells.
pub open spec fn fine_enough(zoom: nat, extent: nat, pixels: nat, tile_res: nat) -> bool {
    pow2((32 - zoom) as nat) * pixels <= extent * tile_res
}

/// The smallest zoom, up to `MAX_ZOOM`, at which a tile pixel is no larger
/// than a source pixel, or `MAX_ZOOM` if there is none: the rounded-up
/// binary logarithm of the ratio of the tile pixel size at zoom 0 to the
/// source pixel size.
pub fn zoom_for_resolution(extent: u32, pixels: usize, tile_res: usize) -> (z: usize)
    ensures
        z <= MAX_ZOOM,
        forall|k: nat| k < z ==> !fine_enough(k, extent as nat, pixels as nat, tile_res as nat),
        z < MAX_ZOOM ==> fine_enough(z as nat, extent as nat, pixels as nat, tile_res as nat),
{
    assert(extent * tile_res <= 0xffff_ffff * 0xffff_ffff_ffff_ffff) by (nonlinear_arith)
        requires
            extent <= 0xffff_ffff,
            tile_res <= 0xffff_ffff_ffff_ffff,
    ;
    let need: u128 = extent as u128 * tile_res as u128;
    let mut zoom: usize = 0;
    while zoom < MAX_ZOOM
        invariant
            zoom <= MAX_ZOOM,
            need == extent * tile_res,
            forall|k: nat| k < zoom ==> !fine_enough(k, extent as nat, pixels as nat, tile_res as nat),
        decreases MAX_ZOOM - zoom,
    {
        let s = tile_size(zoom);
        assert(s * pixels <= 0x1_0000_0000 * 0xffff_ffff_ffff_ffff) by (nonlinear_arith)
            requires
                s <= 0x1_0000_0000,
                pixels <= 0xffff_ffff_ffff_ffff,
        ;
        if s as u128 * pixels as u128 <= need {
            return zoom;
        }
        zoom += 1;
    }
    MAX_ZOOM
}

/// The largest zoom, up to `MAX_ZOOM`, at which a tile pixel is still at
/// least as large as a source pixel, or 0 if there is none: the rounded-down
/// binary logarithm of the same ratio.
pub fn largest_zoom_greater_than(extent: u32, pixels: usize, tile_res: usize) -> (z: usize)
    ensures
        z <= MAX_ZOOM,
        forall|k: nat| z < k <= MAX_ZOOM ==> !coarse_enough(k, extent as nat, pixels as nat, tile_res as nat),
        z > 0 ==> coarse_enough(z as nat, extent as nat, pixels as nat, tile_res as nat),
{
    assert(extent * tile_res <= 0xffff_ffff * 0xffff_ffff_ffff_ffff) by (nonlinear_arith)
        requires
            extent <= 0xffff_ffff,
            tile_res <= 0xffff_ffff_ffff_ffff,
    ;
    let need: u128 = extent as u128 * tile_res as u128;
    let mut zoom: usize = MAX_ZOOM;
    while zoom > 0
        invariant
            zoom <= MAX_ZOOM,
            need == extent * tile_res,
            forall|k: nat|
                zoom < k <= MAX_ZOOM ==> !coarse_enough(
                    k,
                    extent as nat,
                    pixels as nat,
                    tile_res as nat,
                ),
        decreases zoom,
    {
        let s = tile_size(zoom);
        assert(s * pixels <= 0x1_0000_0000 * 0xffff_ffff_ffff_ffff) by (nonlinear_arith)
            requires
                s <= 0x1_0000_0000,
                pixels <= 0xffff_ffff_ffff_ffff,
        ;
        if s as u128 * pixels as u128 >= need {
            return zoom;
        }
        zoom -= 1;
    }
    0
}

/// Whether a tile pixel at `zoom` is at least as large as a source pixel.
pub open spec fn coarse_enough(zoom: nat, extent: nat, pixels: nat, tile_res: nat) -> bool {
    pow2((32 - zoom) as nat) * pixels >= extent * tile_res
}

} // verus!
