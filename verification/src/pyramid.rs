//! The levels of a pyramid of halved rasters, and which blocks of one
//! level make up a block of the next.

use crate::grid::Grid;
use vstd::prelude::*;

verus! {

/// The number of levels needed to halve `num` down to 1, rounding up at
/// each halving: 1 for `num <= 1`.
pub open spec fn levels_of(num: nat) -> nat
    decreases num,
{
    if num <= 1 {
        1
    } else {
        1 + levels_of((num + 1) / 2)
    }
}

/// The number of levels of a pyramid over `num` cells.
pub fn num_levels(num: usize) -> (count: usize)
    ensures
        count == levels_of(num as nat),
        1 <= count <= 65,
{
    let mut num = num;
    let mut count: usize = 1;
    let ghost start = num;
    let mut bound: usize = 64;
    proof {
        vstd::arithmetic::power2::lemma2_to64();
        vstd::arithmetic::power2::lemma2_to64_rest();
        lemma_levels_bound(num as nat, 64);
    }
    while num > 1
        invariant
            count + levels_of(num as nat) == 1 + levels_of(start as nat),
            count + bound == 65,
            bound <= 64,
            num <= vstd::arithmetic::power2::pow2(bound as nat),
            levels_of(num as nat) <= bound + 1,
        decreases num,
    {
        proof {
            vstd::arithmetic::power2::lemma2_to64();
            if bound > 0 {
                vstd::arithmetic::power2::lemma_pow2_unfold(bound as nat);
            }
        }
        num = num / 2 + num % 2;
        count += 1;
        bound -= 1;
        proof {
            lemma_levels_bound(num as nat, bound as nat);
        }
    }
    count
}

/// Halving down from at most `2^k` takes at most `k + 1` levels.
pub proof fn lemma_levels_bound(num: nat, k: nat)
    requires
        num <= vstd::arithmetic::power2::pow2(k),
    ensures
        levels_of(num) <= k + 1,
    decreases k,
{
    if num > 1 {
        if k == 0 {
            vstd::arithmetic::power2::lemma2_to64();
        } else {
            vstd::arithmetic::power2::lemma_pow2_unfold(k);
            lemma_levels_bound((num + 1) / 2, (k - 1) as nat);
        }
    }
}

/// `n` halved `k` times, rounding up each time.
pub open spec fn halved(n: nat, k: nat) -> nat
    decreases k,
{
    if k == 0 {
        n
    } else {
        (halved(n, (k - 1) as nat) + 1) / 2
    }
}

/// For each level the number of chunks and the width of the raster at that
/// level: both are halved, rounding up, from one level to the next.
pub fn levels_data(num_levels: usize, width: usize, num_chunks: usize) -> (out: Vec<(usize, usize)>)
    ensures
        out.len() == num_levels,
        forall|k: int|
            0 <= k < num_levels ==> (#[trigger] out[k]).0 == halved(num_chunks as nat, k as nat)
                && out[k].1 == halved(width as nat, k as nat),
{
    let mut out: Vec<(usize, usize)> = Vec::new();
    let mut width = width;
    let mut num_chunks = num_chunks;
    let ghost w0 = width;
    let ghost n0 = num_chunks;
    let mut i: usize = 0;
    while i < num_levels
        invariant
            i <= num_levels,
            out.len() == i,
            width == halved(w0 as nat, i as nat),
            num_chunks == halved(n0 as nat, i as nat),
            forall|k: int|
                0 <= k < i ==> (#[trigger] out[k]).0 == halved(n0 as nat, k as nat) && out[k].1
                    == halved(w0 as nat, k as nat),
        decreases num_levels - i,
    {
        out.push((num_chunks, width));
        width = width / 2 + width % 2;
        num_chunks = num_chunks / 2 + num_chunks % 2;
        i += 1;
    }
    out
}

/// What a block of a level is made of.
#[derive(Clone, Copy, Debug, PartialEq, Eq, Structural)]
pub enum BlockPlan {
    /// A block of the base level: the rows to read from the raster, the
    /// first row and how many.
    Read { y: usize, rows: usize },
    /// A block above the base: the one block of the level below that is
    /// left to carry it.
    One { below: usize },
    /// A block above the base: the two blocks of the level below, this one
    /// and the next, stacked.
    Two { below: usize },
}

/// What block `idx` of `level` is made of.  Blocks of the base level are
/// `y_offset` rows high, the last one what is left of the `raster_height`
/// rows.  A block above is made of blocks `2 * idx` and `2 * idx + 1` of
/// the level below, or of the first alone where the second does not exist.
pub open spec fn block_plan(
    levels: Seq<(usize, usize)>,
    level: int,
    idx: int,
    y_offset: int,
    raster_height: int,
) -> BlockPlan {
    if level == 0 {
        let y = y_offset * idx;
        BlockPlan::Read {
            y: y as usize,
            rows: (if y + y_offset > raster_height {
                raster_height - y
            } else {
                y_offset
            }) as usize,
        }
    } else if levels[level - 1].0 > 2 * idx + 1 {
        BlockPlan::Two { below: (2 * idx) as usize }
    } else {
        BlockPlan::One { below: (2 * idx) as usize }
    }
}

/// What block `idx` of `level` is made of; `None` where the block lies
/// beyond the raster or the level beyond the pyramid.
pub fn plan_block(
    levels: &Vec<(usize, usize)>,
    level: usize,
    idx: usize,
    y_offset: usize,
    raster_height: usize,
) -> (plan: Option<BlockPlan>)
    ensures
        plan is Some <==> level < levels.len() && (if level == 0 {
            y_offset * idx <= raster_height
        } else {
            2 * idx + 1 <= usize::MAX
        }),
        plan matches Some(p) ==> p == block_plan(
            levels@,
            level as int,
            idx as int,
            y_offset as int,
            raster_height as int,
        ),
{
    if level >= levels.len() {
        return None;
    }
    if level == 0 {
        let y = match y_offset.checked_mul(idx) {
            Some(y) => y,
            None => {
                return None;
            },
        };
        if y > raster_height {
            return None;
        }
        let rows = if raster_height - y < y_offset { raster_height - y } else { y_offset };
        Some(BlockPlan::Read { y, rows })
    } else {
        if idx > (usize::MAX - 1) / 2 {
            return None;
        }
        let below = 2 * idx;
        if levels[level - 1].0 > below + 1 {
            Some(BlockPlan::Two { below })
        } else {
            Some(BlockPlan::One { below })
        }
    }
}

/// What goes into cell `(i, j)` of a raster halved in both directions: the
/// cell of the 2x2 block at `(2i, 2j)` and those of its three neighbours
/// that exist.
pub open spec fn is_halved_cell<C, F: Fn(C, Option<C>, Option<C>, Option<C>) -> C>(
    data: Grid<C>,
    combine: &F,
    i: int,
    j: int,
    v: C,
) -> bool {
    let r = 2 * i;
    let c = 2 * j;
    let down = r + 1 < data.nrows();
    let right = c + 1 < data.ncols();
    combine.ensures(
        (
            data.at(r, c),
            if down {
                Some(data.at(r + 1, c))
            } else {
                None
            },
            if right {
                Some(data.at(r, c + 1))
            } else {
                None
            },
            if down && right {
                Some(data.at(r + 1, c + 1))
            } else {
                None
            },
        ),
        v,
    )
}

/// A raster halved in both directions, rounding up: each cell is `combine`
/// of the cell at twice its index and of that cell's lower, right and
/// lower-right neighbours, as far as the raster has them.
pub fn scaled_by_2<C: Copy, F: Fn(C, Option<C>, Option<C>, Option<C>) -> C>(
    data: &Grid<C>,
    combine: &F,
) -> (out: Grid<C>)
    requires
        forall|a: C, b: Option<C>, c: Option<C>, d: Option<C>| combine.requires((a, b, c, d)),
    ensures
        out.nrows() == (data.nrows() + 1) / 2,
        out.ncols() == (data.ncols() + 1) / 2,
        forall|i: int, j: int|
            0 <= i < out.nrows() && 0 <= j < out.ncols() ==> is_halved_cell(
                *data,
                combine,
                i,
                j,
                #[trigger] out.at(i, j),
            ),
{
    let (dim1, dim2) = data.dim();
    let odim1 = dim1 / 2 + dim1 % 2;
    let odim2 = dim2 / 2 + dim2 % 2;
    if odim1 == 0 || odim2 == 0 {
        proof {
            assert(odim1 * odim2 == 0) by (nonlinear_arith)
                requires
                    odim1 == 0 || odim2 == 0,
            ;
        }
        return Grid::from_elem_or_empty(odim1, odim2, None);
    }
    proof {
        assert(odim1 * odim2 <= dim1 * dim2) by (nonlinear_arith)
            requires
                0 <= odim1 <= dim1,
                0 <= odim2 <= dim2,
        ;
    }
    let seed = data.get(0, 0);
    let mut out: Grid<C> = Grid::from_elem(odim1, odim2, seed);
    let mut i: usize = 0;
    while i < odim1
        invariant
            i <= odim1,
            dim1 == data.nrows(),
            dim2 == data.ncols(),
            odim1 == (dim1 + 1) / 2,
            odim2 == (dim2 + 1) / 2,
            out.nrows() == odim1,
            out.ncols() == odim2,
            forall|a: C, b: Option<C>, c: Option<C>, d: Option<C>| combine.requires((a, b, c, d)),
            forall|p: int, q: int|
                0 <= p < i && 0 <= q < odim2 ==> is_halved_cell(
                    *data,
                    combine,
                    p,
                    q,
                    #[trigger] out.at(p, q),
                ),
        decreases odim1 - i,
    {
        let mut j: usize = 0;
        while j < odim2
            invariant
                i < odim1,
                j <= odim2,
                dim1 == data.nrows(),
                dim2 == data.ncols(),
                odim1 == (dim1 + 1) / 2,
                odim2 == (dim2 + 1) / 2,
                out.nrows() == odim1,
                out.ncols() == odim2,
                forall|a: C, b: Option<C>, c: Option<C>, d: Option<C>|
                    combine.requires((a, b, c, d)),
                forall|p: int, q: int|
                    (0 <= p < i && 0 <= q < odim2) || (p == i && 0 <= q < j) ==> is_halved_cell(
                        *data,
                        combine,
                        p,
                        q,
                        #[trigger] out.at(p, q),
                    ),
            decreases odim2 - j,
        {
            let r = 2 * i;
            let c = 2 * j;
            let down = r + 1 < dim1;
            let right = c + 1 < dim2;
            let below = if down { Some(data.get(r + 1, c)) } else { None };
            let beside = if right { Some(data.get(r, c + 1)) } else { None };
            let across = if down && right { Some(data.get(r + 1, c + 1)) } else { None };
            let v = combine(data.get(r, c), below, beside, across);
            out.set(i, j, v);
            j += 1;
        }
        i += 1;
    }
    out
}

} // verus!
