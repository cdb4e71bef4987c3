//! Tiles of samples, rows of tiles, and the quad-merge that halves their
//! resolution.

use crate::grid::Grid;
use crate::tiling::samples::{
    checked_average,
    finish,
    is_checked_average,
    is_finished,
    is_level,
    is_widened,
    level_of,
    widen,
};
use crate::tiling::DataInvariantError;
use vstd::prelude::*;

verus! {

/// One tile: an array of samples and its `(x, y)` tile index.
pub struct Tile<C> {
    data: Grid<C>,
    coords: (usize, usize),
}

/// What a tile is, without how it is stored: its tile index, its size and
/// its samples row by row.
pub struct TileView<C> {
    pub x: nat,
    pub y: nat,
    pub rows: nat,
    pub cols: nat,
    pub cells: Seq<Seq<C>>,
}

impl<C> TileView<C> {
    /// There are `rows` rows of `cols` samples each.
    pub open spec fn wf(self) -> bool {
        &&& self.cells.len() == self.rows
        &&& forall|r: int| 0 <= r < self.rows ==> (#[trigger] self.cells[r]).len() == self.cols
    }

    /// The sample in row `r`, column `c`.
    pub open spec fn at(self, r: int, c: int) -> C {
        self.cells[r][c]
    }

    /// `accs` are the values that pass through `f` when it is handed the
    /// samples row by row: one before each sample and one after the last,
    /// each what `f` made of the one before and the sample between them.
    pub open spec fn folds_through<A, F: Fn(A, C) -> A>(self, f: &F, accs: Seq<A>) -> bool {
        &&& accs.len() == self.rows * self.cols + 1
        &&& forall|r: int, c: int|
            0 <= r < self.rows && 0 <= c < self.cols ==> f.ensures(
                (accs[r * self.cols + c], self.at(r, c)),
                #[trigger] accs[r * self.cols + c + 1],
            )
    }
}

/// Tiles of one place and size with the same samples are the same tile.
pub proof fn lemma_tile_view_ext<C>(a: TileView<C>, b: TileView<C>)
    requires
        a.wf(),
        b.wf(),
        a.x == b.x,
        a.y == b.y,
        a.rows == b.rows,
        a.cols == b.cols,
        forall|r: int, c: int| 0 <= r < a.rows && 0 <= c < a.cols ==> a.at(r, c) == b.at(r, c),
    ensures
        a == b,
{
    assert forall|r: int| 0 <= r < a.rows implies a.cells[r] == b.cells[r] by {
        assert forall|c: int| 0 <= c < a.cols implies a.cells[r][c] == b.cells[r][c] by {
            assert(a.at(r, c) == b.at(r, c));
        }
        assert(a.cells[r] =~= b.cells[r]);
    }
    assert(a.cells =~= b.cells);
}

/// Where output cell `(r, c)` of a quad-merge reads from: the corner
/// (`0` top-left, `1` top-right, `2` bottom-left, `3` bottom-right) and the
/// top-left cell of the 2x2 block inside that corner.
pub open spec fn quad_source(rows: int, cols: int, r: int, c: int) -> (int, int, int) {
    (
        (if 2 * r >= rows { 2int } else { 0int }) + (if 2 * c >= cols { 1int } else { 0int }),
        (2 * r) % rows,
        (2 * c) % cols,
    )
}

/// With `rows` even, doubling a row index wraps around exactly once past the
/// middle: the first half reads corner rows `0, 2, ..`, the second half the
/// same rows of the corner below.
pub proof fn lemma_doubled_index(n: int, r: int)
    requires
        0 <= r < n,
        n % 2 == 0,
    ensures
        2 * r >= n <==> r >= n / 2,
        (2 * r) % n == (if r >= n / 2 {
            2 * (r - n / 2)
        } else {
            2 * r
        }),
        0 <= (2 * r) % n,
        (2 * r) % n + 1 < n,
{
    if 2 * r >= n {
        assert(2 * r == 1 * n + (2 * r - n));
        vstd::arithmetic::div_mod::lemma_fundamental_div_mod_converse(2 * r, n, 1, 2 * r - n);
    } else {
        assert(2 * r == 0 * n + 2 * r);
        vstd::arithmetic::div_mod::lemma_fundamental_div_mod_converse(2 * r, n, 0, 2 * r);
    }
}

/// The four corners of a 2x2 block as values: top-left, top-right,
/// bottom-left, bottom-right.
pub open spec fn corner_seq<C>(corners: [Option<&Tile<C>>; 4]) -> Seq<Option<TileView<C>>> {
    Seq::new(
        4,
        |k: int|
            match corners[k] {
                Some(t) => Some(t@),
                None => None,
            },
    )
}

/// The first corner that is present, or 4 when none is.
pub open spec fn first_present<C>(corners: Seq<Option<TileView<C>>>) -> int {
    if corners[0] is Some {
        0
    } else if corners[1] is Some {
        1
    } else if corners[2] is Some {
        2
    } else if corners[3] is Some {
        3
    } else {
        4
    }
}

/// All present corners are well formed and have `rows x cols` cells.
pub open spec fn corners_match<C>(corners: Seq<Option<TileView<C>>>, rows: int, cols: int) -> bool {
    forall|k: int|
        0 <= k < 4 ==> (#[trigger] corners[k] matches Some(t) ==> t.wf() && t.rows == rows
            && t.cols == cols)
}

/// The corners a quad-merge accepts: at least one is present, and all that
/// are present are well formed and share one size with even sides.
pub open spec fn can_quad_merge<C>(corners: Seq<Option<TileView<C>>>) -> bool {
    let lead = corners[first_present(corners)]->0;
    &&& corners.len() == 4
    &&& first_present(corners) < 4
    &&& corners_match(corners, lead.rows as int, lead.cols as int)
    &&& lead.rows % 2 == 0
    &&& lead.cols % 2 == 0
}

/// `v` is what a quad-merge may put into output cell `(r, c)`: `absent`
/// where the corner is missing, else a result of `average` on the 2x2 block.
pub open spec fn is_quad_cell<C, F: Fn(C, C, C, C) -> C>(
    corners: Seq<Option<TileView<C>>>,
    absent: C,
    average: &F,
    rows: int,
    cols: int,
    r: int,
    c: int,
    v: C,
) -> bool {
    let (k, sr, sc) = quad_source(rows, cols, r, c);
    match corners[k] {
        None => v == absent,
        Some(t) => average.ensures(
            (t.at(sr, sc), t.at(sr + 1, sc), t.at(sr, sc + 1), t.at(sr + 1, sc + 1)),
            v,
        ),
    }
}

/// `out` is a quad-merge of `corners`: same size as the corners, at half
/// their tile index, every cell filled as `is_quad_cell` says.
pub open spec fn is_quad_merge<C, F: Fn(C, C, C, C) -> C>(
    corners: Seq<Option<TileView<C>>>,
    absent: C,
    average: &F,
    out: TileView<C>,
) -> bool {
    let lead = corners[first_present(corners)]->0;
    &&& out.wf()
    &&& out.rows == lead.rows
    &&& out.cols == lead.cols
    &&& out.x == lead.x / 2
    &&& out.y == lead.y / 2
    &&& forall|r: int, c: int|
        0 <= r < out.rows && 0 <= c < out.cols ==> is_quad_cell(
            corners,
            absent,
            average,
            out.rows as int,
            out.cols as int,
            r,
            c,
            #[trigger] out.at(r, c),
        )
}

impl<C> View for Tile<C> {
    type V = TileView<C>;

    closed spec fn view(&self) -> TileView<C> {
        TileView {
            x: self.coords.0 as nat,
            y: self.coords.1 as nat,
            rows: self.data.nrows(),
            cols: self.data.ncols(),
            cells: self.data@,
        }
    }
}

impl<C> Tile<C> {
    /// The view of a tile is well formed.
    pub proof fn lemma_view_wf(&self)
        ensures
            self@.wf(),
    {
        self.data.lemma_view_shape();
    }

    /// A tile from its samples and tile index.
    pub fn new(data: Grid<C>, coords: (usize, usize)) -> (t: Self)
        ensures
            t@.wf(),
            t@.x == coords.0,
            t@.y == coords.1,
            t@.rows == data.nrows(),
            t@.cols == data.ncols(),
            t@.cells == data@,
    {
        proof {
            data.lemma_view_shape();
        }
        Tile { data, coords }
    }

    /// The `(x, y)` tile index.
    pub fn coords(&self) -> (p: (usize, usize))
        ensures
            p.0 == self@.x,
            p.1 == self@.y,
    {
        self.coords
    }

    /// The samples.
    pub fn data(&self) -> (g: &Grid<C>)
        ensures
            g@ == self@.cells,
            g.nrows() == self@.rows,
            g.ncols() == self@.cols,
    {
        &self.data
    }
}

impl<C: Copy> Tile<C> {
    /// Finishes a tile under construction: every cell of `data` goes through
    /// `finalize`, which turns an accumulated aggregate into a sample.
    pub fn from_aggregate<A: Copy, F: Fn(A) -> C>(
        data: &Grid<A>,
        coords: (usize, usize),
        finalize: &F,
    ) -> (t: Self)
        requires
            forall|a: A| finalize.requires((a,)),
        ensures
            t@.wf(),
            t@.rows == data.nrows(),
            t@.cols == data.ncols(),
            t@.x == coords.0,
            t@.y == coords.1,
            forall|r: int, c: int|
                0 <= r < data.nrows() && 0 <= c < data.ncols() ==> finalize.ensures(
                    (data.at(r, c),),
                    #[trigger] t@.at(r, c),
                ),
    {
        let g = data.map(finalize);
        proof {
            g.lemma_view_shape();
            assert forall|r: int, c: int|
                0 <= r < data.nrows() && 0 <= c < data.ncols() implies finalize.ensures(
                (data.at(r, c),),
                #[trigger] g@[r][c],
            ) by {
                assert(g.at(r, c) == g@[r][c]);
            }
        }
        Tile { data: g, coords }
    }

    /// What the samples of the tile fold to: `widen` is handed the samples
    /// row by row, each with what it made of the samples before, starting
    /// from `init`.  With a `widen` that keeps the least and the greatest
    /// sample seen, this is the range of values of the tile.
    pub fn value_range<R, G: Fn(R, C) -> R>(&self, init: R, widen: &G) -> (range: R)
        requires
            forall|r: R, c: C| widen.requires((r, c)),
        ensures
            exists|accs: Seq<R>| #[trigger]
                self@.folds_through(widen, accs) && accs[0] == init && accs.last() == range,
    {
        let range = self.data.fold(init, widen);
        proof {
            let accs = choose|accs: Seq<R>| #[trigger]
                self.data.folds_through(widen, accs) && accs[0] == init && accs.last() == range;
            assert forall|r: int, c: int| 0 <= r < self@.rows && 0 <= c < self@.cols implies widen.ensures(
                (accs[r * self@.cols + c], self@.at(r, c)),
                #[trigger] accs[r * self@.cols + c + 1],
            ) by {
                assert(self.data.at(r, c) == self@.at(r, c));
            }
            assert(self@.folds_through(widen, accs));
        }
        range
    }

    /// The body of the file of the tile: the codes of its samples, row by
    /// row, two bytes each, the most significant first.  `quantize` gives
    /// the level of a sample, or none for a sample without data, which is
    /// written as code 0; a level is written one higher.
    pub fn to_bytes<Q: Fn(C) -> Option<u16>>(&self, quantize: &Q) -> (bytes: Vec<u8>)
        requires
            forall|c: C| quantize.requires((c,)),
        ensures
            bytes.len() == 2 * (self@.rows * self@.cols),
            exists|levels: Seq<Option<u16>>|
                {
                    &&& levels.len() == self@.rows * self@.cols
                    &&& forall|r: int, c: int|
                        0 <= r < self@.rows && 0 <= c < self@.cols ==> quantize.ensures(
                            (self@.at(r, c),),
                            #[trigger] levels[r * self@.cols + c],
                        )
                    &&& bytes@ == crate::tiling::codec::encoded(levels)
                },
    {
        let levels = self.data.map(quantize);
        let ghost grid = levels;
        let cells = levels.into_vec();
        proof {
            assert forall|r: int, c: int| 0 <= r < self@.rows && 0 <= c < self@.cols implies quantize.ensures(
                (self@.at(r, c),),
                #[trigger] cells@[r * self@.cols + c],
            ) by {
                assert(grid.at(r, c) == cells@[r * self@.cols + c]);
                assert(self.data.at(r, c) == self@.at(r, c));
            }
        }
        crate::tiling::codec::encode(&cells)
    }

    /// Quad-merge: combines up to four tiles of a 2x2 block into one tile of
    /// the same size at half the resolution.
    ///
    /// Output cell `(r, c)` is `average` applied to the 2x2 block of samples
    /// at `(2r mod rows, 2c mod cols)` of the corner that `quad_source`
    /// names, in the order top-left, bottom-left, top-right, bottom-right;
    /// it is `absent` where that corner is missing.  The tile index is that
    /// of the first present corner, halved.
    pub fn scale_4_to_1<F: Fn(C, C, C, C) -> C>(
        corners: [Option<&Tile<C>>; 4],
        absent: C,
        average: &F,
    ) -> (out: Tile<C>)
        requires
            can_quad_merge(corner_seq(corners)),
            forall|a: C, b: C, c: C, d: C| average.requires((a, b, c, d)),
        ensures
            is_quad_merge(corner_seq(corners), absent, average, out@),
    {
        let ghost cs = corner_seq(corners);
        assert(forall|k: int| 0 <= k < 4 ==> (#[trigger] cs[k] is Some) == (corners[k] is Some));
        let lead: &Tile<C> = match corners[0] {
            Some(t) => t,
            None => match corners[1] {
                Some(t) => t,
                None => match corners[2] {
                    Some(t) => t,
                    None => match corners[3] {
                        Some(t) => t,
                        None => {
                            proof {
                                assert(false);
                            }
                            return Tile { data: Grid::from_elem(0, 0, absent), coords: (0, 0) };
                        },
                    },
                },
            },
        };
        assert(lead@ == cs[first_present(cs)]->0);
        let (x, y) = lead.coords;
        let (rows, cols) = lead.data.dim();
        let mut data: Grid<C> = Grid::from_elem(rows, cols, absent);
        let mut r: usize = 0;
        while r < rows
            invariant
                r <= rows,
                rows % 2 == 0,
                cols % 2 == 0,
                cs == corner_seq(corners),
                corners_match(cs, rows as int, cols as int),
                data.nrows() == rows,
                data.ncols() == cols,
                forall|a: C, b: C, c: C, d: C| average.requires((a, b, c, d)),
                forall|i: int, j: int|
                    0 <= i < r && 0 <= j < cols ==> is_quad_cell(
                        cs,
                        absent,
                        average,
                        rows as int,
                        cols as int,
                        i,
                        j,
                        #[trigger] data.at(i, j),
                    ),
            decreases rows - r,
        {
            let mut c: usize = 0;
            while c < cols
                invariant
                    r < rows,
                    c <= cols,
                    rows % 2 == 0,
                    cols % 2 == 0,
                    cs == corner_seq(corners),
                    corners_match(cs, rows as int, cols as int),
                    data.nrows() == rows,
                    data.ncols() == cols,
                    forall|a: C, b: C, c: C, d: C| average.requires((a, b, c, d)),
                    forall|i: int, j: int|
                        (0 <= i < r && 0 <= j < cols) || (i == r && 0 <= j < c) ==> is_quad_cell(
                            cs,
                            absent,
                            average,
                            rows as int,
                            cols as int,
                            i,
                            j,
                            #[trigger] data.at(i, j),
                        ),
                decreases cols - c,
            {
                let mut sidx: usize = 0;
                let mut sr: usize = r;
                let mut sc: usize = c;
                if r >= rows / 2 {
                    sidx += 2;
                    sr = r - rows / 2;
                }
                if c >= cols / 2 {
                    sidx += 1;
                    sc = c - cols / 2;
                }
                proof {
                    lemma_doubled_index(rows as int, r as int);
                    lemma_doubled_index(cols as int, c as int);
                }
                let sr: usize = 2 * sr;
                let sc: usize = 2 * sc;
                assert((sidx as int, sr as int, sc as int) == quad_source(
                    rows as int,
                    cols as int,
                    r as int,
                    c as int,
                ));
                assert(cs[sidx as int] is Some ==> cs[sidx as int]->0 == (corners[sidx as int]->0)@);
                let val = match corners[sidx] {
                    Some(tile) => average(
                        tile.data.get(sr, sc),
                        tile.data.get(sr + 1, sc),
                        tile.data.get(sr, sc + 1),
                        tile.data.get(sr + 1, sc + 1),
                    ),
                    None => absent,
                };
                data.set(r, c, val);
                c += 1;
            }
            r += 1;
        }
        let out = Tile { data, coords: (x / 2, y / 2) };
        proof {
            data.lemma_view_shape();
            assert forall|i: int, j: int| 0 <= i < out@.rows && 0 <= j < out@.cols implies is_quad_cell(
                cs,
                absent,
                average,
                out@.rows as int,
                out@.cols as int,
                i,
                j,
                #[trigger] out@.at(i, j),
            ) by {
                assert(out@.at(i, j) == data.at(i, j));
            }
        }
        out
    }
}

impl<C: Copy> Tile<C> {
    /// Quad-merge of corners that are checked first: as `scale_4_to_1`
    /// where the corners can be merged, and else the reason why not.
    pub fn quad_merge<F: Fn(C, C, C, C) -> C>(
        corners: [Option<&Tile<C>>; 4],
        absent: C,
        average: &F,
    ) -> (res: Result<Tile<C>, DataInvariantError>)
        requires
            forall|a: C, b: C, c: C, d: C| average.requires((a, b, c, d)),
        ensures
            first_present(corner_seq(corners)) == 4 ==> res == Err::<Tile<C>, DataInvariantError>(
                DataInvariantError::NoCorner,
            ),
            first_present(corner_seq(corners)) < 4 && !can_quad_merge(corner_seq(corners)) ==> res
                == Err::<Tile<C>, DataInvariantError>(DataInvariantError::ShapeMismatch),
            res matches Ok(out) ==> can_quad_merge(corner_seq(corners)) && is_quad_merge(
                corner_seq(corners),
                absent,
                average,
                out@,
            ),
            can_quad_merge(corner_seq(corners)) ==> res is Ok,
    {
        let ghost cs = corner_seq(corners);
        assert(forall|k: int| 0 <= k < 4 ==> (#[trigger] cs[k] is Some) == (corners[k] is Some));
        let lead: &Tile<C> = match corners[0] {
            Some(t) => t,
            None => match corners[1] {
                Some(t) => t,
                None => match corners[2] {
                    Some(t) => t,
                    None => match corners[3] {
                        Some(t) => t,
                        None => {
                            return Err(DataInvariantError::NoCorner);
                        },
                    },
                },
            },
        };
        assert(lead@ == cs[first_present(cs)]->0);
        let (rows, cols) = lead.data.dim();
        if rows % 2 != 0 || cols % 2 != 0 {
            return Err(DataInvariantError::ShapeMismatch);
        }
        let mut k: usize = 0;
        while k < 4
            invariant
                k <= 4,
                cs == corner_seq(corners),
                rows == cs[first_present(cs)]->0.rows,
                cols == cs[first_present(cs)]->0.cols,
                forall|i: int|
                    0 <= i < k ==> (#[trigger] cs[i] matches Some(t) ==> t.wf() && t.rows == rows
                        && t.cols == cols),
            decreases 4 - k,
        {
            match corners[k] {
                Some(t) => {
                    let (r, c) = t.data.dim();
                    proof {
                        t.lemma_view_wf();
                        assert(cs[k as int] == Some(t@));
                    }
                    if r != rows || c != cols {
                        return Err(DataInvariantError::ShapeMismatch);
                    }
                },
                None => {
                    assert(cs[k as int] is None);
                },
            }
            k += 1;
        }
        Ok(Tile::scale_4_to_1(corners, absent, average))
    }
}

/// Four samples in a row.
pub open spec fn four<C>(a: C, b: C, c: C, d: C) -> Seq<C> {
    seq![a, b, c, d]
}

/// The four samples of the 2x2 block under output cell `(r, c)` of a
/// quad-merge, in the order in which they are averaged: upper left, lower
/// left, upper right, lower right.  None where the corner of the cell is
/// missing.
pub open spec fn quad_block<C>(corners: Seq<Option<TileView<C>>>, rows: int, cols: int, r: int, c: int) -> Option<
    Seq<C>,
> {
    let (k, sr, sc) = quad_source(rows, cols, r, c);
    match corners[k] {
        None => None,
        Some(t) => Some(four(t.at(sr, sc), t.at(sr + 1, sc), t.at(sr, sc + 1), t.at(sr + 1, sc + 1))),
    }
}

/// `v` is what a quad-merge by means puts into output cell `(r, c)`: the
/// mean of the samples with data of its 2x2 block, and `absent` where the
/// block has none or its corner is missing.
pub open spec fn is_mean_cell<C, N: Fn(C) -> bool, A: Fn(C, C) -> C, D: Fn(C, usize) -> C>(
    corners: Seq<Option<TileView<C>>>,
    absent: C,
    zero: C,
    is_absent: &N,
    plus: &A,
    divide: &D,
    rows: int,
    cols: int,
    r: int,
    c: int,
    v: C,
) -> bool {
    match quad_block(corners, rows, cols, r, c) {
        None => v == absent,
        Some(block) => exists|flags: Seq<bool>, sums: Seq<C>| #[trigger]
            is_checked_average(block, absent, zero, is_absent, plus, divide, flags, sums, v),
    }
}

/// `out` is the quad-merge of `corners` by means: same size as the corners,
/// at half their tile index, every cell filled as `is_mean_cell` says.
pub open spec fn is_mean_merge<C, N: Fn(C) -> bool, A: Fn(C, C) -> C, D: Fn(C, usize) -> C>(
    corners: Seq<Option<TileView<C>>>,
    absent: C,
    zero: C,
    is_absent: &N,
    plus: &A,
    divide: &D,
    out: TileView<C>,
) -> bool {
    let lead = corners[first_present(corners)]->0;
    &&& out.wf()
    &&& out.rows == lead.rows
    &&& out.cols == lead.cols
    &&& out.x == lead.x / 2
    &&& out.y == lead.y / 2
    &&& forall|r: int, c: int|
        0 <= r < out.rows && 0 <= c < out.cols ==> is_mean_cell(
            corners,
            absent,
            zero,
            is_absent,
            plus,
            divide,
            out.rows as int,
            out.cols as int,
            r,
            c,
            #[trigger] out.at(r, c),
        )
}

impl<C: Copy> Tile<C> {
    /// Quad-merge by means: as `scale_4_to_1`, with the mean of the samples
    /// that have data for an average.  A cell is `absent` where its corner
    /// is missing or none of the four samples under it has data; else it is
    /// the sum of those that have, from `zero` on, divided by their number.
    pub fn mean_4_to_1<N: Fn(C) -> bool, A: Fn(C, C) -> C, D: Fn(C, usize) -> C>(
        corners: [Option<&Tile<C>>; 4],
        absent: C,
        zero: C,
        is_absent: &N,
        plus: &A,
        divide: &D,
    ) -> (out: Tile<C>)
        requires
            can_quad_merge(corner_seq(corners)),
            forall|c: C| is_absent.requires((c,)),
            forall|a: C, b: C| plus.requires((a, b)),
            forall|a: C, n: usize| divide.requires((a, n)),
        ensures
            is_mean_merge(corner_seq(corners), absent, zero, is_absent, plus, divide, out@),
    {
        let average = |a: C, b: C, c: C, d: C| -> (r: C)
            ensures
                exists|flags: Seq<bool>, sums: Seq<C>| #[trigger]
                    is_checked_average(
                        four(a, b, c, d),
                        absent,
                        zero,
                        is_absent,
                        plus,
                        divide,
                        flags,
                        sums,
                        r,
                    ),
            {
                let vals = [a, b, c, d];
                assert(vals@ =~= four(a, b, c, d));
                checked_average(vals, absent, zero, is_absent, plus, divide)
            };
        let out = Tile::scale_4_to_1(corners, absent, &average);
        proof {
            let cs = corner_seq(corners);
            assert forall|r: int, c: int| 0 <= r < out@.rows && 0 <= c < out@.cols implies is_mean_cell(
                cs,
                absent,
                zero,
                is_absent,
                plus,
                divide,
                out@.rows as int,
                out@.cols as int,
                r,
                c,
                #[trigger] out@.at(r, c),
            ) by {
                let v = out@.at(r, c);
                assert(is_quad_cell(cs, absent, &average, out@.rows as int, out@.cols as int, r, c, v));
                let (k, sr, sc) = quad_source(out@.rows as int, out@.cols as int, r, c);
                let block = quad_block(cs, out@.rows as int, out@.cols as int, r, c);
                match cs[k] {
                    None => {
                        assert(block is None);
                        assert(v == absent);
                    },
                    Some(t) => {
                        let args = (t.at(sr, sc), t.at(sr + 1, sc), t.at(sr, sc + 1), t.at(sr + 1, sc + 1));
                        assert(block == Some(four(args.0, args.1, args.2, args.3)));
                        assert(average.ensures(args, v));
                        let picked = choose|flags: Seq<bool>, sums: Seq<C>| #[trigger]
                            is_checked_average(
                                four(args.0, args.1, args.2, args.3),
                                absent,
                                zero,
                                is_absent,
                                plus,
                                divide,
                                flags,
                                sums,
                                v,
                            );
                        assert(is_checked_average(
                            block->0,
                            absent,
                            zero,
                            is_absent,
                            plus,
                            divide,
                            picked.0,
                            picked.1,
                            v,
                        ));
                    },
                }
            }
        }
        out
    }
}

impl<C> TileView<C> {
    /// `accs` are the ranges on the way through the samples, row by row:
    /// one before each sample and one after the last, each the one before
    /// widened by the sample between them, samples without data left out.
    pub open spec fn ranges_through<N: Fn(C) -> bool, L: Fn(C, C) -> C, G: Fn(C, C) -> C>(
        self,
        is_absent: &N,
        lesser: &L,
        greater: &G,
        accs: Seq<(C, C)>,
    ) -> bool {
        &&& accs.len() == self.rows * self.cols + 1
        &&& forall|r: int, c: int|
            0 <= r < self.rows && 0 <= c < self.cols ==> is_widened(
                accs[r * self.cols + c],
                self.at(r, c),
                is_absent,
                lesser,
                greater,
                #[trigger] accs[r * self.cols + c + 1],
            )
    }
}

impl<C: Copy> Tile<C> {
    /// The range of values of the tile: `start` widened by every sample in
    /// turn, row by row, the samples without data left out.  With a `start`
    /// that every sample widens, it is the least and the greatest sample
    /// with data.
    pub fn data_range<N: Fn(C) -> bool, L: Fn(C, C) -> C, G: Fn(C, C) -> C>(
        &self,
        start: (C, C),
        is_absent: &N,
        lesser: &L,
        greater: &G,
    ) -> (range: (C, C))
        requires
            forall|c: C| is_absent.requires((c,)),
            forall|a: C, b: C| lesser.requires((a, b)),
            forall|a: C, b: C| greater.requires((a, b)),
        ensures
            exists|accs: Seq<(C, C)>| #[trigger]
                self@.ranges_through(is_absent, lesser, greater, accs) && accs[0] == start
                    && accs.last() == range,
    {
        let step = |range: (C, C), v: C| -> (r: (C, C))
            ensures
                is_widened(range, v, is_absent, lesser, greater, r),
            { widen(range, v, is_absent, lesser, greater) };
        let range = self.value_range(start, &step);
        proof {
            let accs = choose|accs: Seq<(C, C)>| #[trigger]
                self@.folds_through(&step, accs) && accs[0] == start && accs.last() == range;
            assert forall|r: int, c: int| 0 <= r < self@.rows && 0 <= c < self@.cols implies is_widened(
                accs[r * self@.cols + c],
                self@.at(r, c),
                is_absent,
                lesser,
                greater,
                #[trigger] accs[r * self@.cols + c + 1],
            ) by {
                assert(step.ensures(
                    (accs[r * self@.cols + c], self@.at(r, c)),
                    accs[r * self@.cols + c + 1],
                ));
            }
            assert(self@.ranges_through(is_absent, lesser, greater, accs));
        }
        range
    }

    /// The body of the file of the tile, for samples that range from `min`
    /// to `max`: the codes of the samples, row by row, two bytes each, the
    /// most significant first.  A sample without data has no level and is
    /// written as code 0; any other is held to the range, `steps` gives its
    /// level, and the level is written one higher.
    pub fn to_bytes_held<N: Fn(C) -> bool, B: Fn(C, C) -> bool, S: Fn(C) -> u16>(
        &self,
        min: C,
        max: C,
        is_absent: &N,
        below: &B,
        steps: &S,
    ) -> (bytes: Vec<u8>)
        requires
            forall|c: C| is_absent.requires((c,)),
            forall|a: C, b: C| below.requires((a, b)),
            forall|c: C| steps.requires((c,)),
        ensures
            bytes.len() == 2 * (self@.rows * self@.cols),
            exists|levels: Seq<Option<u16>>|
                {
                    &&& levels.len() == self@.rows * self@.cols
                    &&& forall|r: int, c: int|
                        0 <= r < self@.rows && 0 <= c < self@.cols ==> is_level(
                            self@.at(r, c),
                            min,
                            max,
                            is_absent,
                            below,
                            steps,
                            #[trigger] levels[r * self@.cols + c],
                        )
                    &&& bytes@ == crate::tiling::codec::encoded(levels)
                },
    {
        let quantize = |v: C| -> (level: Option<u16>)
            ensures
                is_level(v, min, max, is_absent, below, steps, level),
            { level_of(v, min, max, is_absent, below, steps) };
        let bytes = self.to_bytes(&quantize);
        proof {
            let levels = choose|levels: Seq<Option<u16>>|
                {
                    &&& levels.len() == self@.rows * self@.cols
                    &&& forall|r: int, c: int|
                        0 <= r < self@.rows && 0 <= c < self@.cols ==> quantize.ensures(
                            (self@.at(r, c),),
                            #[trigger] levels[r * self@.cols + c],
                        )
                    &&& bytes@ == crate::tiling::codec::encoded(levels)
                };
            assert forall|r: int, c: int| 0 <= r < self@.rows && 0 <= c < self@.cols implies is_level(
                self@.at(r, c),
                min,
                max,
                is_absent,
                below,
                steps,
                #[trigger] levels[r * self@.cols + c],
            ) by {
                assert(quantize.ensures((self@.at(r, c),), levels[r * self@.cols + c]));
            }
        }
        bytes
    }
}

/// Every sample of the tile is `v`.
pub open spec fn is_uniform<C>(t: TileView<C>, v: C) -> bool {
    forall|r: int, c: int| 0 <= r < t.rows && 0 <= c < t.cols ==> #[trigger] t.at(r, c) == v
}

/// Averaging a uniform block keeps the value at the coarser zoom: where all
/// four corners are present and every sample of them is `v`, and the
/// average of four times `v` is `v`, every sample of the quad-merge is `v`.
pub proof fn lemma_uniform_stays_uniform<C, F: Fn(C, C, C, C) -> C>(
    corners: Seq<Option<TileView<C>>>,
    absent: C,
    average: &F,
    out: TileView<C>,
    v: C,
)
    requires
        can_quad_merge(corners),
        is_quad_merge(corners, absent, average, out),
        forall|k: int| 0 <= k < 4 ==> (#[trigger] corners[k]) is Some && is_uniform(corners[k]->0, v),
        forall|r: C| average.ensures((v, v, v, v), r) ==> r == v,
    ensures
        is_uniform(out, v),
{
    assert forall|r: int, c: int| 0 <= r < out.rows && 0 <= c < out.cols implies #[trigger] out.at(
        r,
        c,
    ) == v by {
        let rows = out.rows as int;
        let cols = out.cols as int;
        assert(is_quad_cell(corners, absent, average, rows, cols, r, c, out.at(r, c)));
        lemma_doubled_index(rows, r);
        lemma_doubled_index(cols, c);
        let (k, sr, sc) = quad_source(rows, cols, r, c);
        let t = corners[k]->0;
        assert(corners[k] is Some);
        assert(t.rows == rows && t.cols == cols);
        assert(t.at(sr, sc) == v);
        assert(t.at(sr + 1, sc) == v);
        assert(t.at(sr, sc + 1) == v);
        assert(t.at(sr + 1, sc + 1) == v);
    }
}

impl<C: Copy> Tile<C> {
    /// Finishes a tile under construction whose cells hold a weighted sum
    /// and a weight: a cell whose weight is without data got no
    /// contribution and has no data, its sample is that weight; every other
    /// sample is the weighted sum divided by the weight.
    pub fn from_weights<N: Fn(C) -> bool, D: Fn(C, C) -> C>(
        data: &Grid<(C, C)>,
        coords: (usize, usize),
        is_absent: &N,
        divide: &D,
    ) -> (t: Self)
        requires
            forall|c: C| is_absent.requires((c,)),
            forall|a: C, b: C| divide.requires((a, b)),
        ensures
            t@.wf(),
            t@.rows == data.nrows(),
            t@.cols == data.ncols(),
            t@.x == coords.0,
            t@.y == coords.1,
            forall|r: int, c: int|
                0 <= r < data.nrows() && 0 <= c < data.ncols() ==> is_finished(
                    data.at(r, c),
                    is_absent,
                    divide,
                    #[trigger] t@.at(r, c),
                ),
    {
        let settle = |cell: (C, C)| -> (r: C)
            ensures
                is_finished(cell, is_absent, divide, r),
            {
                finish(cell, is_absent, divide)
            };
        let t = Tile::from_aggregate(data, coords, &settle);
        proof {
            assert forall|r: int, c: int| 0 <= r < data.nrows() && 0 <= c < data.ncols() implies is_finished(
                data.at(r, c),
                is_absent,
                divide,
                #[trigger] t@.at(r, c),
            ) by {
                assert(settle.ensures((data.at(r, c),), t@.at(r, c)));
            }
        }
        t
    }
}

/// One row of the pyramid: the tiles with tile index `left <= x < right` in
/// tile row `y` of zoom level `zoom`.
pub struct TileSet<C> {
    tiles: Vec<Tile<C>>,
    xrange: (usize, usize),
    y: usize,
    zoom: usize,
}

/// What a row of tiles is, without how it is stored.
pub struct TileRow<C> {
    pub zoom: nat,
    pub y: nat,
    pub left: nat,
    pub right: nat,
    pub tiles: Seq<TileView<C>>,
}

impl<C> TileRow<C> {
    /// The row holds one well-formed tile per index of its range, each at
    /// its place, all of one size with even sides.  The range may be empty.
    pub open spec fn is_row(self) -> bool {
        &&& self.left <= self.right
        &&& self.tiles.len() == self.right - self.left
        &&& forall|i: int|
            0 <= i < self.tiles.len() ==> {
                &&& (#[trigger] self.tiles[i]).wf()
                &&& self.tiles[i].x == self.left + i
                &&& self.tiles[i].y == self.y
                &&& self.tiles[i].rows == self.tiles[0].rows
                &&& self.tiles[i].cols == self.tiles[0].cols
            }
        &&& self.tiles.len() > 0 ==> self.tiles[0].rows % 2 == 0 && self.tiles[0].cols % 2 == 0
        &&& self.right <= usize::MAX
        &&& self.y <= usize::MAX
        &&& self.zoom <= usize::MAX
    }

    /// The row is a row of tiles and holds at least one: a row that can be
    /// merged.
    pub open spec fn wf(self) -> bool {
        self.is_row() && self.left < self.right
    }

    /// The tile with tile index `x`, if the row reaches that far.
    pub open spec fn tile_at(self, x: int) -> Option<TileView<C>> {
        if self.left <= x < self.right {
            Some(self.tiles[x - self.left])
        } else {
            None
        }
    }
}

/// The tile of an optional row at tile index `x`.
pub open spec fn corner_of<C>(row: Option<TileRow<C>>, x: int) -> Option<TileView<C>> {
    match row {
        Some(row) => row.tile_at(x),
        None => None,
    }
}

/// The 2x2 block of tiles under output tile `x`: `top` fills the upper
/// corners, `bottom` the lower ones.
pub open spec fn block_corners<C>(
    top: Option<TileRow<C>>,
    bottom: Option<TileRow<C>>,
    x: int,
) -> Seq<Option<TileView<C>>> {
    seq![
        corner_of(top, 2 * x),
        corner_of(top, 2 * x + 1),
        corner_of(bottom, 2 * x),
        corner_of(bottom, 2 * x + 1),
    ]
}

/// The rows that can be merged into one row of the next coarser zoom: at
/// least one is present; `top` has an even `y`, `bottom` the odd `y` right
/// after it; where both are present they agree in zoom, range and tile size.
pub open spec fn can_merge_rows<C>(top: Option<TileRow<C>>, bottom: Option<TileRow<C>>) -> bool {
    &&& top is Some || bottom is Some
    &&& top matches Some(t) ==> t.wf() && t.y % 2 == 0 && t.zoom > 0
    &&& bottom matches Some(b) ==> b.wf() && b.y % 2 == 1 && b.zoom > 0
    &&& (top is Some && bottom is Some) ==> {
        let t = top->0;
        let b = bottom->0;
        &&& t.zoom == b.zoom
        &&& t.y + 1 == b.y
        &&& t.left == b.left
        &&& t.right == b.right
        &&& t.tiles[0].rows == b.tiles[0].rows
        &&& t.tiles[0].cols == b.tiles[0].cols
    }
}

/// The row that leads a merge: `top` if present, else `bottom`.
pub open spec fn lead_row<C>(top: Option<TileRow<C>>, bottom: Option<TileRow<C>>) -> TileRow<C> {
    match top {
        Some(t) => t,
        None => bottom->0,
    }
}

/// `out` is a merge of `top` and `bottom`: one zoom level up, at half the
/// row index, covering the halved range, every tile a quad-merge of the
/// 2x2 block below it.
pub open spec fn is_row_merge<C, F: Fn(C, C, C, C) -> C>(
    top: Option<TileRow<C>>,
    bottom: Option<TileRow<C>>,
    absent: C,
    average: &F,
    out: TileRow<C>,
) -> bool {
    let lead = lead_row(top, bottom);
    &&& out.wf()
    &&& out.zoom == lead.zoom - 1
    &&& out.y == lead.y / 2
    &&& out.left == lead.left / 2
    &&& out.right == (lead.right - 1) / 2 + 1
    &&& out.tiles[0].rows == lead.tiles[0].rows
    &&& out.tiles[0].cols == lead.tiles[0].cols
    &&& forall|i: int|
        0 <= i < out.tiles.len() ==> is_quad_merge(
            block_corners(top, bottom, out.left + i),
            absent,
            average,
            #[trigger] out.tiles[i],
        )
}

/// Every block under the merged range has a tile to lead it.
pub proof fn lemma_block_has_lead<C>(top: Option<TileRow<C>>, bottom: Option<TileRow<C>>, x: int)
    requires
        can_merge_rows(top, bottom),
        lead_row(top, bottom).left / 2 <= x <= (lead_row(top, bottom).right - 1) / 2,
    ensures
        can_quad_merge(block_corners(top, bottom, x)),
        ({
            let cs = block_corners(top, bottom, x);
            let lead = cs[first_present(cs)]->0;
            &&& lead.x / 2 == x
            &&& lead.y / 2 == lead_row(top, bottom).y / 2
            &&& lead.rows == lead_row(top, bottom).tiles[0].rows
            &&& lead.cols == lead_row(top, bottom).tiles[0].cols
        }),
{
    let cs = block_corners(top, bottom, x);
    let row = lead_row(top, bottom);
    assert(row.left <= 2 * x || row.left <= 2 * x + 1);
    assert(2 * x < row.right);
    assert(row.tile_at(2 * x) is Some || row.tile_at(2 * x + 1) is Some);
    assert forall|k: int| 0 <= k < 4 implies (#[trigger] cs[k] matches Some(t) ==> t.wf()
        && t.rows == row.tiles[0].rows && t.cols == row.tiles[0].cols && t.x / 2 == x && t.y
        / 2 == row.y / 2) by {
        if top is Some {
            let t = top->0;
            if t.left <= 2 * x < t.right {
                assert(t.tiles[2 * x - t.left].wf());
            }
            if t.left <= 2 * x + 1 < t.right {
                assert(t.tiles[2 * x + 1 - t.left].wf());
            }
        }
        if bottom is Some {
            let b = bottom->0;
            if b.left <= 2 * x < b.right {
                assert(b.tiles[2 * x - b.left].wf());
            }
            if b.left <= 2 * x + 1 < b.right {
                assert(b.tiles[2 * x + 1 - b.left].wf());
            }
        }
    }
}

impl<C> View for TileSet<C> {
    type V = TileRow<C>;

    closed spec fn view(&self) -> TileRow<C> {
        TileRow {
            zoom: self.zoom as nat,
            y: self.y as nat,
            left: self.xrange.0 as nat,
            right: self.xrange.1 as nat,
            tiles: tile_views(self.tiles@),
        }
    }
}

/// The tiles of a row as values.
pub open spec fn tile_views<C>(tiles: Seq<Tile<C>>) -> Seq<TileView<C>> {
    Seq::new(tiles.len(), |i: int| tiles[i]@)
}

impl<C: Copy> TileSet<C> {
    /// The row of tiles `left <= x < right` at tile row `y` of `zoom`.
    pub fn new(zoom: usize, xrange: (usize, usize), y: usize, tiles: Vec<Tile<C>>) -> (ts: Self)
        requires
            (TileRow {
                zoom: zoom as nat,
                y: y as nat,
                left: xrange.0 as nat,
                right: xrange.1 as nat,
                tiles: tile_views(tiles@),
            }).is_row(),
        ensures
            ts@ == (TileRow {
                zoom: zoom as nat,
                y: y as nat,
                left: xrange.0 as nat,
                right: xrange.1 as nat,
                tiles: tile_views(tiles@),
            }),
    {
        TileSet { tiles, xrange, y, zoom }
    }

    /// The row of tiles `left <= x < right` at tile row `y` of `zoom`, if
    /// the tiles make up such a row: one per tile index of the range, each
    /// at its place, all of one size with even sides.
    pub fn try_new(zoom: usize, xrange: (usize, usize), y: usize, tiles: Vec<Tile<C>>) -> (ts:
        Option<Self>)
        ensures
            ts is Some <==> (TileRow {
                zoom: zoom as nat,
                y: y as nat,
                left: xrange.0 as nat,
                right: xrange.1 as nat,
                tiles: tile_views(tiles@),
            }).is_row(),
            ts matches Some(t) ==> t@ == (TileRow {
                zoom: zoom as nat,
                y: y as nat,
                left: xrange.0 as nat,
                right: xrange.1 as nat,
                tiles: tile_views(tiles@),
            }),
    {
        let ghost row = TileRow {
            zoom: zoom as nat,
            y: y as nat,
            left: xrange.0 as nat,
            right: xrange.1 as nat,
            tiles: tile_views(tiles@),
        };
        let (left, right) = xrange;
        if left > right || tiles.len() != right - left {
            return None;
        }
        if left == right {
            return Some(TileSet { tiles, xrange, y, zoom });
        }
        let (rows, cols) = tiles[0].data().dim();
        if rows % 2 != 0 || cols % 2 != 0 {
            return None;
        }
        let mut i: usize = 0;
        while i < tiles.len()
            invariant
                i <= tiles.len(),
                tiles.len() == right - left,
                left < right,
                row == (TileRow {
                    zoom: zoom as nat,
                    y: y as nat,
                    left: xrange.0 as nat,
                    right: xrange.1 as nat,
                    tiles: tile_views(tiles@),
                }),
                xrange == (left, right),
                rows % 2 == 0,
                cols % 2 == 0,
                rows == row.tiles[0].rows,
                cols == row.tiles[0].cols,
                forall|k: int|
                    0 <= k < i ==> {
                        &&& (#[trigger] row.tiles[k]).wf()
                        &&& row.tiles[k].x == left + k
                        &&& row.tiles[k].y == y
                        &&& row.tiles[k].rows == rows
                        &&& row.tiles[k].cols == cols
                    },
            decreases tiles.len() - i,
        {
            let (x, ty) = tiles[i].coords();
            let (r, c) = tiles[i].data().dim();
            proof {
                tiles[i as int].lemma_view_wf();
                assert(row.tiles[i as int] == tiles[i as int]@);
            }
            if x != left + i || ty != y || r != rows || c != cols {
                proof {
                    let t = row.tiles[i as int];
                    assert(!(t.x == row.left + i && t.y == row.y && t.rows == row.tiles[0].rows
                        && t.cols == row.tiles[0].cols));
                }
                return None;
            }
            i += 1;
        }
        Some(TileSet { tiles, xrange, y, zoom })
    }

    /// The zoom level of the row.
    pub fn zoom(&self) -> (z: usize)
        ensures
            z == self@.zoom,
    {
        self.zoom
    }

    /// The tile row index.
    pub fn y(&self) -> (y: usize)
        ensures
            y == self@.y,
    {
        self.y
    }

    /// The tile column range, left inclusive, right exclusive.
    pub fn xrange(&self) -> (r: (usize, usize))
        ensures
            r.0 == self@.left,
            r.1 == self@.right,
    {
        self.xrange
    }

    /// The tiles from left to right.
    pub fn tiles(&self) -> (t: &Vec<Tile<C>>)
        ensures
            tile_views(t@) == self@.tiles,
    {
        &self.tiles
    }

    /// Whether the row is the lower half of a 2x2 block, to be merged
    /// together with the row above it: its `y` is odd.
    pub fn can_scale_down_with_top(&self) -> (b: bool)
        ensures
            b == (self@.y % 2 == 1),
    {
        self.y % 2 == 1
    }

    /// The tile with tile index `x`, if the row reaches that far.
    fn tile_at(&self, x: usize) -> (t: Option<&Tile<C>>)
        requires
            self@.wf(),
        ensures
            t is Some == self@.tile_at(x as int) is Some,
            t matches Some(t) ==> t@ == self@.tile_at(x as int)->0,
    {
        if self.xrange.0 <= x && x < self.xrange.1 {
            Some(&self.tiles[x - self.xrange.0])
        } else {
            None
        }
    }

    /// The tiles of the merge of `top` and `bottom`, from left to right.
    fn merged_tiles<F: Fn(C, C, C, C) -> C>(
        top: Option<&TileSet<C>>,
        bottom: Option<&TileSet<C>>,
        absent: C,
        average: &F,
    ) -> (out: Vec<Tile<C>>)
        requires
            can_merge_rows(rows_view(top), rows_view(bottom)),
            forall|a: C, b: C, c: C, d: C| average.requires((a, b, c, d)),
        ensures
            is_row_merge(
                rows_view(top),
                rows_view(bottom),
                absent,
                average,
                (TileRow {
                    zoom: (lead_row(rows_view(top), rows_view(bottom)).zoom - 1) as nat,
                    y: lead_row(rows_view(top), rows_view(bottom)).y / 2,
                    left: lead_row(rows_view(top), rows_view(bottom)).left / 2,
                    right: ((lead_row(rows_view(top), rows_view(bottom)).right - 1) / 2 + 1) as nat,
                    tiles: tile_views(out@),
                }),
            ),
    {
        let ghost tv = rows_view(top);
        let ghost bv = rows_view(bottom);
        let ghost lead = lead_row(tv, bv);
        let (left, right) = match top {
            Some(t) => t.xrange,
            None => match bottom {
                Some(b) => b.xrange,
                None => (0, 1),
            },
        };
        let first: usize = left / 2;
        let last: usize = (right - 1) / 2;
        let mut out: Vec<Tile<C>> = Vec::new();
        let mut x: usize = first;
        while x <= last
            invariant
                tv == rows_view(top),
                bv == rows_view(bottom),
                lead == lead_row(tv, bv),
                can_merge_rows(tv, bv),
                left == lead.left,
                right == lead.right,
                first == left / 2,
                last == (right - 1) / 2,
                first <= x <= last + 1,
                out.len() == x - first,
                forall|a: C, b: C, c: C, d: C| average.requires((a, b, c, d)),
                forall|i: int|
                    0 <= i < out.len() ==> {
                        &&& is_quad_merge(
                            block_corners(tv, bv, first + i),
                            absent,
                            average,
                            (#[trigger] out@[i])@,
                        )
                        &&& out@[i]@.x == first + i
                        &&& out@[i]@.y == lead.y / 2
                        &&& out@[i]@.rows == lead.tiles[0].rows
                        &&& out@[i]@.cols == lead.tiles[0].cols
                    },
            decreases last + 1 - x,
        {
            proof {
                lemma_block_has_lead(tv, bv, x as int);
            }
            let t0 = match top {
                Some(t) => t.tile_at(2 * x),
                None => None,
            };
            let t1 = match top {
                Some(t) => t.tile_at(2 * x + 1),
                None => None,
            };
            let b0 = match bottom {
                Some(b) => b.tile_at(2 * x),
                None => None,
            };
            let b1 = match bottom {
                Some(b) => b.tile_at(2 * x + 1),
                None => None,
            };
            let corners = [t0, t1, b0, b1];
            assert(corner_seq(corners) =~= block_corners(tv, bv, x as int));
            let tile = Tile::scale_4_to_1(corners, absent, average);
            out.push(tile);
            x += 1;
        }
        out
    }

    /// Merges this row alone, as the upper half of its 2x2 blocks, into the
    /// next coarser zoom; the lower half counts as absent.
    pub fn scale_down_as_top<F: Fn(C, C, C, C) -> C>(&mut self, absent: C, average: &F)
        requires
            can_merge_rows(Some(old(self)@), None),
            forall|a: C, b: C, c: C, d: C| average.requires((a, b, c, d)),
        ensures
            is_row_merge(Some(old(self)@), None, absent, average, final(self)@),
    {
        let tiles = Self::merged_tiles(Some(&*self), None, absent, average);
        let (left, right) = self.xrange;
        self.tiles = tiles;
        self.xrange = (left / 2, (right - 1) / 2 + 1);
        self.y = self.y / 2;
        self.zoom = self.zoom - 1;
    }

    /// Merges this row, the lower half of its 2x2 blocks, with `other`, the
    /// row above it, into the next coarser zoom.  Without `other` the upper
    /// half counts as absent.
    pub fn scale_down_with_top<F: Fn(C, C, C, C) -> C>(
        &mut self,
        other: Option<Self>,
        absent: C,
        average: &F,
    )
        requires
            can_merge_rows(option_view(other), Some(old(self)@)),
            forall|a: C, b: C, c: C, d: C| average.requires((a, b, c, d)),
        ensures
            is_row_merge(option_view(other), Some(old(self)@), absent, average, final(self)@),
    {
        let tiles = match &other {
            Some(o) => Self::merged_tiles(Some(o), Some(&*self), absent, average),
            None => Self::merged_tiles(None, Some(&*self), absent, average),
        };
        let (left, right) = self.xrange;
        self.tiles = tiles;
        self.xrange = (left / 2, (right - 1) / 2 + 1);
        self.y = self.y / 2;
        self.zoom = self.zoom - 1;
    }
}

/// The row behind an optional reference.
pub open spec fn rows_view<C>(row: Option<&TileSet<C>>) -> Option<TileRow<C>> {
    match row {
        Some(r) => Some(r@),
        None => None,
    }
}

/// The row of an optional tile set.
pub open spec fn option_view<C>(row: Option<TileSet<C>>) -> Option<TileRow<C>> {
    match row {
        Some(r) => Some(r@),
        None => None,
    }
}

} // verus!
