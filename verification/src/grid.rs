//! A dense, row-major two-dimensional array of samples.
//!
//! The cells are kept in a `Vec`, row by row.  The tools around this library
//! hold their rasters in `ndarray` arrays, but such an array cannot be held
//! here: Verus cannot be told of a type that is bounded by a trait of another
//! crate, as `ndarray::ArrayBase` is by `RawData`, and so no verified function
//! could take one, read a cell of it or say what it holds.  The tools convert
//! where they hand samples over.

use vstd::prelude::*;

verus! {

/// A `rows x cols` array stored row by row.
pub struct Grid<C> {
    rows: usize,
    cols: usize,
    cells: Vec<C>,
}

/// `r * cols + c` stays below `rows * cols` for an index inside the array.
pub proof fn lemma_flat_index(rows: int, cols: int, r: int, c: int)
    requires
        0 <= r < rows,
        0 <= c < cols,
    ensures
        0 <= r * cols <= r * cols + c < rows * cols,
{
    assert(r * cols >= 0) by (nonlinear_arith)
        requires
            r >= 0,
            cols >= 0,
    ;
    assert((r + 1) * cols <= rows * cols) by (nonlinear_arith)
        requires
            r + 1 <= rows,
            cols >= 0,
    ;
    assert((r + 1) * cols == r * cols + cols) by (nonlinear_arith);
}

/// A flat index determines its row and column.
pub proof fn lemma_flat_index_unique(cols: int, r1: int, c1: int, r2: int, c2: int)
    requires
        0 <= c1 < cols,
        0 <= c2 < cols,
        r1 * cols + c1 == r2 * cols + c2,
    ensures
        r1 == r2,
        c1 == c2,
{
    assert(r1 == r2) by (nonlinear_arith)
        requires
            0 <= c1 < cols,
            0 <= c2 < cols,
            r1 * cols + c1 == r2 * cols + c2,
    ;
}

impl<C> View for Grid<C> {
    type V = Seq<Seq<C>>;

    /// The array as a sequence of rows.
    closed spec fn view(&self) -> Seq<Seq<C>> {
        Seq::new(
            self.rows as nat,
            |r: int| Seq::new(self.cols as nat, |c: int| self.cells@[r * (self.cols as int) + c]),
        )
    }
}

impl<C> Grid<C> {
    /// The storage holds exactly `rows * cols` cells.
    #[verifier::type_invariant]
    spec fn well_formed(&self) -> bool {
        self.cells.len() == (self.rows as int) * (self.cols as int)
    }

    /// Number of rows.
    pub closed spec fn nrows(&self) -> nat {
        self.rows as nat
    }

    /// Number of columns.
    pub closed spec fn ncols(&self) -> nat {
        self.cols as nat
    }

    /// The cell in row `r`, column `c`.
    pub open spec fn at(&self, r: int, c: int) -> C {
        self@[r][c]
    }

    /// `accs` are the values that pass through `f` when it is handed the
    /// cells row by row: there is one before each cell and one after the
    /// last, and each is what `f` made of the one before and the cell
    /// between them.
    pub open spec fn folds_through<A, F: Fn(A, C) -> A>(&self, f: &F, accs: Seq<A>) -> bool {
        &&& accs.len() == self.nrows() * self.ncols() + 1
        &&& forall|r: int, c: int|
            0 <= r < self.nrows() && 0 <= c < self.ncols() ==> f.ensures(
                (accs[r * self.ncols() + c], self.at(r, c)),
                #[trigger] accs[r * self.ncols() + c + 1],
            )
    }

    /// The view has `nrows` rows of `ncols` cells each.
    pub proof fn lemma_view_shape(&self)
        ensures
            self@.len() == self.nrows(),
            forall|r: int| 0 <= r < self.nrows() ==> (#[trigger] self@[r]).len() == self.ncols(),
    {
    }

    /// Both dimensions, rows first.  Their product fits the machine word.
    pub fn dim(&self) -> (d: (usize, usize))
        ensures
            d.0 == self.nrows(),
            d.1 == self.ncols(),
            d.0 * d.1 <= usize::MAX,
    {
        proof {
            use_type_invariant(self);
        }
        (self.rows, self.cols)
    }
}

impl<C: Copy> Grid<C> {
    /// An array with every cell equal to `fill`.
    pub fn from_elem(rows: usize, cols: usize, fill: C) -> (g: Self)
        requires
            rows * cols <= usize::MAX,
        ensures
            g.nrows() == rows,
            g.ncols() == cols,
            forall|r: int, c: int| 0 <= r < rows && 0 <= c < cols ==> g.at(r, c) == fill,
    {
        let n: usize = rows * cols;
        let mut cells: Vec<C> = Vec::new();
        let mut i: usize = 0;
        while i < n
            invariant
                i <= n,
                cells@.len() == i,
                forall|k: int| 0 <= k < i ==> cells@[k] == fill,
            decreases n - i,
        {
            cells.push(fill);
            i += 1;
        }
        let g = Grid { rows, cols, cells };
        proof {
            assert forall|r: int, c: int| 0 <= r < rows && 0 <= c < cols implies g.at(r, c)
                == fill by {
                lemma_flat_index(rows as int, cols as int, r, c);
            }
        }
        g
    }

    /// An array without cells if one of its sides is zero, else an array
    /// with every cell equal to `fill`, which must then be given.
    pub fn from_elem_or_empty(rows: usize, cols: usize, fill: Option<C>) -> (g: Self)
        requires
            rows * cols <= usize::MAX,
            rows * cols > 0 ==> fill is Some,
        ensures
            g.nrows() == rows,
            g.ncols() == cols,
            forall|r: int, c: int| 0 <= r < rows && 0 <= c < cols ==> g.at(r, c) == fill->0,
    {
        match fill {
            Some(v) => Grid::from_elem(rows, cols, v),
            None => {
                assert(rows * cols == 0);
                assert(rows == 0 || cols == 0) by (nonlinear_arith)
                    requires
                        rows * cols == 0,
                ;
                Grid { rows, cols, cells: Vec::new() }
            },
        }
    }

    /// Wraps row-major storage; `None` when the length is not `rows * cols`.
    pub fn from_vec(rows: usize, cols: usize, cells: Vec<C>) -> (g: Option<Self>)
        ensures
            g is Some <==> cells.len() == rows * cols,
            g matches Some(g) ==> {
                &&& g.nrows() == rows
                &&& g.ncols() == cols
                &&& forall|r: int, c: int|
                    0 <= r < rows && 0 <= c < cols ==> g.at(r, c) == cells@[r * cols + c]
            },
    {
        match rows.checked_mul(cols) {
            Some(n) => {
                if n == cells.len() {
                    let ghost flat = cells@;
                    let g = Grid { rows, cols, cells };
                    proof {
                        assert forall|r: int, c: int| 0 <= r < rows && 0 <= c < cols implies g.at(
                            r,
                            c,
                        ) == flat[r * cols + c] by {
                            lemma_flat_index(rows as int, cols as int, r, c);
                        }
                    }
                    Some(g)
                } else {
                    None
                }
            },
            None => None,
        }
    }

    /// Reads the cell in row `r`, column `c`.
    pub fn get(&self, r: usize, c: usize) -> (v: C)
        requires
            r < self.nrows(),
            c < self.ncols(),
        ensures
            v == self.at(r as int, c as int),
    {
        proof {
            use_type_invariant(self);
            lemma_flat_index(self.rows as int, self.cols as int, r as int, c as int);
        }
        self.cells[r * self.cols + c]
    }

    /// Overwrites the cell in row `r`, column `c`; every other cell stays.
    pub fn set(&mut self, r: usize, c: usize, v: C)
        requires
            r < old(self).nrows(),
            c < old(self).ncols(),
        ensures
            final(self).nrows() == old(self).nrows(),
            final(self).ncols() == old(self).ncols(),
            final(self).at(r as int, c as int) == v,
            forall|i: int, j: int|
                0 <= i < old(self).nrows() && 0 <= j < old(self).ncols() && (i != r || j != c)
                    ==> final(self).at(i, j) == old(self).at(i, j),
    {
        proof {
            use_type_invariant(&*self);
            lemma_flat_index(self.rows as int, self.cols as int, r as int, c as int);
        }
        let k: usize = r * self.cols + c;
        self.cells[k] = v;
        proof {
            assert forall|i: int, j: int|
                0 <= i < old(self).nrows() && 0 <= j < old(self).ncols() && (i != r || j
                    != c) implies self.at(i, j) == old(self).at(i, j) by {
                lemma_flat_index(self.rows as int, self.cols as int, i, j);
                if i * (self.cols as int) + j == k {
                    lemma_flat_index_unique(self.cols as int, i, j, r as int, c as int);
                }
            }
        }
    }

    /// A new array of the same shape whose cells are `f` of this one's.
    pub fn map<B, F: Fn(C) -> B>(&self, f: &F) -> (g: Grid<B>)
        requires
            forall|a: C| f.requires((a,)),
        ensures
            g.nrows() == self.nrows(),
            g.ncols() == self.ncols(),
            forall|r: int, c: int|
                0 <= r < self.nrows() && 0 <= c < self.ncols() ==> f.ensures(
                    (self.at(r, c),),
                    #[trigger] g.at(r, c),
                ),
    {
        proof {
            use_type_invariant(self);
        }
        let n: usize = self.cells.len();
        let mut cells: Vec<B> = Vec::new();
        let mut i: usize = 0;
        while i < n
            invariant
                n == self.cells.len(),
                i <= n,
                cells.len() == i,
                forall|a: C| f.requires((a,)),
                forall|k: int| 0 <= k < i ==> f.ensures((self.cells@[k],), #[trigger] cells@[k]),
            decreases n - i,
        {
            cells.push(f(self.cells[i]));
            i += 1;
        }
        let g = Grid { rows: self.rows, cols: self.cols, cells };
        proof {
            assert forall|r: int, c: int|
                0 <= r < self.nrows() && 0 <= c < self.ncols() implies f.ensures(
                (self.at(r, c),),
                #[trigger] g.at(r, c),
            ) by {
                lemma_flat_index(self.rows as int, self.cols as int, r, c);
            }
        }
        g
    }

    /// Hands the cells to `f` one after the other, row by row, each with
    /// what `f` made of the cells before it, starting from `init`.
    pub fn fold<A, F: Fn(A, C) -> A>(&self, init: A, f: &F) -> (out: A)
        requires
            forall|a: A, c: C| f.requires((a, c)),
        ensures
            exists|accs: Seq<A>| #[trigger] self.folds_through(f, accs) && accs[0] == init && accs.last() == out,
    {
        proof {
            use_type_invariant(self);
        }
        let n: usize = self.cells.len();
        let mut acc = init;
        let ghost mut accs: Seq<A> = seq![init];
        let mut i: usize = 0;
        while i < n
            invariant
                n == self.cells.len(),
                n == self.rows * self.cols,
                i <= n,
                accs.len() == i + 1,
                accs[0] == init,
                accs.last() == acc,
                forall|a: A, c: C| f.requires((a, c)),
                forall|k: int|
                    0 <= k < i ==> f.ensures((accs[k], self.cells@[k]), #[trigger] accs[k + 1]),
            decreases n - i,
        {
            let ghost held = accs;
            acc = f(acc, self.cells[i]);
            proof {
                accs = accs.push(acc);
                assert forall|k: int| 0 <= k < i + 1 implies f.ensures(
                    (accs[k], self.cells@[k]),
                    #[trigger] accs[k + 1],
                ) by {
                    if k < i {
                        assert(accs[k] == held[k] && accs[k + 1] == held[k + 1]);
                    }
                }
            }
            i += 1;
        }
        proof {
            assert forall|r: int, c: int| 0 <= r < self.nrows() && 0 <= c < self.ncols() implies f.ensures(
                (accs[r * self.ncols() + c], self.at(r, c)),
                #[trigger] accs[r * self.ncols() + c + 1],
            ) by {
                lemma_flat_index(self.rows as int, self.cols as int, r, c);
            }
            assert(self.folds_through(f, accs));
        }
        acc
    }

    /// The cells row by row.
    pub fn into_vec(self) -> (cells: Vec<C>)
        requires
        ensures
            cells.len() == self.nrows() * self.ncols(),
            forall|r: int, c: int|
                0 <= r < self.nrows() && 0 <= c < self.ncols() ==> cells@[r * self.ncols() + c]
                    == self.at(r, c),
    {
        proof {
            use_type_invariant(&self);
            assert forall|r: int, c: int| 0 <= r < self.nrows() && 0 <= c < self.ncols() implies
                self.cells@[r * self.ncols() + c] == self.at(r, c) by {
                lemma_flat_index(self.rows as int, self.cols as int, r, c);
            }
        }
        self.cells
    }
}

} // verus!
