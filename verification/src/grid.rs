//! Observation grids: variables by entities, stored in an `ndarray` array.

use vstd::prelude::*;

verus! {

/// A two-dimensional array of observations. Row 0 holds the primary
/// variable, one column per entity.
#[verifier::external_body]
pub struct Grid {
    cells: ndarray::Array2<i64>,
}

/// The rows of a grid, top to bottom, each left to right.
pub uninterp spec fn grid_rows(g: Grid) -> Seq<Seq<i64>>;

/// The number of columns of a grid, which its rows share.
pub uninterp spec fn grid_width(g: Grid) -> nat;

/// Whether an array of this shape can exist: the product of its axis lengths,
/// zero lengths left out, must not exceed `isize::MAX`.
pub open spec fn shape_fits(nrows: usize, ncols: usize) -> bool {
    (if nrows == 0 {
        1
    } else {
        nrows as int
    }) * (if ncols == 0 {
        1
    } else {
        ncols as int
    }) <= isize::MAX
}

/// `ndarray::Array2::from_shape_vec` with a plain `(rows, columns)` shape:
/// succeeds exactly when the shape can exist and counts as many cells as
/// `data` has, and then lays `data` out row by row.
#[verifier::external_body]
fn array_from_shape_vec(nrows: usize, ncols: usize, data: Vec<i64>) -> (r: Option<Grid>)
    ensures
        r.is_some() <==> (nrows * ncols == data.len() && shape_fits(nrows, ncols)),
        r.is_some() ==> (grid_rows(r.unwrap()).len() == nrows && grid_width(r.unwrap()) == ncols),
        r.is_some() ==> (forall|i: int|
            0 <= i < nrows ==> #[trigger] grid_rows(r.unwrap())[i] == data@.subrange(
                i * ncols,
                (i + 1) * ncols,
            )),
{
    match ndarray::Array2::from_shape_vec((nrows, ncols), data) {
        Ok(cells) => Some(Grid { cells }),
        Err(_) => None,
    }
}

/// `ndarray`'s `is_empty`: whether the array has no element at all.
#[verifier::external_body]
fn array_is_empty(g: &Grid) -> (r: bool)
    ensures
        r == (grid_rows(*g).len() == 0 || grid_width(*g) == 0),
{
    g.cells.is_empty()
}

/// `ndarray`'s `dim`: the number of rows and the number of columns, which
/// is the length of every row.
#[verifier::external_body]
fn array_dim(g: &Grid) -> (r: (usize, usize))
    ensures
        r.0 == grid_rows(*g).len(),
        r.1 == grid_width(*g),
        forall|i: int| 0 <= i < r.0 ==> (#[trigger] grid_rows(*g)[i]).len() == r.1,
{
    g.cells.dim()
}

/// `ndarray`'s `row` followed by `to_vec`: a copy of row `i`, which is as
/// long as the grid is wide.
#[verifier::external_body]
fn array_row(g: &Grid, i: usize) -> (r: Vec<i64>)
    requires
        i < grid_rows(*g).len(),
    ensures
        r@ == grid_rows(*g)[i as int],
        r@.len() == grid_width(*g),
{
    g.cells.row(i).to_vec()
}

/// The cells of equally long rows, row after row.
pub open spec fn flattened(rows: Seq<Seq<i64>>) -> Seq<i64>
    decreases rows.len(),
{
    if rows.len() == 0 {
        Seq::empty()
    } else {
        flattened(rows.drop_last()) + rows.last()
    }
}

/// Whether all of `rows` are `width` long.
pub open spec fn is_rectangular(rows: Seq<Seq<i64>>, width: nat) -> bool {
    forall|i: int| 0 <= i < rows.len() ==> (#[trigger] rows[i]).len() == width
}

/// The width of a grid made of `rows`: the length of the first, if any.
pub open spec fn width_of(rows: Seq<Seq<i64>>) -> nat {
    if rows.len() == 0 {
        0
    } else {
        rows[0].len()
    }
}

/// In rectangular rows laid end to end, row `i` begins at `i * width`.
proof fn lemma_flattened(rows: Seq<Seq<i64>>, width: nat)
    requires
        is_rectangular(rows, width),
    ensures
        flattened(rows).len() == rows.len() * width,
        forall|i: int|
            0 <= i < rows.len() ==> flattened(rows).subrange(i * width, (i + 1) * width)
                == #[trigger] rows[i],
    decreases rows.len(),
{
    if rows.len() > 0 {
        let front = rows.drop_last();
        let n = front.len() as int;
        lemma_flattened(front, width);
        assert(rows.len() * width == n * width + width) by (nonlinear_arith)
            requires
                rows.len() == n + 1,
        ;
        assert forall|i: int| 0 <= i < rows.len() implies flattened(rows).subrange(
            i * width,
            (i + 1) * width,
        ) == #[trigger] rows[i] by {
            assert((i + 1) * width == i * width + width) by (nonlinear_arith);
            if i < n {
                assert((i + 1) * width <= n * width) by (nonlinear_arith)
                    requires
                        i + 1 <= n,
                ;
                assert(0 <= i * width) by (nonlinear_arith)
                    requires
                        0 <= i,
                ;
                assert(front[i] == rows[i]);
                assert(flattened(rows).subrange(i * width, (i + 1) * width) =~= flattened(
                    front,
                ).subrange(i * width, (i + 1) * width));
            } else {
                assert(flattened(rows).subrange(i * width, (i + 1) * width) =~= rows.last());
            }
        }
    } else {
        assert(rows.len() * width == 0) by (nonlinear_arith)
            requires
                rows.len() == 0,
        ;
    }
}

impl Grid {
    /// The rows of the grid.
    pub open spec fn rows(&self) -> Seq<Seq<i64>> {
        grid_rows(*self)
    }

    /// The number of columns.
    pub open spec fn width(&self) -> nat {
        grid_width(*self)
    }

    /// Builds a grid from its rows. There is a grid exactly when the rows are
    /// equally long and the shape can exist.
    pub fn from_rows(rows: &Vec<Vec<i64>>) -> (r: Option<Grid>)
        ensures
            r.is_some() <==> is_rectangular(rows.deep_view(), width_of(rows.deep_view()))
                && shape_fits(rows.len(), width_of(rows.deep_view()) as usize),
            r.is_some() ==> r.unwrap().rows() == rows.deep_view() && r.unwrap().width() == width_of(
                rows.deep_view(),
            ),
    {
        let nrows: usize = rows.len();
        let ncols: usize = if nrows == 0 {
            0
        } else {
            rows[0].len()
        };
        let ghost model = rows.deep_view();
        assert(model.len() == nrows);
        assert(nrows > 0 ==> model[0] == rows[0]@);
        let mut data: Vec<i64> = Vec::new();
        let mut i: usize = 0;
        while i < nrows
            invariant
                model == rows.deep_view(),
                nrows == rows.len(),
                ncols == width_of(model),
                i <= nrows,
                is_rectangular(model.take(i as int), ncols as nat),
                data@ == flattened(model.take(i as int)),
            decreases nrows - i,
        {
            let row = &rows[i];
            assert(model[i as int] == row@);
            if row.len() != ncols {
                return None;
            }
            let mut j: usize = 0;
            while j < ncols
                invariant
                    ncols == row.len(),
                    j <= ncols,
                    data@ == flattened(model.take(i as int)) + row@.take(j as int),
                decreases ncols - j,
            {
                data.push(row[j]);
                proof {
                    assert(row@.take(j + 1) =~= row@.take(j as int).push(row@[j as int]));
                }
                j += 1;
            }
            proof {
                assert(row@.take(ncols as int) =~= row@);
                assert(model.take(i + 1).drop_last() =~= model.take(i as int));
                assert(model.take(i + 1).last() == row@);
            }
            i += 1;
        }
        proof {
            assert(model.take(nrows as int) =~= model);
            lemma_flattened(model, ncols as nat);
        }
        let made = array_from_shape_vec(nrows, ncols, data);
        proof {
            if made.is_some() {
                assert(made.unwrap().rows() =~= model);
            }
        }
        made
    }

    /// A grid without rows or without columns holds no observation.
    pub open spec fn is_vacant(&self) -> bool {
        self.rows().len() == 0 || self.width() == 0
    }

    /// Every row is as long as the grid is wide.
    pub open spec fn is_rectangular(&self) -> bool {
        forall|i: int| 0 <= i < self.rows().len() ==> (#[trigger] self.rows()[i]).len() == self.width()
    }

    /// Whether the grid holds no observation.
    pub fn is_empty(&self) -> (r: bool)
        ensures
            r == self.is_vacant(),
    {
        array_is_empty(self)
    }

    /// The number of rows and the number of columns.
    pub fn dim(&self) -> (r: (usize, usize))
        ensures
            r.0 == self.rows().len(),
            r.1 == self.width(),
            self.is_rectangular(),
    {
        array_dim(self)
    }

    /// A copy of row `i`, or nothing if there is no such row.
    pub fn row(&self, i: usize) -> (r: Option<Vec<i64>>)
        ensures
            r.is_some() <==> i < self.rows().len(),
            r.is_some() ==> r.unwrap()@ == self.rows()[i as int] && r.unwrap()@.len() == self.width(),
    {
        if i < array_dim(self).0 {
            Some(array_row(self, i))
        } else {
            None
        }
    }
}

} // verus!
