//! Tables of integers stored in an `nalgebra` matrix.

use crate::grid::{is_rectangular, width_of};
use vstd::prelude::*;

verus! {

/// A dense matrix of integers with a run-time number of rows and columns.
#[verifier::external_body]
pub struct Table {
    cells: nalgebra::DMatrix<i64>,
}

/// The rows of a table, top to bottom, each left to right.
pub uninterp spec fn table_rows(t: Table) -> Seq<Seq<i64>>;

/// The number of columns of a table, which its rows share.
pub uninterp spec fn table_width(t: Table) -> nat;

/// Whether the cells of a table of this shape fit in one allocation.
pub open spec fn table_fits(nrows: int, ncols: int) -> bool {
    &&& 0 <= nrows <= usize::MAX
    &&& 0 <= ncols <= usize::MAX
    &&& nrows * ncols * 8 <= isize::MAX
}

/// `nalgebra::DMatrix::zeros`: a table of the given shape whose cells are
/// all zero.
#[verifier::external_body]
fn matrix_zeros(nrows: usize, ncols: usize) -> (t: Table)
    requires
        table_fits(nrows as int, ncols as int),
    ensures
        table_rows(t).len() == nrows,
        table_width(t) == ncols,
        forall|i: int| 0 <= i < nrows ==> (#[trigger] table_rows(t)[i]).len() == ncols,
        forall|i: int, j: int| 0 <= i < nrows && 0 <= j < ncols ==> (#[trigger] table_rows(t)[i][j]) == 0,
{
    Table { cells: nalgebra::DMatrix::zeros(nrows, ncols) }
}

/// `nalgebra`'s `nrows`: the number of rows, each of which is as long as the
/// table is wide.
#[verifier::external_body]
fn matrix_nrows(t: &Table) -> (r: usize)
    ensures
        r == table_rows(*t).len(),
        forall|i: int| 0 <= i < r ==> (#[trigger] table_rows(*t)[i]).len() == table_width(*t),
{
    t.cells.nrows()
}

/// `nalgebra`'s `ncols`.
#[verifier::external_body]
fn matrix_ncols(t: &Table) -> (r: usize)
    ensures
        r == table_width(*t),
{
    t.cells.ncols()
}

/// `nalgebra`'s `row`, its cells collected left to right: a copy of row `i`,
/// which is as long as the table is wide.
#[verifier::external_body]
fn matrix_row(t: &Table, i: usize) -> (r: Vec<i64>)
    requires
        i < table_rows(*t).len(),
    ensures
        r@ == table_rows(*t)[i as int],
        r@.len() == table_width(*t),
{
    t.cells.row(i).iter().cloned().collect()
}

/// `nalgebra`'s `column`, its cells collected top to bottom: cell `j` of
/// every row.
#[verifier::external_body]
fn matrix_column(t: &Table, j: usize) -> (r: Vec<i64>)
    requires
        j < table_width(*t),
    ensures
        r@.len() == table_rows(*t).len(),
        forall|i: int| 0 <= i < r@.len() ==> (#[trigger] r@[i]) == table_rows(*t)[i][j as int],
{
    t.cells.column(j).iter().cloned().collect()
}

/// `nalgebra`'s indexed assignment `m[(i, j)] = v`: cell `j` of row `i`
/// becomes `v`, and nothing else changes.
#[verifier::external_body]
fn matrix_set(t: &mut Table, i: usize, j: usize, v: i64)
    requires
        i < table_rows(*old(t)).len(),
        j < table_width(*old(t)),
    ensures
        table_width(*final(t)) == table_width(*old(t)),
        table_rows(*final(t)) == table_rows(*old(t)).update(
            i as int,
            table_rows(*old(t))[i as int].update(j as int, v),
        ),
{
    t.cells[(i, j)] = v;
}

/// The largest number of cells that fit in one allocation.
fn max_cells() -> (m: usize)
    ensures
        m == isize::MAX / 8,
{
    isize::MAX as usize / 8
}

/// Decides whether a table of this shape can be allocated.
pub fn shape_is_allocatable(nrows: usize, ncols: usize) -> (r: bool)
    ensures
        r == table_fits(nrows as int, ncols as int),
{
    if nrows == 0 || ncols == 0 {
        assert(nrows * ncols * 8 == 0) by (nonlinear_arith)
            requires
                nrows == 0 || ncols == 0,
        ;
        true
    } else {
        let most: usize = max_cells() / nrows;
        proof {
            let m = (isize::MAX / 8) as int;
            let n = nrows as int;
            let c = ncols as int;
            assert(c <= m / n <==> n * c <= m) by (nonlinear_arith)
                requires
                    n > 0,
                    c >= 0,
                    m >= 0,
            ;
            assert(n * c * 8 <= isize::MAX <==> n * c <= m) by (nonlinear_arith)
                requires
                    m == isize::MAX / 8,
            ;
        }
        ncols <= most
    }
}

impl Table {
    /// The rows of the table.
    pub open spec fn rows(&self) -> Seq<Seq<i64>> {
        table_rows(*self)
    }

    /// The number of columns.
    pub open spec fn width(&self) -> nat {
        table_width(*self)
    }

    /// Every row is as long as the table is wide.
    pub open spec fn is_rectangular(&self) -> bool {
        forall|i: int| 0 <= i < self.rows().len() ==> (#[trigger] self.rows()[i]).len() == self.width()
    }

    /// The cells of column `j`, top to bottom.
    pub open spec fn column(&self, j: int) -> Seq<i64> {
        Seq::new(self.rows().len(), |i: int| self.rows()[i][j])
    }

    /// A table of `nrows` by `ncols` zeros.
    pub fn zeros(nrows: usize, ncols: usize) -> (t: Table)
        requires
            table_fits(nrows as int, ncols as int),
        ensures
            t.rows().len() == nrows,
            t.width() == ncols,
            t.is_rectangular(),
            forall|i: int, j: int| 0 <= i < nrows && 0 <= j < ncols ==> (#[trigger] t.rows()[i][j]) == 0,
    {
        matrix_zeros(nrows, ncols)
    }

    /// Builds a table from its rows. There is a table exactly when the rows
    /// are equally long and their cells fit in one allocation.
    pub fn from_rows(rows: &Vec<Vec<i64>>) -> (r: Option<Table>)
        ensures
            r.is_some() <==> is_rectangular(rows.deep_view(), width_of(rows.deep_view()))
                && table_fits(rows.len() as int, width_of(rows.deep_view()) as int),
            r.is_some() ==> r.unwrap().rows() == rows.deep_view() && r.unwrap().width() == width_of(
                rows.deep_view(),
            ),
    {
        let nrows: usize = rows.len();
        let ncols: usize = if nrows == 0 {
            0
        } else {
            rows[0].len()
        };
        let ghost model = rows.deep_view();
        assert(model.len() == nrows);
        assert(nrows > 0 ==> model[0] == rows[0]@);
        let mut i: usize = 0;
        while i < nrows
            invariant
                model == rows.deep_view(),
                nrows == rows.len(),
                ncols == width_of(model),
                i <= nrows,
                forall|k: int| 0 <= k < i ==> (#[trigger] model[k]).len() == ncols,
            decreases nrows - i,
        {
            assert(model[i as int] == rows[i as int]@);
            if rows[i].len() != ncols {
                return None;
            }
            i += 1;
        }
        if !shape_is_allocatable(nrows, ncols) {
            return None;
        }
        let mut t = matrix_zeros(nrows, ncols);
        let mut i: usize = 0;
        while i < nrows
            invariant
                model == rows.deep_view(),
                nrows == rows.len(),
                i <= nrows,
                is_rectangular(model, ncols as nat),
                t.rows().len() == nrows,
                t.width() == ncols,
                forall|k: int| 0 <= k < nrows ==> (#[trigger] t.rows()[k]).len() == ncols,
                forall|k: int| 0 <= k < i ==> (#[trigger] t.rows()[k]) == model[k],
            decreases nrows - i,
        {
            let row = &rows[i];
            assert(model[i as int] == row@);
            let mut j: usize = 0;
            while j < ncols
                invariant
                    i < nrows,
                    j <= ncols,
                    ncols == row.len(),
                    model.len() == nrows,
                    model[i as int] == row@,
                    t.rows().len() == nrows,
                    t.width() == ncols,
                    forall|k: int| 0 <= k < nrows ==> (#[trigger] t.rows()[k]).len() == ncols,
                    forall|k: int| 0 <= k < i ==> (#[trigger] t.rows()[k]) == model[k],
                    forall|c: int| 0 <= c < j ==> (#[trigger] t.rows()[i as int][c]) == row@[c],
                decreases ncols - j,
            {
                matrix_set(&mut t, i, j, row[j]);
                j += 1;
            }
            assert(t.rows()[i as int] =~= model[i as int]);
            i += 1;
        }
        assert(t.rows() =~= model);
        Some(t)
    }

    /// Copies of all rows, top to bottom.
    pub fn to_rows(&self) -> (rows: Vec<Vec<i64>>)
        ensures
            rows.deep_view() == self.rows(),
    {
        let n: usize = matrix_nrows(self);
        let mut rows: Vec<Vec<i64>> = Vec::new();
        let mut i: usize = 0;
        while i < n
            invariant
                n == self.rows().len(),
                i <= n,
                rows.len() == i,
                forall|k: int| 0 <= k < i ==> (#[trigger] rows[k])@ == self.rows()[k],
            decreases n - i,
        {
            rows.push(matrix_row(self, i));
            i += 1;
        }
        proof {
            let model = rows.deep_view();
            assert(model.len() == n);
            assert forall|k: int| 0 <= k < n implies model[k] == self.rows()[k] by {
                assert(model[k] == rows[k]@);
            }
            assert(model =~= self.rows());
        }
        rows
    }

    /// The number of rows.
    pub fn nrows(&self) -> (r: usize)
        ensures
            r == self.rows().len(),
            self.is_rectangular(),
    {
        matrix_nrows(self)
    }

    /// The number of columns.
    pub fn ncols(&self) -> (r: usize)
        ensures
            r == self.width(),
    {
        matrix_ncols(self)
    }

    /// A copy of row `i`, or nothing if there is no such row.
    pub fn row(&self, i: usize) -> (r: Option<Vec<i64>>)
        ensures
            r.is_some() <==> i < self.rows().len(),
            r.is_some() ==> r.unwrap()@ == self.rows()[i as int] && r.unwrap()@.len() == self.width(),
    {
        if i < matrix_nrows(self) {
            Some(matrix_row(self, i))
        } else {
            None
        }
    }

    /// A copy of column `j`, or nothing if there is no such column.
    pub fn get_column(&self, j: usize) -> (r: Option<Vec<i64>>)
        ensures
            r.is_some() <==> j < self.width(),
            r.is_some() ==> r.unwrap()@ == self.column(j as int),
    {
        if j < matrix_ncols(self) {
            let cells = matrix_column(self, j);
            assert(cells@ =~= self.column(j as int));
            Some(cells)
        } else {
            None
        }
    }

    /// Writes `v` into cell `j` of row `i`. Returns whether there is such a
    /// cell; if not, the table is left as it was.
    pub fn set(&mut self, i: usize, j: usize, v: i64) -> (done: bool)
        ensures
            done == (i < old(self).rows().len() && j < old(self).width()),
            final(self).width() == old(self).width(),
            done ==> final(self).rows() == old(self).rows().update(
                i as int,
                old(self).rows()[i as int].update(j as int, v),
            ),
            !done ==> final(self).rows() == old(self).rows(),
    {
        if i < matrix_nrows(self) && j < matrix_ncols(self) {
            matrix_set(self, i, j, v);
            true
        } else {
            false
        }
    }

    /// Writes `cells` into column `j`, top to bottom. Returns whether there
    /// is such a column and `cells` has one entry per row; if not, the table
    /// is left as it was.
    pub fn set_column(&mut self, j: usize, cells: &[i64]) -> (done: bool)
        ensures
            done == (j < old(self).width() && cells@.len() == old(self).rows().len()),
            final(self).width() == old(self).width(),
            final(self).rows().len() == old(self).rows().len(),
            final(self).is_rectangular(),
            done ==> final(self).column(j as int) == cells@,
            done ==> forall|c: int|
                0 <= c < old(self).width() && c != j ==> #[trigger] final(self).column(c) == old(
                    self,
                ).column(c),
            !done ==> final(self).rows() == old(self).rows(),
    {
        let n: usize = matrix_nrows(self);
        if j >= matrix_ncols(self) || cells.len() != n {
            return false;
        }
        let ghost before = self.rows();
        let mut i: usize = 0;
        while i < n
            invariant
                i <= n,
                n == cells.len(),
                self.width() == old(self).width(),
                j < self.width(),
                before == old(self).rows(),
                before.len() == n,
                self.rows().len() == n,
                forall|r: int| 0 <= r < n ==> (#[trigger] before[r]).len() == self.width(),
                forall|r: int| 0 <= r < n ==> (#[trigger] self.rows()[r]).len() == self.width(),
                forall|r: int| 0 <= r < i ==> (#[trigger] self.rows()[r])[j as int] == cells@[r],
                forall|r: int, c: int|
                    0 <= r < n && 0 <= c < self.width() && c != j ==> (#[trigger] self.rows()[r][c])
                        == before[r][c],
            decreases n - i,
        {
            matrix_set(self, i, j, cells[i]);
            i += 1;
        }
        proof {
            assert(self.column(j as int) =~= cells@);
            assert forall|c: int| 0 <= c < old(self).width() && c != j implies #[trigger] self.column(
                c,
            ) == old(self).column(c) by {
                assert(self.column(c) =~= old(self).column(c));
            }
        }
        true
    }
}

} // verus!
