//! Adjustment of the primary variable for confounders.
//!
//! A linear model predicts the primary variable from the confounders with
//! one slope per confounder. Given the slopes fitted to the source and those
//! fitted to the target, every source entity's primary value gives up what
//! the source's slopes predict for its confounder values and takes on what
//! the target's slopes predict for them. Slopes are given in parts per
//! [`SCALE`].

use crate::arith::{divide, fits_i64, magnitude, quotient, SCALE};
use crate::error::{Dimension, MutationError, Stage};
use crate::table::Table;
use vstd::prelude::*;

verus! {

/// What a change of slope by `shift` parts per [`SCALE`] predicts for an
/// entity whose confounder has the given value, rounded toward zero.
pub open spec fn predicted(shift: int, confounder: i64) -> int {
    quotient(shift * confounder, SCALE as int)
}

/// What the change from the source's to the target's slopes predicts for
/// entity `j` from its first `upto` confounders. Confounder `k` stands in
/// row `k + 1`.
pub open spec fn adjustment(
    rows: Seq<Seq<i64>>,
    slopes1: Seq<i64>,
    slopes2: Seq<i64>,
    j: int,
    upto: int,
) -> int
    decreases upto,
{
    if upto <= 0 {
        0
    } else {
        adjustment(rows, slopes1, slopes2, j, upto - 1) + predicted(
            slopes2[upto - 1] - slopes1[upto - 1],
            rows[upto][j],
        )
    }
}

/// The primary value of entity `j` after adjustment for its first `upto`
/// confounders.
pub open spec fn running_value(
    rows: Seq<Seq<i64>>,
    slopes1: Seq<i64>,
    slopes2: Seq<i64>,
    j: int,
    upto: int,
) -> int {
    rows[0][j] + adjustment(rows, slopes1, slopes2, j, upto)
}

/// The primary value of entity `j` after adjustment for all confounders.
pub open spec fn adjusted_value(rows: Seq<Seq<i64>>, slopes1: Seq<i64>, slopes2: Seq<i64>, j: int) -> int {
    running_value(rows, slopes1, slopes2, j, rows.len() - 1)
}

/// Whether the primary value of entity `j` fits in 64 bits after the
/// adjustment for each confounder in turn.
pub open spec fn adjustment_fits(
    rows: Seq<Seq<i64>>,
    slopes1: Seq<i64>,
    slopes2: Seq<i64>,
    j: int,
) -> bool {
    forall|k: int|
        0 <= k < rows.len() ==> fits_i64(#[trigger] running_value(rows, slopes1, slopes2, j, k))
}

/// The primary row after adjustment.
pub open spec fn adjusted_row(values1: Table, slopes1: Seq<i64>, slopes2: Seq<i64>) -> Seq<i64> {
    Seq::new(
        values1.width(),
        |j: int| adjusted_value(values1.rows(), slopes1, slopes2, j) as i64,
    )
}

/// Why a table cannot be adjusted, if anything. The conditions are asked in
/// this order: the table must have a primary row; there must be one slope of
/// each kind per confounder row; and the value of every entity must fit in
/// 64 bits after the adjustment for each confounder in turn.
pub open spec fn adjust_fault(values1: Table, slopes1: Seq<i64>, slopes2: Seq<i64>) -> Option<
    MutationError,
> {
    if values1.rows().len() == 0 {
        Some(MutationError::EmptyInput(Stage::Adjuster))
    } else if slopes1.len() != values1.rows().len() - 1 || slopes2.len() != values1.rows().len()
        - 1 {
        Some(MutationError::ShapeMismatch(Stage::Adjuster, Dimension::Slopes))
    } else if exists|j: int|
        0 <= j < values1.width() && !#[trigger] adjustment_fits(
            values1.rows(),
            slopes1,
            slopes2,
            j,
        ) {
        Some(MutationError::Overflow(Stage::Adjuster))
    } else {
        None
    }
}

/// A quotient is no larger in magnitude than a millionth of the dividend.
proof fn lemma_predicted_bound(shift: int, confounder: i64)
    requires
        -0x1_0000_0000_0000_0000 < shift < 0x1_0000_0000_0000_0000,
    ensures
        -0x8000_0000_0000_0000_0000_0000_0000_0000 < shift * confounder
            < 0x8000_0000_0000_0000_0000_0000_0000_0000,
        -0x1000_0000_0000_0000_0000_0000_0000 < predicted(shift, confounder)
            < 0x1000_0000_0000_0000_0000_0000_0000,
{
    let product = shift * confounder;
    assert(-0x8000_0000_0000_0000_0000_0000_0000_0000 < product
        < 0x8000_0000_0000_0000_0000_0000_0000_0000) by (nonlinear_arith)
        requires
            product == shift * confounder,
            -0x1_0000_0000_0000_0000 < shift < 0x1_0000_0000_0000_0000,
            -0x8000_0000_0000_0000 <= confounder < 0x8000_0000_0000_0000,
    ;
    assert(SCALE == 1_000_000);
    assert(magnitude(product) / 1_000_000 < 0x1000_0000_0000_0000_0000_0000_0000);
}

/// Without confounders there is nothing to adjust: whatever the slopes,
/// every primary value stays what it is.
pub proof fn lemma_no_confounders(values1: Table, slopes1: Seq<i64>, slopes2: Seq<i64>, j: int)
    requires
        values1.rows().len() == 1,
    ensures
        adjusted_value(values1.rows(), slopes1, slopes2, j) == values1.rows()[0][j],
{
}

/// The adjusted primary value of entity `j`, whose values in all rows are
/// `column`, if it fits in 64 bits after each step.
fn adjust_entity(
    column: &Vec<i64>,
    slopes1: &[i64],
    slopes2: &[i64],
    Ghost(rows): Ghost<Seq<Seq<i64>>>,
    Ghost(j): Ghost<int>,
) -> (r: Option<i64>)
    requires
        column.len() == rows.len(),
        column.len() > 0,
        slopes1.len() == column.len() - 1,
        slopes2.len() == column.len() - 1,
        forall|k: int| 0 <= k < column.len() ==> column[k] == rows[k][j],
    ensures
        r.is_some() <==> adjustment_fits(rows, slopes1@, slopes2@, j),
        r.is_some() ==> r.unwrap() == adjusted_value(rows, slopes1@, slopes2@, j),
{
    let n: usize = column.len();
    let mut acc: i64 = column[0];
    let mut k: usize = 1;
    while k < n
        invariant
            n == column.len(),
            n == rows.len(),
            1 <= k <= n,
            slopes1.len() == n - 1,
            slopes2.len() == n - 1,
            forall|i: int| 0 <= i < n ==> column[i] == rows[i][j],
            acc == running_value(rows, slopes1@, slopes2@, j, k - 1),
            forall|i: int|
                0 <= i < k ==> fits_i64(#[trigger] running_value(rows, slopes1@, slopes2@, j, i)),
        decreases n - k,
    {
        let shift: i128 = slopes2[k - 1] as i128 - slopes1[k - 1] as i128;
        proof {
            lemma_predicted_bound(shift as int, column[k as int]);
        }
        let product: i128 = shift * (column[k] as i128);
        let term: i128 = divide(product, SCALE as i128);
        let total: i128 = acc as i128 + term;
        assert(total == running_value(rows, slopes1@, slopes2@, j, k as int));
        if total < i64::MIN as i128 || total > i64::MAX as i128 {
            return None;
        }
        acc = total as i64;
        k += 1;
    }
    Some(acc)
}

/// Adjusts the primary row of `values1` for its confounders: every entity's
/// primary value gives up what `slopes1` predict for its confounder values
/// and takes on what `slopes2` predict for them. The confounder rows stay
/// as they are, and so does the whole table when the adjustment fails or
/// when there is no confounder. The adjustment fails with an overflow when
/// the value of an entity leaves 64 bits after the step for any confounder.
pub fn adj_for_beta(values1: &mut Table, slopes1: &[i64], slopes2: &[i64]) -> (r: Result<
    (),
    MutationError,
>)
    ensures
        final(values1).width() == old(values1).width(),
        match r {
            Ok(_) => adjust_fault(*old(values1), slopes1@, slopes2@).is_none()
                && final(values1).rows() == old(values1).rows().update(
                0,
                adjusted_row(*old(values1), slopes1@, slopes2@),
            ),
            Err(e) => adjust_fault(*old(values1), slopes1@, slopes2@) == Some(e)
                && final(values1).rows() == old(values1).rows(),
        },
        old(values1).rows().len() == 1 ==> final(values1).rows() == old(values1).rows(),
        old(values1).rows().len() == 1 && slopes1@.len() == 0 && slopes2@.len() == 0 ==> r.is_ok(),
{
    let n: usize = values1.nrows();
    let w: usize = values1.ncols();
    if n == 0 {
        return Err(MutationError::EmptyInput(Stage::Adjuster));
    }
    if slopes1.len() != n - 1 || slopes2.len() != n - 1 {
        return Err(MutationError::ShapeMismatch(Stage::Adjuster, Dimension::Slopes));
    }
    let ghost rows = values1.rows();
    let mut adjusted: Vec<i64> = Vec::new();
    let mut j: usize = 0;
    while j < w
        invariant
            values1.rows() == rows,
            values1.width() == w,
            values1.is_rectangular(),
            n == rows.len(),
            n > 0,
            slopes1.len() == n - 1,
            slopes2.len() == n - 1,
            j <= w,
            adjusted.len() == j,
            forall|i: int| 0 <= i < j ==> #[trigger] adjustment_fits(rows, slopes1@, slopes2@, i),
            forall|i: int|
                0 <= i < j ==> (#[trigger] adjusted[i]) == adjusted_value(rows, slopes1@, slopes2@, i),
        decreases w - j,
    {
        let column = match values1.get_column(j) {
            Some(column) => column,
            None => {
                assert(false);
                return Err(MutationError::ShapeMismatch(Stage::Adjuster, Dimension::Slopes));
            },
        };
        assert forall|k: int| 0 <= k < column.len() implies column[k] == rows[k][j as int] by {
            assert(column@[k] == values1.column(j as int)[k]);
        }
        match adjust_entity(&column, slopes1, slopes2, Ghost(rows), Ghost(j as int)) {
            Some(value) => {
                adjusted.push(value);
            },
            None => {
                return Err(MutationError::Overflow(Stage::Adjuster));
            },
        }
        j += 1;
    }
    let ghost wanted = adjusted_row(*values1, slopes1@, slopes2@);
    assert(adjusted@ =~= wanted);
    let mut j: usize = 0;
    while j < w
        invariant
            values1.width() == w,
            rows.len() == n,
            n > 0,
            rows[0].len() == w,
            wanted.len() == w,
            adjusted@ == wanted,
            j <= w,
            values1.rows() == rows.update(0, values1.rows()[0]),
            values1.rows()[0].len() == w,
            forall|i: int| 0 <= i < j ==> (#[trigger] values1.rows()[0][i]) == wanted[i],
            forall|i: int| j <= i < w ==> (#[trigger] values1.rows()[0][i]) == rows[0][i],
        decreases w - j,
    {
        values1.set(0, j, adjusted[j]);
        proof {
            assert(values1.rows() =~= rows.update(0, values1.rows()[0]));
        }
        j += 1;
    }
    proof {
        assert(values1.rows()[0] =~= wanted);
        if n == 1 {
            assert forall|i: int| 0 <= i < w implies wanted[i] == rows[0][i] by {
                assert(adjusted_value(rows, slopes1@, slopes2@, i) == rows[0][i]);
            }
            assert(wanted =~= rows[0]);
            assert(rows.update(0, wanted) =~= rows);
        }
    }
    Ok(())
}

} // verus!
