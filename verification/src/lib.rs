//! Mutation of one population's observations towards another's.
//!
//! Every source entity is matched to its own nearest target entity along the
//! primary variable, the signed distance to that target is taken, and values
//! and distances are averaged within caller-supplied groups.
//!
//! All quantities are exact integers in a unit of the caller's choosing;
//! relative distances and slopes are given in parts per [`arith::SCALE`].
//!
//! The stages, in the order in which a run passes through them:
//! - [`mlr`] adjusts the primary variable of the source for its confounders;
//! - [`vector_fns`], [`matching`] and [`distance`] order the source
//!   entities, match each to a target and take the distances;
//! - [`aggregate`] reduces values and distances to group means;
//! - [`uamutate`] runs matching, distances and aggregation in one call.
//!
//! Observations live in a [`grid::Grid`] or a [`table::Table`], which keep
//! their cells in an `ndarray` array and in an `nalgebra` matrix.

pub mod aggregate;
pub mod arith;
pub mod distance;
pub mod error;
pub mod grid;
pub mod matching;
pub mod mlr;
pub mod rearrange;
pub mod table;
pub mod vector_fns;

use crate::aggregate::{
    aggregate_columns, aggregate_fault, is_aggregate_of, lemma_aggregate_rearranged,
    mutated_values, mutation_fits,
};
use crate::aggregate::max_group;
use crate::distance::{
    entity_outcome, in_range, lemma_distances_exist, lemma_no_fault, lemma_row_dists_rearranged,
    nearest_dists, row_dists,
};
use crate::table::table_fits;
use crate::matching::matching;
use crate::error::{Dimension, MutationError, Stage};
use crate::rearrange::is_rearranged;
use crate::table::Table;
use crate::vector_fns::keeps_ties_in_order;
use vstd::prelude::*;

verus! {

/// The absolute and the relative distances between two primary rows, as the
/// two distance columns of the aggregate.
pub open spec fn distance_columns(sources: Seq<i64>, targets: Seq<i64>) -> Seq<Seq<i64>> {
    seq![row_dists(sources, targets, true)->Ok_0, row_dists(sources, targets, false)->Ok_0]
}

/// Why a source and a target population cannot be mutated and aggregated, if
/// anything. The conditions are asked in this order, and the first that
/// fails is reported: both populations must hold observations; they must
/// have the same variables; every source entity must have a group number;
/// and then every stage must succeed: absolute distances, relative
/// distances, aggregation.
pub open spec fn mutation_fault(values1: Table, values2: Table, groups: Seq<usize>) -> Option<
    MutationError,
> {
    if values1.rows().len() == 0 || values1.width() == 0 || values2.rows().len() == 0
        || values2.width() == 0 {
        Some(MutationError::EmptyInput(Stage::Matcher))
    } else if values1.rows().len() != values2.rows().len() {
        Some(MutationError::ShapeMismatch(Stage::Matcher, Dimension::Variables))
    } else if groups.len() != values1.width() {
        Some(MutationError::ShapeMismatch(Stage::Aggregator, Dimension::Groups))
    } else {
        let sources = values1.rows()[0];
        let targets = values2.rows()[0];
        match row_dists(sources, targets, true) {
            Err(e) => Some(e),
            Ok(_) => match row_dists(sources, targets, false) {
                Err(e) => Some(e),
                Ok(_) => aggregate_fault(sources, distance_columns(sources, targets), groups),
            },
        }
    }
}

/// Mutates a source population towards a target population and aggregates
/// the outcome to groups.
///
/// `values1` and `values2` hold one row per variable and one column per
/// entity, the primary variable in row 0; `groups1` holds the group number
/// of each source entity. Every source entity is matched to a target entity
/// of its own, nearest along the primary variable. The result has one row
/// per group and four columns: the group means of the observed values, of
/// the mutated values, of the absolute distances and of the relative
/// distances.
pub fn uamutate(values1: &Table, values2: &Table, groups1: &[usize]) -> (r: Result<
    Table,
    MutationError,
>)
    ensures
        match r {
            Ok(t) => mutation_fault(*values1, *values2, groups1@).is_none() && is_aggregate_of(
                t,
                values1.rows()[0],
                distance_columns(values1.rows()[0], values2.rows()[0]),
                groups1@,
            ),
            Err(e) => mutation_fault(*values1, *values2, groups1@) == Some(e),
        },
{
    if values1.nrows() == 0 || values1.ncols() == 0 || values2.nrows() == 0 || values2.ncols() == 0 {
        return Err(MutationError::EmptyInput(Stage::Matcher));
    }
    if values1.nrows() != values2.nrows() {
        return Err(MutationError::ShapeMismatch(Stage::Matcher, Dimension::Variables));
    }
    if groups1.len() != values1.ncols() {
        return Err(MutationError::ShapeMismatch(Stage::Aggregator, Dimension::Groups));
    }
    let sources = match values1.row(0) {
        Some(row) => row,
        None => {
            return Err(MutationError::EmptyInput(Stage::Matcher));
        },
    };
    let targets = match values2.row(0) {
        Some(row) => row,
        None => {
            return Err(MutationError::EmptyInput(Stage::Matcher));
        },
    };
    let absolute = match nearest_dists(sources.as_slice(), targets.as_slice(), true) {
        Ok(d) => d,
        Err(e) => {
            return Err(e);
        },
    };
    let relative = match nearest_dists(sources.as_slice(), targets.as_slice(), false) {
        Ok(d) => d,
        Err(e) => {
            return Err(e);
        },
    };
    let ghost wanted = distance_columns(sources@, targets@);
    let mut columns: Vec<Vec<i64>> = Vec::new();
    columns.push(absolute);
    columns.push(relative);
    proof {
        let model = columns.deep_view();
        assert(model.len() == 2);
        assert(model[0] == columns[0]@);
        assert(model[1] == columns[1]@);
        assert(model =~= wanted);
    }
    aggregate_columns(sources.as_slice(), &columns, groups1)
}

/// Mutation moves every source entity onto its target: the value of an
/// entity plus its absolute distance is the value of its matched target,
/// which always fits in 64 bits.
pub proof fn lemma_mutated_values_are_targets(sources: Seq<i64>, targets: Seq<i64>)
    requires
        row_dists(sources, targets, true).is_ok(),
    ensures
        mutation_fits(sources, row_dists(sources, targets, true)->Ok_0),
        forall|i: int|
            0 <= i < sources.len() ==> #[trigger] mutated_values(
                sources,
                row_dists(sources, targets, true)->Ok_0,
            )[i] == targets[matching(sources, targets)[i]],
{
    let d = row_dists(sources, targets, true)->Ok_0;
    assert forall|i: int| 0 <= i < sources.len() implies sources[i] + d[i]
        == targets[matching(sources, targets)[i]] by {
        lemma_no_fault(sources, targets, true, sources.len() as int, i);
        assert(entity_outcome(sources, targets, true, i).is_ok());
    }
}

/// Success is owed on populations of one shape whose primary rows are in
/// range for relative distances, with one group number per source entity
/// and groups few enough for the result to be allocated. The aggregate then
/// has one row per group up to the largest group number, and four columns.
pub proof fn lemma_mutation_succeeds(values1: Table, values2: Table, groups: Seq<usize>)
    requires
        values1.is_rectangular(),
        values2.is_rectangular(),
        0 < values1.width() <= usize::MAX,
        0 < values1.rows().len(),
        values1.rows().len() == values2.rows().len(),
        values1.width() == values2.width(),
        groups.len() == values1.width(),
        in_range(values1.rows()[0], values2.rows()[0], false),
        table_fits(max_group(groups) as int, 4),
    ensures
        mutation_fault(values1, values2, groups).is_none(),
        forall|t: Table|
            is_aggregate_of(
                t,
                values1.rows()[0],
                distance_columns(values1.rows()[0], values2.rows()[0]),
                groups,
            ) ==> t.rows().len() == max_group(groups) && t.width() == 4,
{
    let sources = values1.rows()[0];
    let targets = values2.rows()[0];
    assert(in_range(sources, targets, true));
    lemma_distances_exist(sources, targets, true);
    lemma_distances_exist(sources, targets, false);
    lemma_mutated_values_are_targets(sources, targets);
    let columns = distance_columns(sources, targets);
    assert forall|c: int| 0 <= c < columns.len() implies (#[trigger] columns[c]).len()
        == groups.len() by {
        if c == 0 {
        } else {
            assert(c == 1);
        }
    }
}

/// The outcome does not depend on the order of the source entities. If the
/// primary row of the source and the group numbers are rearranged alike, and
/// entities of equal value keep their order among themselves, then a
/// mutation that succeeded succeeds again, with the same aggregate.
///
/// Entities of equal value must keep their order because the one that
/// stands first chooses its target first.
pub proof fn lemma_mutation_rearranged(
    values1: Table,
    moved1: Table,
    values2: Table,
    groups: Seq<usize>,
    moved_groups: Seq<usize>,
    p: Seq<int>,
)
    requires
        values1.rows()[0].len() <= usize::MAX,
        moved1.rows().len() == values1.rows().len(),
        moved1.width() == values1.width(),
        is_rearranged(values1.rows()[0], moved1.rows()[0], p),
        is_rearranged(groups, moved_groups, p),
        keeps_ties_in_order(moved1.rows()[0], false, p),
        mutation_fault(values1, values2, groups).is_none(),
    ensures
        mutation_fault(moved1, values2, moved_groups).is_none(),
        forall|t: Table|
            is_aggregate_of(
                t,
                moved1.rows()[0],
                distance_columns(moved1.rows()[0], values2.rows()[0]),
                moved_groups,
            ) <==> is_aggregate_of(
                t,
                values1.rows()[0],
                distance_columns(values1.rows()[0], values2.rows()[0]),
                groups,
            ),
{
    let sources = values1.rows()[0];
    let moved = moved1.rows()[0];
    let targets = values2.rows()[0];
    lemma_row_dists_rearranged(sources, moved, targets, true, p);
    lemma_row_dists_rearranged(sources, moved, targets, false, p);
    let columns = distance_columns(sources, targets);
    let moved_columns = distance_columns(moved, targets);
    assert forall|c: int| 0 <= c < columns.len() implies is_rearranged(
        #[trigger] columns[c],
        moved_columns[c],
        p,
    ) by {
        if c == 0 {
        } else {
            assert(c == 1);
        }
    }
    lemma_aggregate_rearranged(sources, columns, groups, moved, moved_columns, moved_groups, p);
}

} // verus!
