//! Group means: per-entity values reduced to one value per group.
//!
//! Groups are numbered from 1. The mean of group `g` stands at position
//! `g - 1`; a group without members has mean 0; members of a group 0 are
//! counted nowhere.

use crate::arith::{divide, fits_i64, quotient};
use crate::error::{Dimension, MutationError, Stage};
use crate::rearrange::{is_rearranged, lemma_rearrangement_covers, lemma_total_rearranged, total};
use crate::table::{shape_is_allocatable, table_fits, Table};
use vstd::prelude::*;

verus! {

/// The largest group number in `groups`, 0 if there is none.
pub open spec fn max_group(groups: Seq<usize>) -> nat
    decreases groups.len(),
{
    if groups.len() == 0 {
        0
    } else {
        let rest = max_group(groups.drop_last());
        if groups.last() > rest {
            groups.last() as nat
        } else {
            rest
        }
    }
}

/// How many of the first `upto` entities belong to group `g`.
pub open spec fn member_count(groups: Seq<usize>, g: int, upto: int) -> nat
    decreases upto,
{
    if upto <= 0 {
        0
    } else {
        member_count(groups, g, upto - 1) + if groups[upto - 1] == g {
            1nat
        } else {
            0nat
        }
    }
}

/// The sum of the values of those of the first `upto` entities that belong
/// to group `g`.
pub open spec fn member_sum(values: Seq<i64>, groups: Seq<usize>, g: int, upto: int) -> int
    decreases upto,
{
    if upto <= 0 {
        0
    } else {
        member_sum(values, groups, g, upto - 1) + if groups[upto - 1] == g {
            values[upto - 1] as int
        } else {
            0
        }
    }
}

/// The mean value of group `g`, rounded toward zero; 0 for a group without
/// members.
pub open spec fn group_mean(values: Seq<i64>, groups: Seq<usize>, g: int) -> int {
    let members = member_count(groups, g, groups.len() as int);
    if members == 0 {
        0
    } else {
        quotient(member_sum(values, groups, g, groups.len() as int), members as int)
    }
}

/// The means of groups 1 to the largest group number, in that order.
pub open spec fn group_means(values: Seq<i64>, groups: Seq<usize>) -> Seq<i64> {
    Seq::new(max_group(groups), |r: int| group_mean(values, groups, r + 1) as i64)
}

/// No group number exceeds the largest.
pub proof fn lemma_max_group_bounds(groups: Seq<usize>, i: int)
    requires
        0 <= i < groups.len(),
    ensures
        groups[i] <= max_group(groups),
    decreases groups.len(),
{
    if i < groups.len() - 1 {
        lemma_max_group_bounds(groups.drop_last(), i);
    }
}

/// The largest group number is 0 or the number of some entity.
pub proof fn lemma_max_group_occurs(groups: Seq<usize>)
    ensures
        max_group(groups) <= usize::MAX,
        max_group(groups) > 0 ==> exists|i: int| 0 <= i < groups.len() && groups[i] == max_group(groups),
    decreases groups.len(),
{
    if groups.len() > 0 {
        let front = groups.drop_last();
        lemma_max_group_occurs(front);
        if groups.last() > max_group(front) {
            assert(groups[groups.len() - 1] == max_group(groups));
        } else if max_group(front) > 0 {
            let i = choose|i: int| 0 <= i < front.len() && front[i] == max_group(front);
            assert(groups[i] == max_group(groups));
        }
    }
}

/// A group has at most as many members as there are entities, and the sum of
/// their values lies within that many times the range of one value.
pub proof fn lemma_member_bounds(values: Seq<i64>, groups: Seq<usize>, g: int, upto: int)
    requires
        0 <= upto,
    ensures
        member_count(groups, g, upto) <= upto,
        member_count(groups, g, upto) * i64::MIN <= member_sum(values, groups, g, upto),
        member_sum(values, groups, g, upto) <= member_count(groups, g, upto) * i64::MAX,
    decreases upto,
{
    if upto > 0 {
        lemma_member_bounds(values, groups, g, upto - 1);
    }
}

/// The mean of values that fit in 64 bits fits in 64 bits.
pub proof fn lemma_mean_fits(sum: int, members: int)
    requires
        members > 0,
        members * i64::MIN <= sum <= members * i64::MAX,
    ensures
        fits_i64(quotient(sum, members)),
{
    if sum >= 0 {
        assert(sum / members <= i64::MAX) by (nonlinear_arith)
            requires
                members > 0,
                0 <= sum <= members * i64::MAX,
        ;
        assert(sum / members >= 0) by (nonlinear_arith)
            requires
                members > 0,
                0 <= sum,
        ;
    } else {
        assert((-sum) / members <= -i64::MIN) by (nonlinear_arith)
            requires
                members > 0,
                0 <= -sum <= members * (-i64::MIN),
        ;
        assert((-sum) / members >= 0) by (nonlinear_arith)
            requires
                members > 0,
                0 <= -sum,
        ;
    }
}

/// A group without members has mean 0.
pub proof fn lemma_vacant_group_mean(values: Seq<i64>, groups: Seq<usize>, g: int)
    requires
        forall|i: int| 0 <= i < groups.len() ==> groups[i] != g,
    ensures
        group_mean(values, groups, g) == 0,
{
    lemma_no_member(groups, g, groups.len() as int);
}

proof fn lemma_no_member(groups: Seq<usize>, g: int, upto: int)
    requires
        upto <= groups.len(),
        forall|i: int| 0 <= i < groups.len() ==> groups[i] != g,
    ensures
        member_count(groups, g, upto) == 0,
    decreases upto,
{
    if upto > 0 {
        lemma_no_member(groups, g, upto - 1);
    }
}

/// Finds the largest group number.
pub fn largest_group(groups: &[usize]) -> (m: usize)
    ensures
        m == max_group(groups@),
{
    let mut m: usize = 0;
    let mut i: usize = 0;
    while i < groups.len()
        invariant
            i <= groups.len(),
            m == max_group(groups@.take(i as int)),
        decreases groups.len() - i,
    {
        proof {
            assert(groups@.take(i + 1).drop_last() =~= groups@.take(i as int));
        }
        if groups[i] > m {
            m = groups[i];
        }
        i += 1;
    }
    proof {
        assert(groups@.take(groups.len() as int) =~= groups@);
    }
    m
}

/// Why a column of `values` entries cannot be averaged within `groups`
/// group numbers, if anything: there must be an entity, which is asked
/// first, and every entity must have a group number.
pub open spec fn column_fault(values: nat, groups: nat) -> Option<MutationError> {
    if groups == 0 {
        Some(MutationError::EmptyInput(Stage::Aggregator))
    } else if values != groups {
        Some(MutationError::ShapeMismatch(Stage::Aggregator, Dimension::Groups))
    } else {
        None
    }
}

/// Averages `dists` within the groups that `groups` assigns its entities to.
/// There must be at least one entity, and the two must be equally long.
pub fn aggregate_to_groups_single_col(dists: &[i64], groups: &[usize]) -> (r: Result<
    Vec<i64>,
    MutationError,
>)
    ensures
        match r {
            Ok(means) => column_fault(dists@.len(), groups@.len()).is_none() && means@
                == group_means(dists@, groups@),
            Err(e) => column_fault(dists@.len(), groups@.len()) == Some(e),
        },
{
    let n: usize = groups.len();
    if n == 0 {
        return Err(MutationError::EmptyInput(Stage::Aggregator));
    }
    if dists.len() != n {
        return Err(MutationError::ShapeMismatch(Stage::Aggregator, Dimension::Groups));
    }
    let top: usize = largest_group(groups);
    let mut counts: Vec<usize> = Vec::new();
    let mut sums: Vec<i128> = Vec::new();
    let mut r: usize = 0;
    while r < top
        invariant
            r <= top,
            counts.len() == r,
            sums.len() == r,
            forall|k: int| 0 <= k < r ==> (#[trigger] counts[k]) == 0,
            forall|k: int| 0 <= k < r ==> (#[trigger] sums[k]) == 0,
        decreases top - r,
    {
        counts.push(0);
        sums.push(0);
        r += 1;
    }
    let mut i: usize = 0;
    while i < n
        invariant
            n == groups.len(),
            n == dists.len(),
            top == max_group(groups@),
            i <= n,
            counts.len() == top,
            sums.len() == top,
            forall|k: int|
                0 <= k < top ==> (#[trigger] counts[k]) == member_count(groups@, k + 1, i as int),
            forall|k: int|
                0 <= k < top ==> (#[trigger] sums[k]) == member_sum(dists@, groups@, k + 1, i as int),
        decreases n - i,
    {
        let g: usize = groups[i];
        proof {
            lemma_max_group_bounds(groups@, i as int);
        }
        if g >= 1 {
            proof {
                lemma_member_bounds(dists@, groups@, g as int, i as int);
                lemma_member_bounds(dists@, groups@, g as int, i + 1);
                assert(member_count(groups@, g as int, i as int) * i64::MIN >= i * i64::MIN)
                    by (nonlinear_arith)
                    requires
                        member_count(groups@, g as int, i as int) <= i,
                ;
                assert(member_count(groups@, g as int, i as int) * i64::MAX <= i * i64::MAX)
                    by (nonlinear_arith)
                    requires
                        member_count(groups@, g as int, i as int) <= i,
                ;
                assert(i * i64::MAX <= usize::MAX * i64::MAX) by (nonlinear_arith)
                    requires
                        i <= usize::MAX,
                ;
                assert(i * i64::MIN >= usize::MAX * i64::MIN) by (nonlinear_arith)
                    requires
                        i <= usize::MAX,
                ;
            }
            let c: usize = counts[g - 1];
            let s: i128 = sums[g - 1];
            counts.set(g - 1, c + 1);
            sums.set(g - 1, s + dists[i] as i128);
        }
        i += 1;
    }
    let mut means: Vec<i64> = Vec::new();
    let mut k: usize = 0;
    while k < top
        invariant
            n == groups.len(),
            n == dists.len(),
            top == max_group(groups@),
            k <= top,
            counts.len() == top,
            sums.len() == top,
            forall|j: int|
                0 <= j < top ==> (#[trigger] counts[j]) == member_count(groups@, j + 1, n as int),
            forall|j: int|
                0 <= j < top ==> (#[trigger] sums[j]) == member_sum(dists@, groups@, j + 1, n as int),
            means.len() == k,
            forall|j: int| 0 <= j < k ==> (#[trigger] means[j]) == group_mean(dists@, groups@, j + 1) as i64,
        decreases top - k,
    {
        let c: usize = counts[k];
        let mean: i64 = if c == 0 {
            0
        } else {
            proof {
                lemma_member_bounds(dists@, groups@, k + 1, n as int);
                lemma_mean_fits(sums[k as int] as int, c as int);
            }
            divide(sums[k], c as i128) as i64
        };
        means.push(mean);
        k += 1;
    }
    proof {
        assert(means@ =~= group_means(dists@, groups@));
    }
    Ok(means)
}

/// Each value moved by the shift at its position.
pub open spec fn mutated_values(values: Seq<i64>, shifts: Seq<i64>) -> Seq<i64> {
    Seq::new(values.len(), |i: int| (values[i] + shifts[i]) as i64)
}

/// Whether every value, moved by its shift, still fits in 64 bits.
pub open spec fn mutation_fits(values: Seq<i64>, shifts: Seq<i64>) -> bool {
    forall|i: int| 0 <= i < values.len() ==> fits_i64(#[trigger] values[i] + shifts[i])
}

/// Why values, distance columns and groups cannot be aggregated, if
/// anything. The conditions are asked in this order, and the first that
/// fails is reported: there must be an entity, that is a group number; there
/// must be a column of absolute distances; every entity must have a value;
/// every distance column must have one entry per entity; the result must be
/// small enough to allocate; and the mutated values must fit in 64 bits.
pub open spec fn aggregate_fault(values: Seq<i64>, columns: Seq<Seq<i64>>, groups: Seq<usize>) -> Option<
    MutationError,
> {
    if groups.len() == 0 {
        Some(MutationError::EmptyInput(Stage::Aggregator))
    } else if columns.len() == 0 {
        Some(MutationError::ShapeMismatch(Stage::Aggregator, Dimension::DistanceColumns))
    } else if values.len() != groups.len() {
        Some(MutationError::ShapeMismatch(Stage::Aggregator, Dimension::Groups))
    } else if exists|c: int|
        0 <= c < columns.len() && (#[trigger] columns[c]).len() != groups.len() {
        Some(MutationError::ShapeMismatch(Stage::Aggregator, Dimension::DistanceRows))
    } else if !table_fits(max_group(groups) as int, (columns.len() + 2) as int) {
        Some(MutationError::TooLarge(Stage::Aggregator))
    } else if !mutation_fits(values, columns[0]) {
        Some(MutationError::Overflow(Stage::Aggregator))
    } else {
        None
    }
}

/// Why tables of values and of distances cannot be aggregated, if anything:
/// the values must have a primary row, and then the primary row, the columns
/// of the distances and the groups must be without fault.
pub open spec fn table_aggregate_fault(values1: Table, dists: Table, groups: Seq<usize>) -> Option<
    MutationError,
> {
    if values1.rows().len() == 0 {
        Some(MutationError::EmptyInput(Stage::Aggregator))
    } else {
        aggregate_fault(values1.rows()[0], columns_of(dists), groups)
    }
}

/// Column `c` of the aggregate: the group means of the observed values, of
/// the mutated values, and then of each distance column in turn.
pub open spec fn aggregated_column(
    values: Seq<i64>,
    columns: Seq<Seq<i64>>,
    groups: Seq<usize>,
    c: int,
) -> Seq<i64> {
    if c == 0 {
        group_means(values, groups)
    } else if c == 1 {
        group_means(mutated_values(values, columns[0]), groups)
    } else {
        group_means(columns[c - 2], groups)
    }
}

/// `t` is the aggregate of the given values and distance columns: one row
/// per group up to the largest group number, two columns more than there are
/// distance columns.
pub open spec fn is_aggregate_of(
    t: Table,
    values: Seq<i64>,
    columns: Seq<Seq<i64>>,
    groups: Seq<usize>,
) -> bool {
    &&& t.rows().len() == max_group(groups)
    &&& t.width() == columns.len() + 2
    &&& t.is_rectangular()
    &&& forall|c: int|
        0 <= c < columns.len() + 2 ==> #[trigger] t.column(c) == aggregated_column(
            values,
            columns,
            groups,
            c,
        )
}

/// The distance columns of a table of distances, left to right.
pub open spec fn columns_of(dists: Table) -> Seq<Seq<i64>> {
    Seq::new(dists.width(), |c: int| dists.column(c))
}

/// Moves each value by its shift, if all results fit in 64 bits.
fn mutate_values(values: &[i64], shifts: &[i64]) -> (r: Option<Vec<i64>>)
    requires
        values.len() == shifts.len(),
    ensures
        r.is_some() <==> mutation_fits(values@, shifts@),
        r.is_some() ==> r.unwrap()@ == mutated_values(values@, shifts@),
{
    let n: usize = values.len();
    let mut moved: Vec<i64> = Vec::new();
    let mut i: usize = 0;
    while i < n
        invariant
            n == values.len(),
            n == shifts.len(),
            i <= n,
            moved.len() == i,
            forall|k: int| 0 <= k < i ==> fits_i64(#[trigger] values[k] + shifts[k]),
            forall|k: int| 0 <= k < i ==> (#[trigger] moved[k]) == (values[k] + shifts[k]) as i64,
        decreases n - i,
    {
        let sum: i128 = values[i] as i128 + shifts[i] as i128;
        if sum < i64::MIN as i128 || sum > i64::MAX as i128 {
            assert(!fits_i64(values[i as int] + shifts[i as int]));
            return None;
        }
        moved.push(sum as i64);
        i += 1;
    }
    proof {
        assert(moved@ =~= mutated_values(values@, shifts@));
    }
    Some(moved)
}

/// Averages the values, the mutated values and every distance column within
/// groups. `columns[0]` holds the absolute distances, by which the values are
/// mutated.
pub fn aggregate_columns(values: &[i64], columns: &Vec<Vec<i64>>, groups: &[usize]) -> (r: Result<
    Table,
    MutationError,
>)
    ensures
        match r {
            Ok(t) => aggregate_fault(values@, columns.deep_view(), groups@).is_none()
                && is_aggregate_of(t, values@, columns.deep_view(), groups@),
            Err(e) => aggregate_fault(values@, columns.deep_view(), groups@) == Some(e),
        },
{
    let ghost model = columns.deep_view();
    let n: usize = groups.len();
    let k: usize = columns.len();
    assert(model.len() == k);
    if n == 0 {
        return Err(MutationError::EmptyInput(Stage::Aggregator));
    }
    if k == 0 {
        return Err(MutationError::ShapeMismatch(Stage::Aggregator, Dimension::DistanceColumns));
    }
    if values.len() != n {
        return Err(MutationError::ShapeMismatch(Stage::Aggregator, Dimension::Groups));
    }
    let mut c: usize = 0;
    while c < k
        invariant
            model == columns.deep_view(),
            k == columns.len(),
            k > 0,
            c <= k,
            n == groups.len(),
            n > 0,
            values.len() == n,
            forall|j: int| 0 <= j < c ==> (#[trigger] model[j]).len() == n,
        decreases k - c,
    {
        assert(model[c as int] == columns[c as int]@);
        if columns[c].len() != n {
            return Err(MutationError::ShapeMismatch(Stage::Aggregator, Dimension::DistanceRows));
        }
        c += 1;
    }
    let top: usize = largest_group(groups);
    if k > usize::MAX - 2 || !shape_is_allocatable(top, k + 2) {
        return Err(MutationError::TooLarge(Stage::Aggregator));
    }
    assert(model[0] == columns[0]@);
    let moved = match mutate_values(values, columns[0].as_slice()) {
        Some(moved) => moved,
        None => {
            return Err(MutationError::Overflow(Stage::Aggregator));
        },
    };
    let mut t = Table::zeros(top, k + 2);
    match aggregate_to_groups_single_col(values, groups) {
        Ok(means) => {
            t.set_column(0, means.as_slice());
        },
        Err(e) => {
            return Err(e);
        },
    }
    match aggregate_to_groups_single_col(moved.as_slice(), groups) {
        Ok(means) => {
            t.set_column(1, means.as_slice());
        },
        Err(e) => {
            return Err(e);
        },
    }
    let mut c: usize = 0;
    while c < k
        invariant
            model == columns.deep_view(),
            k == columns.len(),
            k + 2 <= usize::MAX,
            c <= k,
            n == groups.len(),
            forall|j: int| 0 <= j < k ==> (#[trigger] model[j]).len() == n,
            t.rows().len() == max_group(groups@),
            t.width() == k + 2,
            t.is_rectangular(),
            forall|j: int|
                0 <= j < c + 2 ==> #[trigger] t.column(j) == aggregated_column(
                    values@,
                    model,
                    groups@,
                    j,
                ),
        decreases k - c,
    {
        assert(model[c as int] == columns[c as int]@);
        match aggregate_to_groups_single_col(columns[c].as_slice(), groups) {
            Ok(means) => {
                t.set_column(c + 2, means.as_slice());
            },
            Err(e) => {
                return Err(e);
            },
        }
        c += 1;
    }
    Ok(t)
}

/// Aggregates a population to its groups. Row 0 of `values1` holds the
/// observed value of each entity; `dists` holds one row per entity and, in
/// its first column, the absolute distance by which the entity is mutated.
///
/// The result has one row per group and, left to right, the group means of
/// the observed values, of the mutated values, and of each column of `dists`.
/// A population without entities is rejected.
pub fn aggregate_to_groups(values1: &Table, dists: &Table, groups: &[usize]) -> (r: Result<
    Table,
    MutationError,
>)
    ensures
        match r {
            Ok(t) => table_aggregate_fault(*values1, *dists, groups@).is_none() && is_aggregate_of(
                t,
                values1.rows()[0],
                columns_of(*dists),
                groups@,
            ),
            Err(e) => table_aggregate_fault(*values1, *dists, groups@) == Some(e),
        },
{
    let values = match values1.row(0) {
        Some(values) => values,
        None => {
            return Err(MutationError::EmptyInput(Stage::Aggregator));
        },
    };
    let k: usize = dists.ncols();
    let mut columns: Vec<Vec<i64>> = Vec::new();
    let mut c: usize = 0;
    while c < k
        invariant
            k == dists.width(),
            c <= k,
            columns.len() == c,
            forall|j: int| 0 <= j < c ==> (#[trigger] columns[j])@ == dists.column(j),
        decreases k - c,
    {
        match dists.get_column(c) {
            Some(cells) => {
                columns.push(cells);
            },
            None => {
                assert(false);
            },
        }
        c += 1;
    }
    proof {
        let model = columns.deep_view();
        assert(model.len() == k);
        assert forall|j: int| 0 <= j < k implies model[j] == columns_of(*dists)[j] by {
            assert(model[j] == columns[j]@);
        }
        assert(model =~= columns_of(*dists));
    }
    aggregate_columns(values.as_slice(), &columns, groups)
}

/// What each entity adds to the sum of group `g`: its value if it is a
/// member, else nothing.
pub open spec fn contributions(values: Seq<i64>, groups: Seq<usize>, g: int) -> Seq<int> {
    Seq::new(
        groups.len(),
        |i: int|
            if groups[i] == g {
                values[i] as int
            } else {
                0
            },
    )
}

/// What each entity adds to the size of group `g`: one if it is a member.
pub open spec fn memberships(groups: Seq<usize>, g: int) -> Seq<int> {
    Seq::new(
        groups.len(),
        |i: int|
            if groups[i] == g {
                1int
            } else {
                0int
            },
    )
}

proof fn lemma_sum_is_total(values: Seq<i64>, groups: Seq<usize>, g: int, upto: int)
    requires
        0 <= upto <= groups.len(),
    ensures
        member_sum(values, groups, g, upto) == total(contributions(values, groups, g).take(upto)),
        member_count(groups, g, upto) == total(memberships(groups, g).take(upto)),
    decreases upto,
{
    if upto > 0 {
        lemma_sum_is_total(values, groups, g, upto - 1);
        let c = contributions(values, groups, g);
        let m = memberships(groups, g);
        assert(c.take(upto).drop_last() =~= c.take(upto - 1));
        assert(m.take(upto).drop_last() =~= m.take(upto - 1));
    }
}

/// The sum and the size of a group are sums over all entities.
pub proof fn lemma_group_totals(values: Seq<i64>, groups: Seq<usize>, g: int)
    ensures
        member_sum(values, groups, g, groups.len() as int) == total(contributions(values, groups, g)),
        member_count(groups, g, groups.len() as int) == total(memberships(groups, g)),
{
    lemma_sum_is_total(values, groups, g, groups.len() as int);
    assert(contributions(values, groups, g).take(groups.len() as int) =~= contributions(
        values,
        groups,
        g,
    ));
    assert(memberships(groups, g).take(groups.len() as int) =~= memberships(groups, g));
}

/// Rearranging the entities leaves the largest group number as it is.
pub proof fn lemma_max_group_rearranged(groups: Seq<usize>, groups2: Seq<usize>, p: Seq<int>)
    requires
        is_rearranged(groups, groups2, p),
    ensures
        max_group(groups2) == max_group(groups),
{
    lemma_max_group_occurs(groups);
    lemma_max_group_occurs(groups2);
    if max_group(groups2) > 0 {
        let i = choose|i: int| 0 <= i < groups2.len() && groups2[i] == max_group(groups2);
        lemma_max_group_bounds(groups, p[i]);
    }
    if max_group(groups) > 0 {
        let i = choose|i: int| 0 <= i < groups.len() && groups[i] == max_group(groups);
        lemma_rearrangement_covers(p, groups.len(), i);
        let k = choose|k: int| 0 <= k < groups.len() && p[k] == i;
        lemma_max_group_bounds(groups2, k);
    }
}

/// Group means do not depend on the order of the entities: if values and
/// group numbers are rearranged alike, every group keeps its mean.
pub proof fn lemma_group_means_rearranged(
    values: Seq<i64>,
    groups: Seq<usize>,
    values2: Seq<i64>,
    groups2: Seq<usize>,
    p: Seq<int>,
)
    requires
        is_rearranged(values, values2, p),
        is_rearranged(groups, groups2, p),
    ensures
        group_means(values2, groups2) == group_means(values, groups),
{
    lemma_max_group_rearranged(groups, groups2, p);
    assert forall|g: int| group_mean(values2, groups2, g) == group_mean(values, groups, g) by {
        lemma_group_totals(values, groups, g);
        lemma_group_totals(values2, groups2, g);
        lemma_total_rearranged(
            contributions(values, groups, g),
            contributions(values2, groups2, g),
            p,
        );
        lemma_total_rearranged(memberships(groups, g), memberships(groups2, g), p);
    }
    assert(group_means(values2, groups2) =~= group_means(values, groups));
}

/// The aggregate does not depend on the order of the entities: if values,
/// every distance column and the group numbers are rearranged alike, the
/// same inputs are rejected for the same reason, and every column of the
/// aggregate stays as it is.
pub proof fn lemma_aggregate_rearranged(
    values: Seq<i64>,
    columns: Seq<Seq<i64>>,
    groups: Seq<usize>,
    values2: Seq<i64>,
    columns2: Seq<Seq<i64>>,
    groups2: Seq<usize>,
    p: Seq<int>,
)
    requires
        is_rearranged(values, values2, p),
        is_rearranged(groups, groups2, p),
        columns2.len() == columns.len(),
        forall|c: int| 0 <= c < columns.len() ==> is_rearranged(#[trigger] columns[c], columns2[c], p),
    ensures
        aggregate_fault(values2, columns2, groups2) == aggregate_fault(values, columns, groups),
        columns.len() > 0 ==> forall|c: int|
            0 <= c < columns.len() + 2 ==> #[trigger] aggregated_column(values2, columns2, groups2, c)
                == aggregated_column(values, columns, groups, c),
        columns.len() > 0 ==> forall|t: Table|
            is_aggregate_of(t, values2, columns2, groups2) <==> is_aggregate_of(
                t,
                values,
                columns,
                groups,
            ),
{
    let n = groups.len();
    lemma_max_group_rearranged(groups, groups2, p);
    lemma_group_means_rearranged(values, groups, values2, groups2, p);
    if columns.len() > 0 {
        let shifts = columns[0];
        let shifts2 = columns2[0];
        assert(is_rearranged(shifts, shifts2, p));
        if mutation_fits(values, shifts) {
            assert forall|i: int| 0 <= i < n implies fits_i64(#[trigger] values2[i] + shifts2[i]) by {
                assert(fits_i64(values[p[i]] + shifts[p[i]]));
            }
        }
        if mutation_fits(values2, shifts2) {
            assert forall|i: int| 0 <= i < n implies fits_i64(#[trigger] values[i] + shifts[i]) by {
                lemma_rearrangement_covers(p, n, i);
                let k = choose|k: int| 0 <= k < n && p[k] == i;
                assert(fits_i64(values2[k] + shifts2[k]));
            }
        }
        assert(is_rearranged(mutated_values(values, shifts), mutated_values(values2, shifts2), p));
        lemma_group_means_rearranged(
            mutated_values(values, shifts),
            groups,
            mutated_values(values2, shifts2),
            groups2,
            p,
        );
    }
    assert forall|c: int| 0 < columns.len() && 0 <= c < columns.len() + 2 implies #[trigger] aggregated_column(
        values2,
        columns2,
        groups2,
        c,
    ) == aggregated_column(values, columns, groups, c) by {
        if c >= 2 {
            assert(is_rearranged(columns[c - 2], columns2[c - 2], p));
            lemma_group_means_rearranged(columns[c - 2], groups, columns2[c - 2], groups2, p);
        }
    }
    assert(aggregate_fault(values2, columns2, groups2) == aggregate_fault(values, columns, groups))
        by {
        assert forall|c: int| 0 <= c < columns.len() implies (#[trigger] columns[c]).len() == n by {
            assert(is_rearranged(columns[c], columns2[c], p));
        }
        assert forall|c: int| 0 <= c < columns.len() implies (#[trigger] columns2[c]).len() == n by {
            assert(is_rearranged(columns[c], columns2[c], p));
        }
    }
}

/// No member, no mean: the row of a group without members is zero in every
/// column of the aggregate.
pub proof fn lemma_vacant_group_row(
    values: Seq<i64>,
    columns: Seq<Seq<i64>>,
    groups: Seq<usize>,
    g: int,
    c: int,
)
    requires
        1 <= g <= max_group(groups),
        forall|i: int| 0 <= i < groups.len() ==> groups[i] != g,
        0 <= c < columns.len() + 2,
    ensures
        aggregated_column(values, columns, groups, c)[g - 1] == 0,
{
    lemma_vacant_group_mean(values, groups, g);
    lemma_vacant_group_mean(mutated_values(values, columns[0]), groups, g);
    if c >= 2 {
        lemma_vacant_group_mean(columns[c - 2], groups, g);
    }
}

} // verus!
