//! Orderings of a row of observations, and the distances between the
//! primary rows of two grids.

use crate::distance::{in_range, lemma_distances_exist, nearest_dists, row_dists};
use crate::error::{Dimension, MutationError, Stage};
use crate::grid::Grid;
use crate::rearrange::{is_rearranged, is_rearrangement, lemma_rearrangement_covers};
use vstd::prelude::*;

verus! {

/// The value by which an observation is ordered: itself, or its magnitude.
pub open spec fn sort_key(v: i64, is_abs: bool) -> int {
    if is_abs && v < 0 {
        -(v as int)
    } else {
        v as int
    }
}

/// Whether entity `i` comes before entity `j` in the ordering: by key, in the
/// requested direction, and by position among entities with equal keys.
pub open spec fn precedes(vals: Seq<i64>, desc: bool, is_abs: bool, i: int, j: int) -> bool {
    let a = sort_key(vals[i], is_abs);
    let b = sort_key(vals[j], is_abs);
    if desc {
        a > b || (a == b && i < j)
    } else {
        a < b || (a == b && i < j)
    }
}

/// `order` lists every index below `n` exactly once.
pub open spec fn is_index_permutation(order: Seq<usize>, n: nat) -> bool {
    &&& order.len() == n
    &&& forall|k: int| 0 <= k < order.len() ==> (#[trigger] order[k]) < n
    &&& forall|a: int, b: int| 0 <= a < b < order.len() ==> order[a] != order[b]
}

/// `order` is the ordering index of `vals`: a permutation of its positions in
/// which every entry precedes all later ones.
pub open spec fn is_ordering_index(
    vals: Seq<i64>,
    desc: bool,
    is_abs: bool,
    order: Seq<usize>,
) -> bool {
    &&& is_index_permutation(order, vals.len())
    &&& forall|a: int, b: int|
        0 <= a < b < order.len() ==> precedes(
            vals,
            desc,
            is_abs,
            #[trigger] order[a] as int,
            #[trigger] order[b] as int,
        )
}

/// The ordering index of `vals`. There is exactly one, see
/// [`lemma_ordering_index_unique`].
pub open spec fn ordering_index(vals: Seq<i64>, desc: bool, is_abs: bool) -> Seq<usize> {
    choose|order: Seq<usize>| is_ordering_index(vals, desc, is_abs, order)
}

/// A sequence of `n` distinct indices below `n` misses none of them.
pub proof fn lemma_permutation_covers(order: Seq<usize>, n: nat, i: int)
    requires
        is_index_permutation(order, n),
        0 <= i < n,
    ensures
        exists|k: int| 0 <= k < n && order[k] == i,
{
    let p = Seq::new(n, |k: int| order[k] as int);
    assert(is_rearrangement(p, n));
    lemma_rearrangement_covers(p, n, i);
    let k = choose|k: int| 0 <= k < n && p[k] == i;
    assert(order[k] == i);
}

/// Where the last entity of `vals` belongs among the already ordered others.
proof fn lemma_insert_position(
    vals: Seq<i64>,
    desc: bool,
    is_abs: bool,
    order: Seq<usize>,
    upto: int,
) -> (p: int)
    requires
        vals.len() > 0,
        0 <= upto <= order.len(),
        forall|k: int| 0 <= k < order.len() ==> (#[trigger] order[k]) < vals.len() - 1,
    ensures
        0 <= p <= upto,
        forall|k: int|
            0 <= k < p ==> !precedes(vals, desc, is_abs, vals.len() - 1, #[trigger] order[k] as int),
        p < upto ==> precedes(vals, desc, is_abs, vals.len() - 1, order[p] as int),
    decreases upto,
{
    if upto == 0 {
        0
    } else {
        let p = lemma_insert_position(vals, desc, is_abs, order, upto - 1);
        if p < upto - 1 {
            p
        } else if precedes(vals, desc, is_abs, vals.len() - 1, order[upto - 1] as int) {
            upto - 1
        } else {
            upto
        }
    }
}

/// Every row whose positions are machine indices has an ordering index, and [`ordering_index`] names it.
pub proof fn lemma_ordering_index_exists(vals: Seq<i64>, desc: bool, is_abs: bool)
    requires
        vals.len() <= usize::MAX,
    ensures
        is_ordering_index(vals, desc, is_abs, ordering_index(vals, desc, is_abs)),
    decreases vals.len(),
{
    if vals.len() == 0 {
        assert(is_ordering_index(vals, desc, is_abs, Seq::<usize>::empty()));
    } else {
        let last = (vals.len() - 1) as int;
        let front = vals.take(last);
        lemma_ordering_index_exists(front, desc, is_abs);
        let before = ordering_index(front, desc, is_abs);
        let p = lemma_insert_position(vals, desc, is_abs, before, before.len() as int);
        let after = before.insert(p, last as usize);
        assert forall|a: int, b: int| 0 <= a < b < after.len() implies after[a] != after[b]
            && precedes(vals, desc, is_abs, #[trigger] after[a] as int, #[trigger] after[b] as int) by {
            let a0 = if a < p { a } else { a - 1 };
            let b0 = if b < p { b } else { b - 1 };
            if a != p {
                assert(after[a] == before[a0]);
                assert(before[a0] < last);
                assert(front[before[a0] as int] == vals[before[a0] as int]);
            }
            if b != p {
                assert(after[b] == before[b0]);
                assert(before[b0] < last);
                assert(front[before[b0] as int] == vals[before[b0] as int]);
            }
            if a != p && b != p {
                assert(precedes(front, desc, is_abs, before[a0] as int, before[b0] as int));
            } else if a == p {
                assert(precedes(vals, desc, is_abs, last, before[p] as int));
                assert(front[before[p] as int] == vals[before[p] as int]);
                if b0 > p {
                    assert(precedes(front, desc, is_abs, before[p] as int, before[b0] as int));
                }
            } else {
                assert(!precedes(vals, desc, is_abs, last, before[a0] as int));
            }
        }
        assert forall|k: int| 0 <= k < after.len() implies (#[trigger] after[k]) < vals.len() by {
            if k < p {
                assert(after[k] == before[k]);
            } else if k > p {
                assert(after[k] == before[k - 1]);
            }
        }
        assert(is_ordering_index(vals, desc, is_abs, after));
    }
}

/// Two ordering indices of the same row are equal.
pub proof fn lemma_ordering_index_unique(
    vals: Seq<i64>,
    desc: bool,
    is_abs: bool,
    o1: Seq<usize>,
    o2: Seq<usize>,
)
    requires
        is_ordering_index(vals, desc, is_abs, o1),
        is_ordering_index(vals, desc, is_abs, o2),
    ensures
        o1 == o2,
{
    let n = vals.len();
    assert forall|k: int| 0 <= k < n implies o1[k] == o2[k] by {
        lemma_agree_up_to(vals, desc, is_abs, o1, o2, k);
    }
    assert(o1 =~= o2);
}

proof fn lemma_agree_up_to(
    vals: Seq<i64>,
    desc: bool,
    is_abs: bool,
    o1: Seq<usize>,
    o2: Seq<usize>,
    k: int,
)
    requires
        is_ordering_index(vals, desc, is_abs, o1),
        is_ordering_index(vals, desc, is_abs, o2),
        0 <= k < vals.len(),
    ensures
        forall|m: int| 0 <= m <= k ==> o1[m] == o2[m],
    decreases k,
{
    if k > 0 {
        lemma_agree_up_to(vals, desc, is_abs, o1, o2, k - 1);
    }
    let n = vals.len();
    let x = o1[k] as int;
    let y = o2[k] as int;
    lemma_permutation_covers(o2, n, x);
    lemma_permutation_covers(o1, n, y);
    let p = choose|p: int| 0 <= p < n && o2[p] == x;
    let q = choose|q: int| 0 <= q < n && o1[q] == y;
    if p < k {
        assert(o1[p] == o2[p]);
    }
    if q < k {
        assert(o1[q] == o2[q]);
    }
    if p > k {
        assert(precedes(vals, desc, is_abs, o2[k] as int, o2[p] as int));
        assert(q > k);
        assert(precedes(vals, desc, is_abs, o1[k] as int, o1[q] as int));
    }
}

fn key_of(v: i64, is_abs: bool) -> (k: i128)
    ensures
        k == sort_key(v, is_abs),
{
    if is_abs && v < 0 {
        -(v as i128)
    } else {
        v as i128
    }
}

fn comes_before(vals: &[i64], desc: bool, is_abs: bool, i: usize, j: usize) -> (r: bool)
    requires
        i < vals.len(),
        j < vals.len(),
    ensures
        r == precedes(vals@, desc, is_abs, i as int, j as int),
{
    let a: i128 = key_of(vals[i], is_abs);
    let b: i128 = key_of(vals[j], is_abs);
    if desc {
        a > b || (a == b && i < j)
    } else {
        a < b || (a == b && i < j)
    }
}

/// Returns the positions of `vals` in sorted order: ascending or descending,
/// by value or by magnitude. Entities with equal keys keep their relative
/// position in either direction.
pub fn get_ordering_index(vals: &[i64], desc: bool, is_abs: bool) -> (order: Vec<usize>)
    ensures
        is_ordering_index(vals@, desc, is_abs, order@),
        order@ == ordering_index(vals@, desc, is_abs),
{
    let n: usize = vals.len();
    let mut order: Vec<usize> = Vec::new();
    let mut i: usize = 0;
    while i < n
        invariant
            n == vals.len(),
            i <= n,
            order.len() == i,
            forall|k: int| 0 <= k < order.len() ==> (#[trigger] order[k]) < i,
            forall|a: int, b: int| 0 <= a < b < order.len() ==> order[a] != order[b],
            forall|a: int, b: int|
                0 <= a < b < order.len() ==> precedes(
                    vals@,
                    desc,
                    is_abs,
                    #[trigger] order[a] as int,
                    #[trigger] order[b] as int,
                ),
        decreases n - i,
    {
        let mut p: usize = 0;
        while p < i && !comes_before(vals, desc, is_abs, i, order[p])
            invariant
                n == vals.len(),
                i < n,
                p <= i,
                order.len() == i,
                forall|k: int| 0 <= k < order.len() ==> (#[trigger] order[k]) < i,
                forall|k: int|
                    0 <= k < p ==> !precedes(vals@, desc, is_abs, i as int, #[trigger] order[k] as int),
            decreases i - p,
        {
            p += 1;
        }
        let ghost before = order@;
        order.insert(p, i);
        proof {
            let after = order@;
            assert forall|k: int| 0 <= k < after.len() implies (#[trigger] after[k]) < i + 1 by {
                if k < p {
                    assert(after[k] == before[k]);
                } else if k > p {
                    assert(after[k] == before[k - 1]);
                }
            }
            assert forall|a: int, b: int| 0 <= a < b < after.len() implies after[a] != after[b]
                && precedes(vals@, desc, is_abs, #[trigger] after[a] as int, #[trigger] after[b] as int) by {
                let a0 = if a < p { a } else { a - 1 };
                let b0 = if b < p { b } else { b - 1 };
                if a != p {
                    assert(after[a] == before[a0]);
                    assert(before[a0] < i);
                }
                if b != p {
                    assert(after[b] == before[b0]);
                    assert(before[b0] < i);
                }
                if a == p {
                    // The entry now at `p + 1` comes after the new one, and
                    // every later entry comes after that.
                    assert(precedes(vals@, desc, is_abs, i as int, before[p as int] as int));
                    if b0 > p {
                        assert(precedes(vals@, desc, is_abs, before[p as int] as int, before[b0] as int));
                    }
                } else if b == p {
                    assert(!precedes(vals@, desc, is_abs, i as int, before[a0] as int));
                }
            }
        }
        i += 1;
    }
    proof {
        let chosen = ordering_index(vals@, desc, is_abs);
        assert(is_ordering_index(vals@, desc, is_abs, order@));
        lemma_ordering_index_unique(vals@, desc, is_abs, order@, chosen);
    }
    order
}

/// Where no two entities share a key, the descending ordering is the
/// ascending ordering read backwards.
pub proof fn lemma_descending_reverses_ascending(vals: Seq<i64>, is_abs: bool)
    requires
        vals.len() <= usize::MAX,
        forall|i: int, j: int|
            0 <= i < j < vals.len() ==> sort_key(vals[i], is_abs) != sort_key(vals[j], is_abs),
    ensures
        ordering_index(vals, true, is_abs) == ordering_index(vals, false, is_abs).reverse(),
{
    let n = vals.len() as int;
    lemma_ordering_index_exists(vals, false, is_abs);
    lemma_ordering_index_exists(vals, true, is_abs);
    let up = ordering_index(vals, false, is_abs);
    let down = up.reverse();
    assert forall|a: int, b: int| 0 <= a < b < n implies down[a] != down[b] && precedes(
        vals,
        true,
        is_abs,
        #[trigger] down[a] as int,
        #[trigger] down[b] as int,
    ) by {
        assert(down[a] == up[n - 1 - a]);
        assert(down[b] == up[n - 1 - b]);
        assert(precedes(vals, false, is_abs, up[n - 1 - b] as int, up[n - 1 - a] as int));
    }
    assert forall|k: int| 0 <= k < n implies (#[trigger] down[k]) < n by {
        assert(down[k] == up[n - 1 - k]);
    }
    lemma_ordering_index_unique(vals, true, is_abs, down, ordering_index(vals, true, is_abs));
}

/// Among the entities of `vals2` that share a key, `p` keeps the order in
/// which they stood.
pub open spec fn keeps_ties_in_order(vals2: Seq<i64>, is_abs: bool, p: Seq<int>) -> bool {
    forall|i: int, j: int|
        0 <= i < j < vals2.len() && sort_key(vals2[i], is_abs) == sort_key(vals2[j], is_abs) ==> p[i]
            < p[j]
}

/// Rearranging a row rearranges its ordering index alike, as long as
/// entities with equal keys keep their order among themselves: the entity
/// at each rank is the same one, at its new position.
pub proof fn lemma_ordering_rearranged(
    vals: Seq<i64>,
    vals2: Seq<i64>,
    desc: bool,
    is_abs: bool,
    p: Seq<int>,
)
    requires
        vals.len() <= usize::MAX,
        is_rearranged(vals, vals2, p),
        keeps_ties_in_order(vals2, is_abs, p),
    ensures
        forall|k: int|
            0 <= k < vals.len() ==> p[#[trigger] ordering_index(vals2, desc, is_abs)[k] as int]
                == ordering_index(vals, desc, is_abs)[k],
{
    let n = vals.len() as int;
    lemma_ordering_index_exists(vals, desc, is_abs);
    lemma_ordering_index_exists(vals2, desc, is_abs);
    let o2 = ordering_index(vals2, desc, is_abs);
    let moved = Seq::new(n as nat, |k: int| p[o2[k] as int] as usize);
    assert forall|a: int, b: int| 0 <= a < b < n implies moved[a] != moved[b] && precedes(
        vals,
        desc,
        is_abs,
        #[trigger] moved[a] as int,
        #[trigger] moved[b] as int,
    ) by {
        let i = o2[a] as int;
        let j = o2[b] as int;
        assert(precedes(vals2, desc, is_abs, i, j));
        assert(vals2[i] == vals[p[i]]);
        assert(vals2[j] == vals[p[j]]);
        assert(i != j);
        if i < j {
            assert(p[i] != p[j]);
        } else {
            assert(p[j] != p[i]);
        }
    }
    assert forall|k: int| 0 <= k < n implies (#[trigger] moved[k]) < n by {
        assert(0 <= p[o2[k] as int] < n);
    }
    lemma_ordering_index_unique(vals, desc, is_abs, moved, ordering_index(vals, desc, is_abs));
    assert forall|k: int| 0 <= k < n implies p[#[trigger] o2[k] as int] == ordering_index(
        vals,
        desc,
        is_abs,
    )[k] by {
        assert(moved[k] == p[o2[k] as int] as usize);
    }
}

/// The distances between two grids: those between their primary rows,
/// provided that both grids hold observations and have the same shape. A
/// grid without observations is reported first, then a difference in the
/// number of variables, then one in the number of entities.
pub open spec fn grid_dists(values1: Grid, values2: Grid, absolute: bool) -> Result<
    Seq<i64>,
    MutationError,
> {
    if values1.is_vacant() || values2.is_vacant() {
        Err(MutationError::EmptyInput(Stage::Matcher))
    } else if values1.rows().len() != values2.rows().len() {
        Err(MutationError::ShapeMismatch(Stage::Matcher, Dimension::Variables))
    } else if values1.width() != values2.width() {
        Err(MutationError::ShapeMismatch(Stage::Matcher, Dimension::Entities))
    } else {
        row_dists(values1.rows()[0], values2.rows()[0], absolute)
    }
}

/// Success is owed on grids of one shape that hold observations in range:
/// there is one distance per source entity.
pub proof fn lemma_grid_dists_exist(values1: Grid, values2: Grid, absolute: bool)
    requires
        values1.is_rectangular(),
        values2.is_rectangular(),
        values1.width() <= usize::MAX,
        !values1.is_vacant(),
        values1.rows().len() == values2.rows().len(),
        values1.width() == values2.width(),
        in_range(values1.rows()[0], values2.rows()[0], absolute),
    ensures
        grid_dists(values1, values2, absolute).is_ok(),
        grid_dists(values1, values2, absolute)->Ok_0.len() == values1.width(),
{
    lemma_distances_exist(values1.rows()[0], values2.rows()[0], absolute);
}

/// Matches every source entity of `values1` to a target entity of `values2`
/// of its own, nearest along the primary variable, and returns for each
/// source entity, in the order of `values1`, the signed distance to its
/// target: the difference of the two values if `absolute`, else that
/// difference relative to the source value, in parts per
/// [`SCALE`](crate::arith::SCALE).
pub fn calculate_dists(values1: &Grid, values2: &Grid, absolute: bool) -> (r: Result<
    Vec<i64>,
    MutationError,
>)
    ensures
        match r {
            Ok(d) => grid_dists(*values1, *values2, absolute) == Ok::<Seq<i64>, MutationError>(d@),
            Err(e) => grid_dists(*values1, *values2, absolute) == Err::<Seq<i64>, MutationError>(e),
        },
        r.is_ok() ==> r.unwrap()@.len() == values1.width(),
{
    if values1.is_empty() || values2.is_empty() {
        return Err(MutationError::EmptyInput(Stage::Matcher));
    }
    let shape1 = values1.dim();
    let shape2 = values2.dim();
    if shape1.0 != shape2.0 {
        return Err(MutationError::ShapeMismatch(Stage::Matcher, Dimension::Variables));
    }
    if shape1.1 != shape2.1 {
        return Err(MutationError::ShapeMismatch(Stage::Matcher, Dimension::Entities));
    }
    let sources = match values1.row(0) {
        Some(row) => row,
        None => {
            return Err(MutationError::EmptyInput(Stage::Matcher));
        },
    };
    let targets = match values2.row(0) {
        Some(row) => row,
        None => {
            return Err(MutationError::EmptyInput(Stage::Matcher));
        },
    };
    nearest_dists(sources.as_slice(), targets.as_slice(), absolute)
}

} // verus!
