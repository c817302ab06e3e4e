//! Signed distances from source entities to their matched targets.

use crate::arith::{divide, fits_i64, magnitude, quotient, SCALE};
use crate::error::{count_fault, MutationError, Stage};
use crate::matching::{
    lemma_matching_one_to_one, lemma_matching_rearranged, match_nearest, matching,
};
use crate::rearrange::{is_rearranged, lemma_rearrangement_covers};
use crate::vector_fns::keeps_ties_in_order;
use vstd::prelude::*;

verus! {

/// The distance from source value `s` to target value `t`: their difference,
/// or, as a relative distance, that difference in parts per [`SCALE`] of `s`,
/// rounded toward zero.
pub open spec fn signed_distance(s: i64, t: i64, absolute: bool) -> int {
    if absolute {
        t - s
    } else {
        quotient((t - s) * SCALE, s as int)
    }
}

/// The distance from `s` to `t`, or the reason why there is none: a relative
/// distance from zero is undefined, and a distance must fit in 64 bits.
pub open spec fn distance_outcome(s: i64, t: i64, absolute: bool) -> Result<i64, MutationError> {
    if !absolute && s == 0 {
        Err(MutationError::ZeroSource)
    } else if fits_i64(signed_distance(s, t, absolute)) {
        Ok(signed_distance(s, t, absolute) as i64)
    } else {
        Err(MutationError::Overflow(Stage::Matcher))
    }
}

/// The outcome for source entity `i` against its matched target.
pub open spec fn entity_outcome(sources: Seq<i64>, targets: Seq<i64>, absolute: bool, i: int) -> Result<
    i64,
    MutationError,
> {
    distance_outcome(sources[i], targets[matching(sources, targets)[i]], absolute)
}

/// The fault of the first entity below `upto` that has one.
pub open spec fn first_fault(sources: Seq<i64>, targets: Seq<i64>, absolute: bool, upto: int) -> Option<
    MutationError,
>
    decreases upto,
{
    if upto <= 0 {
        None
    } else {
        match first_fault(sources, targets, absolute, upto - 1) {
            Some(e) => Some(e),
            None => match entity_outcome(sources, targets, absolute, upto - 1) {
                Err(e) => Some(e),
                Ok(_) => None,
            },
        }
    }
}

/// The distances of a source row to a target row, one per source entity in
/// the source's own order. Fails on empty or unequal rows, else with the
/// fault of the first entity that has one.
pub open spec fn row_dists(sources: Seq<i64>, targets: Seq<i64>, absolute: bool) -> Result<
    Seq<i64>,
    MutationError,
> {
    match count_fault(sources.len(), targets.len()) {
        Some(e) => Err(e),
        None => match first_fault(sources, targets, absolute, sources.len() as int) {
            Some(e) => Err(e),
            None => Ok(
                Seq::new(
                    sources.len(),
                    |i: int|
                        signed_distance(sources[i], targets[matching(sources, targets)[i]], absolute) as i64,
                ),
            ),
        },
    }
}

/// A fault, once met, stays the first fault.
proof fn lemma_fault_stays(sources: Seq<i64>, targets: Seq<i64>, absolute: bool, at: int, upto: int)
    requires
        at <= upto,
        first_fault(sources, targets, absolute, at).is_some(),
    ensures
        first_fault(sources, targets, absolute, upto) == first_fault(sources, targets, absolute, at),
    decreases upto - at,
{
    if at < upto {
        lemma_fault_stays(sources, targets, absolute, at, upto - 1);
    }
}

/// Without a first fault, every entity has a distance.
pub proof fn lemma_no_fault(sources: Seq<i64>, targets: Seq<i64>, absolute: bool, upto: int, i: int)
    requires
        first_fault(sources, targets, absolute, upto).is_none(),
        0 <= i < upto,
    ensures
        entity_outcome(sources, targets, absolute, i).is_ok(),
    decreases upto,
{
    if i < upto - 1 {
        lemma_no_fault(sources, targets, absolute, upto - 1, i);
    }
}

/// Where every entity has a distance, there is no first fault.
proof fn lemma_all_ok(sources: Seq<i64>, targets: Seq<i64>, absolute: bool, upto: int)
    requires
        forall|i: int| 0 <= i < upto ==> entity_outcome(sources, targets, absolute, i).is_ok(),
    ensures
        first_fault(sources, targets, absolute, upto).is_none(),
    decreases upto,
{
    if upto > 0 {
        lemma_all_ok(sources, targets, absolute, upto - 1);
    }
}

/// Values of at most this magnitude always have an absolute distance.
pub const ABSOLUTE_RANGE: i64 = 0x3fff_ffff_ffff_ffff;

/// Values of at most this magnitude always have a relative distance, unless
/// the source is zero.
pub const RELATIVE_RANGE: i64 = 4_611_686_018_427;

/// Whether every value is of magnitude `bound` at most.
pub open spec fn within(values: Seq<i64>, bound: int) -> bool {
    forall|i: int| 0 <= i < values.len() ==> -bound <= #[trigger] values[i] <= bound
}

/// Whether no value is zero.
pub open spec fn without_zero(values: Seq<i64>) -> bool {
    forall|i: int| 0 <= i < values.len() ==> #[trigger] values[i] != 0
}

/// Whether the rows are small enough for distances of the asked kind to
/// exist whatever the matching: within [`ABSOLUTE_RANGE`] for absolute
/// distances; within [`RELATIVE_RANGE`] and with sources other than zero for
/// relative ones.
pub open spec fn in_range(sources: Seq<i64>, targets: Seq<i64>, absolute: bool) -> bool {
    if absolute {
        within(sources, ABSOLUTE_RANGE as int) && within(targets, ABSOLUTE_RANGE as int)
    } else {
        within(sources, RELATIVE_RANGE as int) && within(targets, RELATIVE_RANGE as int)
            && without_zero(sources)
    }
}

/// Success is owed on rows of one length that are in range: there is one
/// distance per source entity, the distance to its matched target.
pub proof fn lemma_distances_exist(sources: Seq<i64>, targets: Seq<i64>, absolute: bool)
    requires
        sources.len() <= usize::MAX,
        count_fault(sources.len(), targets.len()).is_none(),
        in_range(sources, targets, absolute),
    ensures
        row_dists(sources, targets, absolute).is_ok(),
        row_dists(sources, targets, absolute)->Ok_0.len() == sources.len(),
        forall|i: int|
            0 <= i < sources.len() ==> #[trigger] row_dists(sources, targets, absolute)->Ok_0[i]
                == signed_distance(sources[i], targets[matching(sources, targets)[i]], absolute),
{
    let n = sources.len() as int;
    lemma_matching_one_to_one(sources, targets);
    assert forall|i: int| 0 <= i < n implies fits_i64(
        signed_distance(sources[i], targets[matching(sources, targets)[i]], absolute),
    ) && entity_outcome(sources, targets, absolute, i).is_ok() by {
        let s = sources[i];
        let t = targets[matching(sources, targets)[i]];
        if !absolute {
            assert(s != 0);
            assert(SCALE == 1_000_000);
            let scaled = (t - s) * SCALE;
            assert(magnitude(scaled) <= i64::MAX) by (nonlinear_arith)
                requires
                    scaled == (t - s) * 1_000_000,
                    -9_223_372_036_854 <= t - s <= 9_223_372_036_854,
            ;
            assert(0 <= magnitude(scaled) / magnitude(s as int) <= magnitude(scaled))
                by (nonlinear_arith)
                requires
                    magnitude(s as int) >= 1,
                    magnitude(scaled) >= 0,
            ;
        }
    }
    lemma_all_ok(sources, targets, absolute, n);
}

/// There are as many distances as source entities.
pub proof fn lemma_one_distance_per_source(sources: Seq<i64>, targets: Seq<i64>, absolute: bool)
    requires
        row_dists(sources, targets, absolute).is_ok(),
    ensures
        row_dists(sources, targets, absolute)->Ok_0.len() == sources.len(),
        sources.len() == targets.len(),
        sources.len() > 0,
{
}

/// A single source is matched to the single target, and its distance is the
/// distance between the two values.
pub proof fn lemma_single_entity(s: i64, t: i64, absolute: bool)
    ensures
        matching(seq![s], seq![t]) == seq![0int],
        row_dists(seq![s], seq![t], absolute) == match distance_outcome(s, t, absolute) {
            Ok(d) => Ok::<Seq<i64>, MutationError>(seq![d]),
            Err(e) => Err::<Seq<i64>, MutationError>(e),
        },
        absolute && fits_i64(t - s) ==> row_dists(seq![s], seq![t], absolute) == Ok::<
            Seq<i64>,
            MutationError,
        >(seq![(t - s) as i64]),
{
    let sources = seq![s];
    let targets = seq![t];
    lemma_matching_one_to_one(sources, targets);
    let m = matching(sources, targets);
    assert(0 <= m[0] < 1);
    assert(m =~= seq![0int]);
    assert(entity_outcome(sources, targets, absolute, 0) == distance_outcome(s, t, absolute));
    assert(first_fault(sources, targets, absolute, 0).is_none());
    match distance_outcome(s, t, absolute) {
        Ok(d) => {
            assert(first_fault(sources, targets, absolute, 1).is_none());
            assert(row_dists(sources, targets, absolute)->Ok_0 =~= seq![d]);
        },
        Err(e) => {
            assert(first_fault(sources, targets, absolute, 1) == Some(e));
        },
    }
}

/// Rearranging the sources rearranges their distances alike, as long as
/// sources of equal value keep their order among themselves: where the
/// sources had distances, they have the same ones in their new places.
pub proof fn lemma_row_dists_rearranged(
    sources: Seq<i64>,
    sources2: Seq<i64>,
    targets: Seq<i64>,
    absolute: bool,
    p: Seq<int>,
)
    requires
        sources.len() <= usize::MAX,
        is_rearranged(sources, sources2, p),
        keeps_ties_in_order(sources2, false, p),
        row_dists(sources, targets, absolute).is_ok(),
    ensures
        row_dists(sources2, targets, absolute).is_ok(),
        is_rearranged(
            row_dists(sources, targets, absolute)->Ok_0,
            row_dists(sources2, targets, absolute)->Ok_0,
            p,
        ),
{
    let n = sources.len() as int;
    lemma_matching_rearranged(sources, sources2, targets, p);
    assert forall|i: int| 0 <= i < n implies entity_outcome(sources2, targets, absolute, i)
        == entity_outcome(sources, targets, absolute, p[i]) && entity_outcome(
        sources2,
        targets,
        absolute,
        i,
    ).is_ok() by {
        assert(sources2[i] == sources[p[i]]);
        assert(matching(sources2, targets)[i] == matching(sources, targets)[p[i]]);
        lemma_no_fault(sources, targets, absolute, n, p[i]);
    }
    lemma_all_ok(sources2, targets, absolute, n);
    let d = row_dists(sources, targets, absolute)->Ok_0;
    let d2 = row_dists(sources2, targets, absolute)->Ok_0;
    assert forall|i: int| 0 <= i < d2.len() implies #[trigger] d2[i] == d[p[i]] by {
        assert(sources2[i] == sources[p[i]]);
        assert(matching(sources2, targets)[i] == matching(sources, targets)[p[i]]);
    }
}

/// Computes the distance from `s` to `t`.
pub fn distance(s: i64, t: i64, absolute: bool) -> (r: Result<i64, MutationError>)
    ensures
        r == distance_outcome(s, t, absolute),
{
    let d: i128 = t as i128 - s as i128;
    let value: i128 = if absolute {
        d
    } else {
        if s == 0 {
            return Err(MutationError::ZeroSource);
        }
        assert(i128::MIN < d * (SCALE as i128) < i128::MAX) by (nonlinear_arith)
            requires
                -0x1_0000_0000_0000_0000 < d < 0x1_0000_0000_0000_0000,
                SCALE == 1_000_000,
        ;
        let scaled: i128 = d * (SCALE as i128);
        divide(scaled, s as i128)
    };
    if value < i64::MIN as i128 || value > i64::MAX as i128 {
        Err(MutationError::Overflow(Stage::Matcher))
    } else {
        Ok(value as i64)
    }
}

/// Matches each source entity to a target entity of its own and returns the
/// distance of each to its target, in the order of `sources`.
pub fn nearest_dists(sources: &[i64], targets: &[i64], absolute: bool) -> (r: Result<
    Vec<i64>,
    MutationError,
>)
    ensures
        match r {
            Ok(d) => row_dists(sources@, targets@, absolute) == Ok::<Seq<i64>, MutationError>(d@),
            Err(e) => row_dists(sources@, targets@, absolute) == Err::<Seq<i64>, MutationError>(e),
        },
        r.is_ok() ==> r.unwrap()@.len() == sources@.len(),
{
    let matched = match match_nearest(sources, targets) {
        Ok(m) => m,
        Err(e) => {
            return Err(e);
        },
    };
    let n: usize = sources.len();
    proof {
        lemma_matching_one_to_one(sources@, targets@);
    }
    let mut dists: Vec<i64> = Vec::new();
    let mut i: usize = 0;
    while i < n
        invariant
            n == sources.len(),
            n == targets.len(),
            i <= n,
            matched.len() == n,
            matched@.map_values(|t: usize| t as int) == matching(sources@, targets@),
            forall|k: int| 0 <= k < n ==> 0 <= #[trigger] matching(sources@, targets@)[k] < n,
            dists.len() == i,
            first_fault(sources@, targets@, absolute, i as int).is_none(),
            forall|k: int|
                0 <= k < i ==> #[trigger] dists[k] == signed_distance(
                    sources@[k],
                    targets@[matching(sources@, targets@)[k]],
                    absolute,
                ) as i64,
        decreases n - i,
    {
        proof {
            assert(matched@.map_values(|t: usize| t as int)[i as int] == matched[i as int]);
            assert(0 <= matching(sources@, targets@)[i as int] < n);
        }
        match distance(sources[i], targets[matched[i]], absolute) {
            Ok(d) => {
                dists.push(d);
            },
            Err(e) => {
                proof {
                    assert(first_fault(sources@, targets@, absolute, i + 1) == Some(e));
                    lemma_fault_stays(sources@, targets@, absolute, i + 1, n as int);
                }
                return Err(e);
            },
        }
        i += 1;
    }
    proof {
        let want = row_dists(sources@, targets@, absolute);
        assert(want.is_ok());
        assert(want->Ok_0 =~= dists@);
    }
    Ok(dists)
}

} // verus!
