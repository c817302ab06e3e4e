//! Greedy one-to-one matching of source entities to their nearest targets.
//!
//! Sources are taken in ascending order of value. Each takes the target that
//! lies nearest to it among those not taken before, the lower position
//! winning a tie, and keeps it.

use crate::arith::magnitude;
use crate::error::{count_fault, Dimension, MutationError, Stage};
use crate::rearrange::is_rearranged;
use crate::vector_fns::{
    get_ordering_index, is_ordering_index, keeps_ties_in_order, lemma_ordering_index_exists,
    lemma_ordering_rearranged, lemma_permutation_covers, ordering_index,
};
use vstd::prelude::*;

verus! {

/// How far apart two observations lie.
pub open spec fn gap(a: i64, b: i64) -> int {
    magnitude(a - b)
}

/// Target `j` is at least as good a match for `v` as target `k`: nearer, or
/// as near and not later.
pub open spec fn no_worse(v: i64, targets: Seq<i64>, j: int, k: int) -> bool {
    gap(v, targets[j]) < gap(v, targets[k]) || (gap(v, targets[j]) == gap(v, targets[k]) && j <= k)
}

/// `j` is the match for `v`: unused, and no worse than any other unused target.
pub open spec fn is_nearest_unused(v: i64, targets: Seq<i64>, used: Set<int>, j: int) -> bool {
    &&& 0 <= j < targets.len()
    &&& !used.contains(j)
    &&& forall|k: int| 0 <= k < targets.len() && !used.contains(k) ==> no_worse(v, targets, j, k)
}

/// The match for `v` among the targets outside `used`.
pub open spec fn nearest_unused(v: i64, targets: Seq<i64>, used: Set<int>) -> int {
    choose|j: int| is_nearest_unused(v, targets, used, j)
}

/// The targets taken by the first `k` sources of `order`, in the order taken.
pub open spec fn picks(sources: Seq<i64>, targets: Seq<i64>, order: Seq<usize>, k: nat) -> Seq<int>
    decreases k,
{
    if k == 0 {
        Seq::empty()
    } else {
        let earlier = picks(sources, targets, order, (k - 1) as nat);
        earlier.push(nearest_unused(sources[order[k - 1] as int], targets, earlier.to_set()))
    }
}

/// The place of entity `i` in `order`.
pub open spec fn rank_of(order: Seq<usize>, i: int) -> int {
    choose|k: int| 0 <= k < order.len() && order[k] == i
}

/// For each source entity, by position, the position of its target.
pub open spec fn matching(sources: Seq<i64>, targets: Seq<i64>) -> Seq<int> {
    let order = ordering_index(sources, false, false);
    let taken = picks(sources, targets, order, sources.len());
    Seq::new(sources.len(), |i: int| taken[rank_of(order, i)])
}

/// Fewer than `n` picks leave one of `n` targets unused.
proof fn lemma_some_unused(taken: Seq<int>, n: nat)
    requires
        taken.len() < n,
    ensures
        exists|j: int| 0 <= j < n && !taken.to_set().contains(j),
{
    if forall|j: int| 0 <= j < n ==> taken.to_set().contains(j) {
        let all = vstd::set_lib::set_int_range(0, n as int);
        vstd::set_lib::lemma_int_range(0, n as int);
        vstd::seq_lib::seq_to_set_is_finite(taken);
        assert(all.subset_of(taken.to_set()));
        vstd::set_lib::lemma_len_subset(all, taken.to_set());
        taken.lemma_cardinality_of_set();
        assert(false);
    }
}

/// Among the first `m` targets, if one is unused, one is the best unused.
proof fn lemma_nearest_among(v: i64, targets: Seq<i64>, used: Set<int>, m: int) -> (best: int)
    requires
        0 <= m <= targets.len(),
        exists|j: int| 0 <= j < m && !used.contains(j),
    ensures
        0 <= best < m,
        !used.contains(best),
        forall|k: int| 0 <= k < m && !used.contains(k) ==> no_worse(v, targets, best, k),
    decreases m,
{
    if exists|j: int| 0 <= j < m - 1 && !used.contains(j) {
        let earlier = lemma_nearest_among(v, targets, used, m - 1);
        if !used.contains(m - 1) && gap(v, targets[m - 1]) < gap(v, targets[earlier]) {
            m - 1
        } else {
            earlier
        }
    } else {
        m - 1
    }
}

/// At most one target is the match for `v`.
pub proof fn lemma_nearest_unique(v: i64, targets: Seq<i64>, used: Set<int>, j: int, k: int)
    requires
        is_nearest_unused(v, targets, used, j),
        is_nearest_unused(v, targets, used, k),
    ensures
        j == k,
{
    assert(no_worse(v, targets, j, k));
    assert(no_worse(v, targets, k, j));
}

/// What holds of the first `k` picks: each is the match of its source among
/// the targets that the earlier picks left, and none is taken twice.
pub proof fn lemma_picks(sources: Seq<i64>, targets: Seq<i64>, order: Seq<usize>, k: nat)
    requires
        k <= order.len(),
        k <= targets.len(),
    ensures
        picks(sources, targets, order, k).len() == k,
        forall|r: int|
            0 <= r < k ==> is_nearest_unused(
                sources[order[r] as int],
                targets,
                picks(sources, targets, order, k).take(r).to_set(),
                #[trigger] picks(sources, targets, order, k)[r],
            ),
        forall|r: int|
            0 <= r <= k ==> #[trigger] picks(sources, targets, order, r as nat) == picks(
                sources,
                targets,
                order,
                k,
            ).take(r),
        picks(sources, targets, order, k).no_duplicates(),
    decreases k,
{
    let now = picks(sources, targets, order, k);
    if k == 0 {
        assert(now.take(0) =~= now);
    } else {
        let earlier = picks(sources, targets, order, (k - 1) as nat);
        lemma_picks(sources, targets, order, (k - 1) as nat);
        let v = sources[order[k - 1] as int];
        lemma_some_unused(earlier, targets.len());
        let witness = lemma_nearest_among(v, targets, earlier.to_set(), targets.len() as int);
        assert(is_nearest_unused(v, targets, earlier.to_set(), witness));
        let pick = nearest_unused(v, targets, earlier.to_set());
        assert(is_nearest_unused(v, targets, earlier.to_set(), pick));
        assert(now == earlier.push(pick));
        assert(now.take(k - 1) =~= earlier);
        assert(now.take(k as int) =~= now);
        assert forall|r: int| 0 <= r <= k implies #[trigger] picks(
            sources,
            targets,
            order,
            r as nat,
        ) == now.take(r) by {
            if r < k {
                assert(earlier.take(r) =~= now.take(r));
            }
        }
        assert forall|r: int| 0 <= r < k implies is_nearest_unused(
            sources[order[r] as int],
            targets,
            now.take(r).to_set(),
            #[trigger] now[r],
        ) by {
            if r < k - 1 {
                assert(earlier.take(r) =~= now.take(r));
                assert(now[r] == earlier[r]);
            }
        }
        assert forall|a: int, b: int| 0 <= a < b < now.len() implies now[a] != now[b] by {
            if b == k - 1 {
                assert(earlier[a] == now[a]);
                assert(earlier.to_set().contains(earlier[a]));
            } else {
                assert(earlier[a] == now[a] && earlier[b] == now[b]);
            }
        }
    }
}

/// Every source is matched to a target of its own: the matching has one entry
/// per source, each the position of a target, and no position occurs twice.
pub proof fn lemma_matching_one_to_one(sources: Seq<i64>, targets: Seq<i64>)
    requires
        sources.len() <= targets.len(),
        sources.len() <= usize::MAX,
    ensures
        matching(sources, targets).len() == sources.len(),
        forall|i: int|
            0 <= i < sources.len() ==> 0 <= #[trigger] matching(sources, targets)[i] < targets.len(),
        forall|i: int, j: int|
            0 <= i < j < sources.len() ==> matching(sources, targets)[i] != matching(
                sources,
                targets,
            )[j],
{
    let n = sources.len();
    let order = ordering_index(sources, false, false);
    lemma_ordering_index_exists(sources, false, false);
    lemma_picks(sources, targets, order, n);
    let taken = picks(sources, targets, order, n);
    let m = matching(sources, targets);
    assert forall|i: int| 0 <= i < n implies 0 <= rank_of(order, i) < n && order[rank_of(
        order,
        i,
    )] == i by {
        lemma_permutation_covers(order, n, i);
    }
    assert forall|i: int| 0 <= i < n implies 0 <= #[trigger] m[i] < targets.len() by {
        assert(m[i] == taken[rank_of(order, i)]);
    }
    assert forall|i: int, j: int| 0 <= i < j < n implies m[i] != m[j] by {
        assert(m[i] == taken[rank_of(order, i)]);
        assert(m[j] == taken[rank_of(order, j)]);
        assert(rank_of(order, i) != rank_of(order, j));
    }
}

proof fn lemma_picks_rearranged(
    sources: Seq<i64>,
    sources2: Seq<i64>,
    targets: Seq<i64>,
    order: Seq<usize>,
    order2: Seq<usize>,
    k: nat,
)
    requires
        k <= order.len(),
        order.len() == order2.len(),
        forall|r: int|
            0 <= r < order.len() ==> sources2[#[trigger] order2[r] as int] == sources[order[r] as int],
    ensures
        picks(sources2, targets, order2, k) == picks(sources, targets, order, k),
    decreases k,
{
    if k > 0 {
        lemma_picks_rearranged(sources, sources2, targets, order, order2, (k - 1) as nat);
        assert(sources2[order2[k - 1] as int] == sources[order[k - 1] as int]);
    }
}

/// Rearranging the sources rearranges the matching alike, as long as sources
/// of equal value keep their order among themselves: every entity keeps its
/// target.
pub proof fn lemma_matching_rearranged(
    sources: Seq<i64>,
    sources2: Seq<i64>,
    targets: Seq<i64>,
    p: Seq<int>,
)
    requires
        sources.len() <= usize::MAX,
        is_rearranged(sources, sources2, p),
        keeps_ties_in_order(sources2, false, p),
    ensures
        forall|i: int|
            0 <= i < sources.len() ==> #[trigger] matching(sources2, targets)[i] == matching(
                sources,
                targets,
            )[p[i]],
{
    let n = sources.len();
    let order = ordering_index(sources, false, false);
    let order2 = ordering_index(sources2, false, false);
    lemma_ordering_index_exists(sources, false, false);
    lemma_ordering_index_exists(sources2, false, false);
    lemma_ordering_rearranged(sources, sources2, false, false, p);
    assert forall|r: int| 0 <= r < n implies sources2[#[trigger] order2[r] as int]
        == sources[order[r] as int] by {
        assert(p[order2[r] as int] == order[r]);
    }
    lemma_picks_rearranged(sources, sources2, targets, order, order2, n);
    assert forall|i: int| 0 <= i < n implies #[trigger] matching(sources2, targets)[i] == matching(
        sources,
        targets,
    )[p[i]] by {
        lemma_permutation_covers(order2, n, i);
        lemma_permutation_covers(order, n, p[i]);
        let r2 = rank_of(order2, i);
        let r = rank_of(order, p[i]);
        assert(p[order2[r2] as int] == order[r2]);
        if r < r2 {
            assert(order[r] != order[r2]);
        } else if r2 < r {
            assert(order[r2] != order[r]);
        }
    }
}

fn gap_of(a: i64, b: i64) -> (g: i128)
    ensures
        g == gap(a, b),
{
    let d: i128 = a as i128 - b as i128;
    if d < 0 {
        -d
    } else {
        d
    }
}

/// Finds the match for `v` among the targets not marked in `used`.
fn find_nearest(v: i64, targets: &[i64], used: &Vec<bool>, Ghost(taken): Ghost<Set<int>>) -> (best:
    usize)
    requires
        used.len() == targets.len(),
        forall|j: int| 0 <= j < targets.len() ==> (#[trigger] used[j] <==> taken.contains(j)),
        exists|j: int| 0 <= j < targets.len() && !taken.contains(j),
    ensures
        is_nearest_unused(v, targets@, taken, best as int),
{
    let n: usize = targets.len();
    let mut found: bool = false;
    let mut best: usize = 0;
    let mut best_gap: i128 = 0;
    let mut j: usize = 0;
    while j < n
        invariant
            n == targets.len(),
            used.len() == n,
            j <= n,
            forall|k: int| 0 <= k < n ==> (#[trigger] used[k] <==> taken.contains(k)),
            !found ==> forall|k: int| 0 <= k < j ==> taken.contains(k),
            found ==> best < j && !taken.contains(best as int) && best_gap == gap(
                v,
                targets@[best as int],
            ),
            found ==> forall|k: int|
                0 <= k < j && !taken.contains(k) ==> no_worse(v, targets@, best as int, k),
        decreases n - j,
    {
        if !used[j] {
            let g: i128 = gap_of(v, targets[j]);
            if !found || g < best_gap {
                found = true;
                best = j;
                best_gap = g;
            }
        }
        j += 1;
    }
    best
}

/// Matches every source entity to a target entity of its own and returns,
/// for each source by position, the position of its target.
pub fn match_nearest(sources: &[i64], targets: &[i64]) -> (r: Result<Vec<usize>, MutationError>)
    ensures
        match r {
            Ok(m) => count_fault(sources@.len(), targets@.len()).is_none() && m@.map_values(
                |t: usize| t as int,
            ) == matching(sources@, targets@),
            Err(e) => count_fault(sources@.len(), targets@.len()) == Some(e),
        },
{
    let n: usize = sources.len();
    if n == 0 || targets.len() == 0 {
        return Err(MutationError::EmptyInput(Stage::Matcher));
    }
    if n != targets.len() {
        return Err(MutationError::ShapeMismatch(Stage::Matcher, Dimension::Entities));
    }
    let order = get_ordering_index(sources, false, false);
    let ghost taken = picks(sources@, targets@, order@, n as nat);
    proof {
        lemma_picks(sources@, targets@, order@, n as nat);
    }
    let mut used: Vec<bool> = Vec::new();
    let mut matched: Vec<usize> = Vec::new();
    let mut f: usize = 0;
    while f < n
        invariant
            f <= n,
            used.len() == f,
            matched.len() == f,
            forall|j: int| 0 <= j < f ==> !(#[trigger] used[j]),
        decreases n - f,
    {
        used.push(false);
        matched.push(0);
        f += 1;
    }
    let mut k: usize = 0;
    while k < n
        invariant
            n == sources.len(),
            n == targets.len(),
            k <= n,
            is_ordering_index(sources@, false, false, order@),
            order@ == ordering_index(sources@, false, false),
            taken == picks(sources@, targets@, order@, n as nat),
            taken.len() == n,
            taken.no_duplicates(),
            forall|r: int|
                0 <= r < n ==> is_nearest_unused(
                    sources@[order[r] as int],
                    targets@,
                    taken.take(r).to_set(),
                    #[trigger] taken[r],
                ),
            used.len() == n,
            matched.len() == n,
            forall|j: int| 0 <= j < n ==> (#[trigger] used[j] <==> taken.take(k as int).to_set().contains(j)),
            forall|r: int| 0 <= r < k ==> matched[order[r] as int] == #[trigger] taken[r],
        decreases n - k,
    {
        let i: usize = order[k];
        let ghost before = taken.take(k as int).to_set();
        proof {
            assert(is_nearest_unused(sources@[i as int], targets@, before, taken[k as int]));
        }
        let best: usize = find_nearest(sources[i], targets, &used, Ghost(before));
        proof {
            lemma_nearest_unique(sources@[i as int], targets@, before, best as int, taken[k as int]);
            let after = taken.take(k + 1);
            assert(after =~= taken.take(k as int).push(taken[k as int]));
            assert forall|j: int| 0 <= j < n implies (j == best || taken.take(k as int).to_set().contains(j)
                <==> after.to_set().contains(j)) by {
                if j == best {
                    assert(after[k as int] == j);
                } else if taken.take(k as int).to_set().contains(j) {
                    let w = choose|w: int| 0 <= w < k && taken.take(k as int)[w] == j;
                    assert(after[w] == j);
                } else if after.to_set().contains(j) {
                    let w = choose|w: int| 0 <= w < k + 1 && after[w] == j;
                    assert(taken.take(k as int)[w] == j);
                }
            }
        }
        used.set(best, true);
        matched.set(i, best);
        k += 1;
    }
    proof {
        let m = matched@.map_values(|t: usize| t as int);
        let want = matching(sources@, targets@);
        assert forall|i: int| 0 <= i < n implies m[i] == want[i] by {
            lemma_permutation_covers(order@, n as nat, i);
            let r = rank_of(order@, i);
            assert(matched[order[r] as int] == taken[r]);
        }
        assert(m =~= want);
    }
    Ok(matched)
}

} // verus!
