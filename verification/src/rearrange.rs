//! Sums over sequences do not depend on the order of the entries.

use vstd::prelude::*;

verus! {

/// The sum of all entries.
pub open spec fn total(s: Seq<int>) -> int
    decreases s.len(),
{
    if s.len() == 0 {
        0
    } else {
        total(s.drop_last()) + s.last()
    }
}

/// Taking one entry out lowers the sum by that entry.
pub proof fn lemma_total_remove(s: Seq<int>, j: int)
    requires
        0 <= j < s.len(),
    ensures
        total(s) == total(s.remove(j)) + s[j],
    decreases s.len(),
{
    if j == s.len() - 1 {
        assert(s.remove(j) =~= s.drop_last());
    } else {
        lemma_total_remove(s.drop_last(), j);
        assert(s.drop_last().remove(j) =~= s.remove(j).drop_last());
        assert(s.remove(j).last() == s.last());
    }
}

/// `p` lists every index below `n` exactly once.
pub open spec fn is_rearrangement(p: Seq<int>, n: nat) -> bool {
    &&& p.len() == n
    &&& forall|i: int| 0 <= i < n ==> 0 <= #[trigger] p[i] < n
    &&& forall|i: int, j: int| 0 <= i < j < n ==> p[i] != p[j]
}

/// `t` holds the entries of `s` in the order that `p` gives: entry `i` of `t`
/// is entry `p[i]` of `s`.
pub open spec fn is_rearranged<A>(s: Seq<A>, t: Seq<A>, p: Seq<int>) -> bool {
    &&& is_rearrangement(p, s.len())
    &&& t.len() == s.len()
    &&& forall|i: int| 0 <= i < t.len() ==> #[trigger] t[i] == s[p[i]]
}

/// A rearrangement misses no index.
pub proof fn lemma_rearrangement_covers(p: Seq<int>, n: nat, i: int)
    requires
        is_rearrangement(p, n),
        0 <= i < n,
    ensures
        exists|k: int| 0 <= k < n && p[k] == i,
    decreases n,
{
    let last = (n - 1) as int;
    let at = p[last];
    if at != i {
        // Drop the last entry and close the gap that its value leaves.
        let q = Seq::new((n - 1) as nat, |k: int| if p[k] < at { p[k] } else { p[k] - 1 });
        assert forall|a: int, b: int| 0 <= a < b < n - 1 implies q[a] != q[b] by {
            assert(p[a] != p[b] && p[a] != at && p[b] != at);
        }
        assert forall|k: int| 0 <= k < n - 1 implies 0 <= #[trigger] q[k] < n - 1 by {
            assert(p[k] != at);
        }
        let i2 = if i < at { i } else { i - 1 };
        lemma_rearrangement_covers(q, (n - 1) as nat, i2);
        let k = choose|k: int| 0 <= k < n - 1 && q[k] == i2;
        assert(p[k] != at);
        assert(p[k] == i);
    }
}

/// The sum of a sequence is the sum of any rearrangement of it.
pub proof fn lemma_total_rearranged(s: Seq<int>, t: Seq<int>, p: Seq<int>)
    requires
        is_rearranged(s, t, p),
    ensures
        total(t) == total(s),
    decreases s.len(),
{
    let n = s.len();
    if n > 0 {
        let last = (n - 1) as int;
        let at = p[last];
        let q = Seq::new((n - 1) as nat, |k: int| if p[k] < at { p[k] } else { p[k] - 1 });
        let s2 = s.remove(at);
        let t2 = t.drop_last();
        assert forall|a: int, b: int| 0 <= a < b < n - 1 implies q[a] != q[b] by {
            assert(p[a] != p[b] && p[a] != at && p[b] != at);
        }
        assert forall|k: int| 0 <= k < n - 1 implies 0 <= #[trigger] q[k] < n - 1 && t2[k]
            == s2[q[k]] by {
            assert(p[k] != at);
            assert(t2[k] == t[k]);
        }
        lemma_total_rearranged(s2, t2, q);
        lemma_total_remove(s, at);
    }
}

} // verus!
