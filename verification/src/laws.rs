//! Laws relating the topology tables to their canonical profiles: a
//! rotated row keeps the profile's multiset and sum, every directed-ring
//! row sums to `n * (n - 1) / 2`, and every star leaf row holds exactly
//! one hop of 1 beside hops of 2.

use vstd::prelude::*;
use vstd::seq_lib::lemma_multiset_commutative;
use vstd::arithmetic::div_mod::{lemma_div_multiples_vanish, lemma_fundamental_div_mod_converse};

use crate::cost_matrix::{
    is_oneway_ring_table, is_ring_table, is_star_table, oneway_profile, ring_profile,
    rotate, star_leaf_profile, CostMatrix,
};
use crate::reduce::{lemma_sum_reordered, sum_int};

verus! {

/// Rotating a sequence only reorders it: the multiset of entries is kept.
pub proof fn lemma_rotate_is_reordering(s: Seq<int>, r: int)
    requires
        0 <= r <= s.len(),
    ensures
        rotate(s, r).to_multiset() == s.to_multiset(),
{
    let len = s.len() as int;
    assert(rotate(s, r) =~= s.skip(r) + s.take(r)) by {
        assert forall|k: int| 0 <= k < len implies
            rotate(s, r)[k] == (s.skip(r) + s.take(r))[k] by {
            if k < len - r {
                lemma_fundamental_div_mod_converse(k + r, len, 0, k + r);
            } else {
                lemma_fundamental_div_mod_converse(k + r, len, 1, k + r - len);
            }
        }
    }
    lemma_multiset_commutative(s.skip(r), s.take(r));
    lemma_multiset_commutative(s.take(r), s.skip(r));
    assert(s.take(r) + s.skip(r) =~= s);
}

/// Rotating a sequence does not change its sum.
pub proof fn lemma_sum_rotate(s: Seq<int>, r: int)
    requires
        0 <= r <= s.len(),
    ensures
        sum_int(rotate(s, r)) == sum_int(s),
{
    lemma_rotate_is_reordering(s, r);
    lemma_sum_reordered(rotate(s, r), s);
}

/// Every row of a ring table is a permutation of the canonical ring
/// profile: one true distance per other node.
pub proof fn lemma_ring_row_multiset(t: CostMatrix, i: int)
    requires
        t.wf(),
        is_ring_table(t),
        0 <= i < t.spec_n(),
    ensures
        t.row(i).to_multiset() == ring_profile(t.spec_n()).to_multiset(),
{
    lemma_rotate_is_reordering(ring_profile(t.spec_n()), t.spec_n() - 1 - i);
}

/// Every row of a directed-ring table is a permutation of the canonical
/// profile `1, 2, ..., n - 1`.
pub proof fn lemma_oneway_ring_row_multiset(t: CostMatrix, i: int)
    requires
        t.wf(),
        is_oneway_ring_table(t),
        0 <= i < t.spec_n(),
    ensures
        t.row(i).to_multiset() == oneway_profile(t.spec_n()).to_multiset(),
{
    lemma_rotate_is_reordering(oneway_profile(t.spec_n()), t.spec_n() - 1 - i);
}

/// Every leaf row of a star table is a permutation of the leaf profile
/// `1, 2, 2, ..., 2`.
pub proof fn lemma_star_leaf_row_multiset(t: CostMatrix, i: int)
    requires
        t.wf(),
        is_star_table(t),
        1 <= i < t.spec_n(),
    ensures
        t.row(i).to_multiset() == star_leaf_profile(t.spec_n()).to_multiset(),
{
    lemma_rotate_is_reordering(star_leaf_profile(t.spec_n()), i - 1);
}

/// Twice the sum of the directed-ring profile `1, 2, ..., n - 1` is
/// `n * (n - 1)`.
proof fn lemma_oneway_profile_sum(n: int)
    requires
        2 <= n,
    ensures
        2 * sum_int(oneway_profile(n)) == n * (n - 1),
    decreases n,
{
    if n == 2 {
        assert(oneway_profile(2).drop_last() =~= Seq::<int>::empty());
        assert(sum_int(Seq::<int>::empty()) == 0);
        assert(oneway_profile(2).last() == 1);
        assert(sum_int(oneway_profile(2)) == 1);
    } else {
        lemma_oneway_profile_sum(n - 1);
        assert(oneway_profile(n).drop_last() =~= oneway_profile(n - 1));
        assert(sum_int(oneway_profile(n)) == sum_int(oneway_profile(n - 1)) + (n - 1));
        assert((n - 1) * (n - 2) + 2 * (n - 1) == n * (n - 1)) by (nonlinear_arith);
    }
}

/// Every row of a directed-ring table over `n` nodes sums to
/// `n * (n - 1) / 2`.
pub proof fn lemma_oneway_ring_row_sum(t: CostMatrix, i: int)
    requires
        t.wf(),
        is_oneway_ring_table(t),
        0 <= i < t.spec_n(),
    ensures
        sum_int(t.row(i)) == t.spec_n() * (t.spec_n() - 1) / 2,
{
    let n = t.spec_n();
    assert(t.row(i) == rotate(oneway_profile(n), n - 1 - i));
    lemma_sum_rotate(oneway_profile(n), n - 1 - i);
    lemma_oneway_profile_sum(n);
    let s2 = sum_int(oneway_profile(n));
    lemma_div_multiples_vanish(s2, 2);
    assert((2 * s2) / 2 == s2);
}

/// A row that holds the entry 1 exactly at position `p` and the entry 2
/// everywhere else.
pub open spec fn single_one_row(r: Seq<int>, p: int) -> bool {
    &&& 0 <= p < r.len()
    &&& r[p] == 1
    &&& forall|k: int| 0 <= k < r.len() && k != p ==> #[trigger] r[k] == 2
}

/// Every leaf row of a star table holds exactly one entry 1 — the hop to
/// the hub — and `n - 2` entries 2, the hops to the other leaves.
pub proof fn lemma_star_leaf_row(t: CostMatrix, i: int)
    requires
        t.wf(),
        is_star_table(t),
        1 <= i < t.spec_n(),
    ensures
        exists|p: int| single_one_row(t.row(i), p),
{
    let n = t.spec_n();
    let m = n - 1;
    let shift = i - 1;
    let p = if shift == 0 { 0int } else { m - shift };
    assert(t.row(i)[p] == 1) by {
        if shift == 0 {
            lemma_fundamental_div_mod_converse(0, m, 0, 0);
        } else {
            lemma_fundamental_div_mod_converse(p + shift, m, 1, 0);
        }
    }
    assert forall|k: int| 0 <= k < m && k != p implies #[trigger] t.row(i)[k] == 2 by {
        if k + shift < m {
            lemma_fundamental_div_mod_converse(k + shift, m, 0, k + shift);
        } else {
            lemma_fundamental_div_mod_converse(k + shift, m, 1, k + shift - m);
        }
    }
    assert(single_one_row(t.row(i), p));
}

} // verus!
