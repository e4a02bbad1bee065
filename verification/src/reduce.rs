//! Integer summation over sequences, together with the algebraic facts that
//! make the trial reduction order-independent: a sum is unchanged by
//! splitting a sequence into chunks or by reordering its elements.

use vstd::prelude::*;
use vstd::seq_lib::group_to_multiset_ensures;

verus! {

/// The total of a sequence of integers, summed left to right.
pub open spec fn sum_int(s: Seq<int>) -> int
    decreases s.len(),
{
    if s.len() == 0 {
        0
    } else {
        sum_int(s.drop_last()) + s.last()
    }
}

/// The least entry of a sequence of `usize` values (0 when it is empty).
pub open spec fn seq_min(s: Seq<usize>) -> int
    decreases s.len(),
{
    if s.len() == 0 {
        0
    } else if s.len() == 1 {
        s[0] as int
    } else if (s.last() as int) < seq_min(s.drop_last()) {
        s.last() as int
    } else {
        seq_min(s.drop_last())
    }
}

/// The greatest entry of a sequence of `usize` values (0 when it is empty).
pub open spec fn seq_max(s: Seq<usize>) -> int
    decreases s.len(),
{
    if s.len() == 0 {
        0
    } else if s.len() == 1 {
        s[0] as int
    } else if (s.last() as int) > seq_max(s.drop_last()) {
        s.last() as int
    } else {
        seq_max(s.drop_last())
    }
}

/// Every entry of a non-empty sequence lies between its minimum and maximum.
pub proof fn lemma_min_max_entry(s: Seq<usize>, i: int)
    requires
        0 <= i < s.len(),
    ensures
        seq_min(s) <= s[i] <= seq_max(s),
    decreases s.len(),
{
    if s.len() > 1 && i < s.len() - 1 {
        lemma_min_max_entry(s.drop_last(), i);
    }
}

/// Combining the trial outcomes of two chunks and then totalling equals
/// totalling the chunks separately and adding the partial sums: the
/// estimate's reduction may be re-chunked freely.
pub proof fn lemma_sum_chunked(a: Seq<int>, b: Seq<int>)
    ensures
        sum_int(a + b) == sum_int(a) + sum_int(b),
    decreases b.len(),
{
    if b.len() == 0 {
        assert(a + b =~= a);
    } else {
        assert((a + b).drop_last() =~= a + b.drop_last());
        lemma_sum_chunked(a, b.drop_last());
    }
}

/// Removing one element lowers the sum by exactly that element.
pub proof fn lemma_sum_remove(s: Seq<int>, i: int)
    requires
        0 <= i < s.len(),
    ensures
        sum_int(s.remove(i)) == sum_int(s) - s[i],
{
    let pre = s.subrange(0, i);
    let mid = s.subrange(i, s.len() as int);
    let post = s.subrange(i + 1, s.len() as int);
    assert(s =~= pre + mid);
    assert(mid =~= seq![s[i]] + post);
    assert(seq![s[i]].drop_last() =~= Seq::<int>::empty());
    assert(sum_int(Seq::<int>::empty()) == 0);
    assert(sum_int(seq![s[i]]) == s[i]);
    lemma_sum_chunked(pre, mid);
    lemma_sum_chunked(seq![s[i]], post);
    lemma_sum_chunked(pre, post);
    assert(s.remove(i) =~= pre + post);
}

/// Two sequences holding the same elements, in any order, have the same
/// sum: the estimate's reduction may reorder trials freely.
pub proof fn lemma_sum_reordered(a: Seq<int>, b: Seq<int>)
    requires
        a.to_multiset() == b.to_multiset(),
    ensures
        sum_int(a) == sum_int(b),
    decreases a.len(),
{
    broadcast use group_to_multiset_ensures;

    if a.len() == 0 {
        assert(b.to_multiset().len() == 0);
        assert(b =~= Seq::<int>::empty());
    } else {
        let x = a.last();
        let a1 = a.drop_last();
        assert(a =~= a1.push(x));
        assert(a.to_multiset() =~= a1.to_multiset().insert(x));
        assert(a.to_multiset().count(x) > 0);
        assert(b.contains(x));
        let j = choose|j: int| 0 <= j < b.len() && b[j] == x;
        let b1 = b.remove(j);
        assert(b1.to_multiset() =~= a1.to_multiset()) by {
            assert(b1.to_multiset() =~= b.to_multiset().remove(x));
            assert(a1.to_multiset() =~= a.to_multiset().remove(x));
        }
        lemma_sum_reordered(a1, b1);
        lemma_sum_remove(b, j);
    }
}

} // verus!
