//! The distance table of a network topology: one row per node, holding that
//! node's hop distances to each of the other `n - 1` nodes. Rows do not
//! record which column belongs to which target node; the simulation only
//! draws a uniformly random column, so only the distribution of distances
//! in a row matters.

use vstd::prelude::*;
use vstd::arithmetic::div_mod::{lemma_add_mod_noop_right, lemma_fundamental_div_mod_converse};

use rayon::iter::{IntoParallelIterator, ParallelIterator};

use crate::ConstructionError;
use crate::reduce::{seq_min, seq_max, lemma_min_max_entry};
use crate::topology::Topology;

verus! {

/// The distance table of a topology over `n` nodes, stored row-major as
/// `n` rows of `n - 1` entries each.
pub struct CostMatrix {
    /// The number of nodes in the topology.
    n: usize,
    /// The distance entries, row-major.
    cost: Vec<usize>,
}

/// Row `i` of a row-major table with rows of length `m`, as integers.
pub open spec fn row_of(c: Seq<usize>, m: int, i: int) -> Seq<int> {
    Seq::new(m as nat, |k: int| c[i * m + k] as int)
}

/// The sequence `s` rotated left by `shift` positions: entry `k` of the
/// result is entry `(k + shift) % s.len()` of `s`.
pub open spec fn rotate(s: Seq<int>, shift: int) -> Seq<int>
    recommends
        s.len() > 0,
        shift >= 0,
{
    Seq::new(s.len(), |k: int| s[(k + shift) % (s.len() as int)])
}

/// The canonical distance profile of a bidirectional ring of `n` nodes:
/// the distance to the node at circular offset `d` is `min(d, n - d)`.
pub open spec fn ring_profile(n: int) -> Seq<int> {
    Seq::new((n - 1) as nat, |k: int| if k + 1 <= n - 1 - k { k + 1 } else { n - 1 - k })
}

/// The canonical distance profile of a directed ring of `n` nodes: the
/// distance to the node `d` steps ahead is `d`.
pub open spec fn oneway_profile(n: int) -> Seq<int> {
    Seq::new((n - 1) as nat, |k: int| k + 1)
}

/// The distance profile of a leaf of a star of `n` nodes: distance 1 to
/// the hub and 2 to each of the other `n - 2` leaves.
pub open spec fn star_leaf_profile(n: int) -> Seq<int> {
    Seq::new((n - 1) as nat, |k: int| if k == 0 { 1 } else { 2 })
}

/// Row `i` of the line topology over nodes `0 .. n`: distances `i .. 1`
/// to the left-hand neighbours in descending order, then `1 .. n - 1 - i`
/// to the right-hand neighbours in ascending order.
pub open spec fn line_row(n: int, i: int) -> Seq<int> {
    Seq::new((n - 1) as nat, |k: int| if k < i { i - k } else { k - i + 1 })
}

/// A table whose every row is the ring profile, rotated by an amount
/// depending on the row index.
pub open spec fn is_ring_table(t: CostMatrix) -> bool {
    forall|i: int| 0 <= i < t.spec_n() ==>
        #[trigger] t.row(i) == rotate(ring_profile(t.spec_n()), t.spec_n() - 1 - i)
}

/// A table whose every row is the directed-ring profile, rotated by an
/// amount depending on the row index.
pub open spec fn is_oneway_ring_table(t: CostMatrix) -> bool {
    forall|i: int| 0 <= i < t.spec_n() ==>
        #[trigger] t.row(i) == rotate(oneway_profile(t.spec_n()), t.spec_n() - 1 - i)
}

/// A table whose hub row (row 0) is all ones and whose every leaf row is
/// the leaf profile, rotated by an amount depending on the row index.
pub open spec fn is_star_table(t: CostMatrix) -> bool {
    &&& t.row(0) == Seq::new((t.spec_n() - 1) as nat, |k: int| 1int)
    &&& forall|i: int| 1 <= i < t.spec_n() ==>
        #[trigger] t.row(i) == rotate(star_leaf_profile(t.spec_n()), i - 1)
}

/// A table whose row `i` holds the line-topology distances `|i - j|` to
/// the other nodes `j`, left-hand side descending then right-hand side
/// ascending.
pub open spec fn is_line_table(t: CostMatrix) -> bool {
    forall|i: int| 0 <= i < t.spec_n() ==> #[trigger] t.row(i) == line_row(t.spec_n(), i)
}

/// A flat position inside an earlier row lies strictly below the start of
/// the current row.
proof fn lemma_flat_index_lt(i0: int, k0: int, i: int, m: int)
    requires
        0 <= i0 < i,
        0 <= k0 < m,
    ensures
        0 <= i0 * m + k0 < i * m,
{
    assert(i0 * m + k0 < i * m) by (nonlinear_arith)
        requires
            0 <= i0 < i,
            0 <= k0 < m,
    ;
    assert(0 <= i0 * m) by (nonlinear_arith)
        requires
            0 <= i0,
            0 < m,
    ;
}

/// Appends to `cost` one row of length `profile.len()`: the profile
/// rotated left by `shift`.
fn push_rotation(cost: &mut Vec<usize>, profile: &Vec<usize>, shift: usize)
    requires
        profile@.len() >= 1,
        shift < profile@.len(),
        forall|j: int| 0 <= j < profile@.len() ==>
            1 <= #[trigger] profile@[j] <= profile@.len(),
    ensures
        final(cost)@.len() == old(cost)@.len() + profile@.len(),
        forall|p: int| 0 <= p < old(cost)@.len() ==> final(cost)@[p] == old(cost)@[p],
        forall|p: int| old(cost)@.len() <= p < final(cost)@.len() ==>
            #[trigger] final(cost)@[p] as int
                == profile@[((p - old(cost)@.len()) + shift) % (profile@.len() as int)] as int,
        forall|p: int| old(cost)@.len() <= p < final(cost)@.len() ==>
            1 <= #[trigger] final(cost)@[p] <= profile@.len(),
{
    let m = profile.len();
    let mut k: usize = 0;
    while k < m
        invariant
            m == profile@.len(),
            1 <= m,
            shift < m,
            k <= m,
            forall|j: int| 0 <= j < m ==> 1 <= #[trigger] profile@[j] <= m,
            cost@.len() == old(cost)@.len() + k,
            forall|p: int| 0 <= p < old(cost)@.len() ==> cost@[p] == old(cost)@[p],
            forall|p: int| old(cost)@.len() <= p < cost@.len() ==>
                #[trigger] cost@[p] as int
                    == profile@[((p - old(cost)@.len()) + shift) % (m as int)] as int,
            forall|p: int| old(cost)@.len() <= p < cost@.len() ==>
                1 <= #[trigger] cost@[p] <= m,
        decreases m - k,
    {
        let idx = if k < m - shift { shift + k } else { k - (m - shift) };
        proof {
            if k < m - shift {
                lemma_fundamental_div_mod_converse(
                    k + shift as int, m as int, 0, (shift + k) as int);
            } else {
                lemma_fundamental_div_mod_converse(
                    k + shift as int, m as int, 1, (k + shift - m) as int);
            }
        }
        cost.push(profile[idx]);
        k = k + 1;
    }
}

/// How the rotation amount of row `i` is chosen when a table is filled
/// from one shared profile.
#[derive(Clone, Copy, Debug, PartialEq, Eq, Structural)]
enum RowShift {
    /// Row `i` is rotated by `n - 1 - i` (both ring kinds).
    BackwardFromEnd,
    /// Row `i` is rotated by `i - 1` (star leaves; row 0 is the hub's and
    /// is laid down before these).
    ForwardFromOne,
}

/// The rotation amount that `RowShift` assigns to row `i` of a table of
/// `n` nodes.
spec fn spec_shift(s: RowShift, n: int, i: int) -> int {
    match s {
        RowShift::BackwardFromEnd => n - 1 - i,
        RowShift::ForwardFromOne => i - 1,
    }
}

/// Extends `cost`, already holding rows `0 .. first_row`, with the rows
/// `first_row .. n`: row `i` is `profile` rotated by the shift that `s`
/// assigns to `i`, reduced modulo the row length.
fn fill_rotated_rows(
    cost: &mut Vec<usize>,
    n: usize,
    profile: &Vec<usize>,
    s: RowShift,
    first_row: usize,
)
    requires
        2 <= n,
        profile@.len() == n - 1,
        first_row <= n,
        old(cost)@.len() == first_row * (n as int - 1),
        s == RowShift::ForwardFromOne ==> first_row >= 1,
        forall|j: int| 0 <= j < profile@.len() ==>
            1 <= #[trigger] profile@[j] <= n - 1,
    ensures
        final(cost)@.len() == n * (n as int - 1),
        forall|p: int| 0 <= p < old(cost)@.len() ==> final(cost)@[p] == old(cost)@[p],
        forall|i: int| first_row <= i < n ==>
            #[trigger] row_of(final(cost)@, n - 1, i)
                == rotate(profile@.map_values(|v: usize| v as int),
                    spec_shift(s, n as int, i) % (n as int - 1)),
        forall|p: int| old(cost)@.len() <= p < final(cost)@.len() ==>
            1 <= #[trigger] final(cost)@[p] <= n - 1,
{
    let m = n - 1;
    let mut i: usize = first_row;
    while i < n
        invariant
            m == n - 1,
            2 <= n,
            profile@.len() == m,
            forall|j: int| 0 <= j < profile@.len() ==> 1 <= #[trigger] profile@[j] <= m,
            first_row <= i <= n,
            s == RowShift::ForwardFromOne ==> first_row >= 1,
            old(cost)@.len() == first_row * (m as int),
            cost@.len() == i * (m as int),
            forall|p: int| 0 <= p < old(cost)@.len() ==> cost@[p] == old(cost)@[p],
            forall|i0: int| first_row <= i0 < i ==>
                #[trigger] row_of(cost@, m as int, i0)
                    == rotate(profile@.map_values(|v: usize| v as int),
                        spec_shift(s, n as int, i0) % (m as int)),
            forall|p: int| old(cost)@.len() <= p < cost@.len() ==>
                1 <= #[trigger] cost@[p] <= m,
        decreases n - i,
    {
        let shift = match s {
            RowShift::BackwardFromEnd => (n - 1 - i) % m,
            RowShift::ForwardFromOne => (i - 1) % m,
        };
        proof {
            assert(i * (m as int) + m == (i + 1) * (m as int)) by (nonlinear_arith);
            assert(first_row * (m as int) <= i * (m as int)) by (nonlinear_arith)
                requires
                    0 <= first_row <= i,
                    0 <= m,
            ;
        }
        let ghost prev = cost@;
        push_rotation(cost, profile, shift);
        proof {
            assert forall|p: int| old(cost)@.len() <= p < cost@.len() implies
                1 <= #[trigger] cost@[p] <= m by {
                if p < prev.len() {
                    assert(cost@[p] == prev[p]);
                }
            }
            let p_int = profile@.map_values(|v: usize| v as int);
            assert forall|i0: int| first_row <= i0 < i + 1 implies
                #[trigger] row_of(cost@, m as int, i0)
                    == rotate(p_int, spec_shift(s, n as int, i0) % (m as int)) by {
                if i0 < i {
                    assert(row_of(cost@, m as int, i0) =~= row_of(prev, m as int, i0)) by {
                        assert forall|k: int| 0 <= k < m implies
                            row_of(cost@, m as int, i0)[k]
                                == row_of(prev, m as int, i0)[k] by {
                            lemma_flat_index_lt(i0, k, i as int, m as int);
                        }
                    }
                } else {
                    assert(row_of(cost@, m as int, i0)
                        =~= rotate(p_int, spec_shift(s, n as int, i0) % (m as int))) by {
                        assert forall|k: int| 0 <= k < m implies
                            row_of(cost@, m as int, i0)[k]
                                == rotate(p_int,
                                    spec_shift(s, n as int, i0) % (m as int))[k] by {
                            assert(i0 * (m as int) + k == prev.len() + k);
                            lemma_add_mod_noop_right(k, spec_shift(s, n as int, i0), m as int);
                            assert(spec_shift(s, n as int, i0) % (m as int) == shift);
                        }
                    }
                }
            }
        }
        i = i + 1;
    }
}

impl CostMatrix {
    /// The number of nodes, as a mathematical integer.
    pub closed spec fn spec_n(&self) -> int {
        self.n as int
    }

    /// The flat, row-major distance entries.
    pub closed spec fn entries(&self) -> Seq<usize> {
        self.cost@
    }

    /// Row `i` of the table, as integers.
    pub open spec fn row(&self, i: int) -> Seq<int> {
        row_of(self.entries(), self.spec_n() - 1, i)
    }

    /// Well-formedness: more than one node, exactly `n` rows of `n - 1`
    /// entries, and every entry a positive distance of at most `n - 1`.
    pub open spec fn wf(&self) -> bool {
        &&& self.spec_n() > 1
        &&& self.entries().len() == self.spec_n() * (self.spec_n() - 1)
        &&& forall|p: int| 0 <= p < self.entries().len() ==>
            1 <= #[trigger] self.entries()[p] <= self.spec_n() - 1
    }

    /// The number of nodes in the topology.
    pub fn node_count(&self) -> (r: usize)
        ensures
            r == self.spec_n(),
    {
        self.n
    }

    /// The total number of distance entries, `n * (n - 1)`.
    pub fn entry_count(&self) -> (r: usize)
        ensures
            r == self.entries().len(),
    {
        self.cost.len()
    }

    /// The distance stored in row `i` at column `k`.
    pub fn entry(&self, i: usize, k: usize) -> (r: usize)
        requires
            self.wf(),
            i < self.spec_n(),
            k < self.spec_n() - 1,
        ensures
            r as int == self.row(i as int)[k as int],
    {
        let len = self.cost.len();
        proof {
            lemma_flat_index_lt(i as int, k as int, self.spec_n(), self.spec_n() - 1);
            assert(len == self.entries().len());
        }
        let m = self.n - 1;
        self.cost[i * m + k]
    }

    /// Create the table of a bidirectional ring of `n` nodes: every row is
    /// a rotation of the canonical profile, which ascends `1, 2, ...`,
    /// carries the midpoint `n / 2` once when `n` is even, and descends
    /// back to `1`.
    pub fn ring(n: usize) -> (r: Result<CostMatrix, ConstructionError>)
        ensures
            n <= 1 <==> r is Err,
            r is Err ==> r == Err::<CostMatrix, ConstructionError>(
                ConstructionError::InvalidNodeCount),
            r is Ok ==> {
                let t = r->Ok_0;
                t.wf() && t.spec_n() == n && is_ring_table(t)
            },
    {
        if n <= 1 {
            return Err(ConstructionError::InvalidNodeCount);
        }
        let m = n - 1;
        let mut profile: Vec<usize> = Vec::new();
        let mut k: usize = 0;
        while k < m
            invariant
                m == n - 1,
                2 <= n,
                k <= m,
                profile@.len() == k,
                forall|j: int| 0 <= j < k ==>
                    #[trigger] profile@[j] as int == ring_profile(n as int)[j],
            decreases m - k,
        {
            let d = k + 1;
            let e = m - k;
            profile.push(if d <= e { d } else { e });
            k = k + 1;
        }
        let mut cost: Vec<usize> = Vec::new();
        fill_rotated_rows(&mut cost, n, &profile, RowShift::BackwardFromEnd, 0);
        proof {
            lemma_profile_rows_table(cost@, n as int, 0, profile@, ring_profile(n as int),
                RowShift::BackwardFromEnd);
            assert forall|j: int| 0 <= j < m implies
                1 <= #[trigger] profile@[j] <= n - 1 by {
                assert(profile@[j] as int == ring_profile(n as int)[j]);
            }
        }
        let ghost c = cost@;
        let t = CostMatrix { n, cost };
        proof {
            assert(t.entries() == c);
            assert forall|p: int| 0 <= p < t.entries().len() implies
                1 <= #[trigger] t.entries()[p] <= t.spec_n() - 1 by {
                assert(1 <= c[p] <= n - 1);
            }
            assert forall|i: int| 0 <= i < t.spec_n() implies
                #[trigger] t.row(i)
                    == rotate(ring_profile(t.spec_n()), t.spec_n() - 1 - i) by {
                assert(t.row(i) == row_of(c, n - 1, i));
            }
        }
        Ok(t)
    }

    /// Create the table of a directed ring of `n` nodes: every row is a
    /// rotation of the canonical profile `1, 2, ..., n - 1`.
    pub fn oneway_ring(n: usize) -> (r: Result<CostMatrix, ConstructionError>)
        ensures
            n <= 1 <==> r is Err,
            r is Err ==> r == Err::<CostMatrix, ConstructionError>(
                ConstructionError::InvalidNodeCount),
            r is Ok ==> {
                let t = r->Ok_0;
                t.wf() && t.spec_n() == n && is_oneway_ring_table(t)
            },
    {
        if n <= 1 {
            return Err(ConstructionError::InvalidNodeCount);
        }
        let m = n - 1;
        let mut profile: Vec<usize> = Vec::new();
        let mut k: usize = 0;
        while k < m
            invariant
                m == n - 1,
                2 <= n,
                k <= m,
                profile@.len() == k,
                forall|j: int| 0 <= j < k ==>
                    #[trigger] profile@[j] as int == oneway_profile(n as int)[j],
            decreases m - k,
        {
            profile.push(k + 1);
            k = k + 1;
        }
        let mut cost: Vec<usize> = Vec::new();
        fill_rotated_rows(&mut cost, n, &profile, RowShift::BackwardFromEnd, 0);
        proof {
            lemma_profile_rows_table(cost@, n as int, 0, profile@, oneway_profile(n as int),
                RowShift::BackwardFromEnd);
        }
        let ghost c = cost@;
        let t = CostMatrix { n, cost };
        proof {
            assert(t.entries() == c);
            assert forall|p: int| 0 <= p < t.entries().len() implies
                1 <= #[trigger] t.entries()[p] <= t.spec_n() - 1 by {
                assert(1 <= c[p] <= n - 1);
            }
            assert forall|i: int| 0 <= i < t.spec_n() implies
                #[trigger] t.row(i)
                    == rotate(oneway_profile(t.spec_n()), t.spec_n() - 1 - i) by {
                assert(t.row(i) == row_of(c, n - 1, i));
            }
        }
        Ok(t)
    }

    /// Create the table of a star of `n` nodes with node 0 as the hub:
    /// the hub's row is all ones, and every leaf row is a rotation of the
    /// leaf profile `1, 2, 2, ..., 2`.
    pub fn star(n: usize) -> (r: Result<CostMatrix, ConstructionError>)
        ensures
            n <= 1 <==> r is Err,
            r is Err ==> r == Err::<CostMatrix, ConstructionError>(
                ConstructionError::InvalidNodeCount),
            r is Ok ==> {
                let t = r->Ok_0;
                t.wf() && t.spec_n() == n && is_star_table(t)
            },
    {
        if n <= 1 {
            return Err(ConstructionError::InvalidNodeCount);
        }
        let m = n - 1;
        let mut profile: Vec<usize> = Vec::new();
        let mut k: usize = 0;
        while k < m
            invariant
                m == n - 1,
                2 <= n,
                k <= m,
                profile@.len() == k,
                forall|j: int| 0 <= j < k ==>
                    #[trigger] profile@[j] as int == star_leaf_profile(n as int)[j],
            decreases m - k,
        {
            profile.push(if k == 0 { 1 } else { 2 });
            k = k + 1;
        }
        let mut cost: Vec<usize> = Vec::new();
        let mut h: usize = 0;
        while h < m
            invariant
                h <= m,
                cost@.len() == h,
                forall|p: int| 0 <= p < h ==> #[trigger] cost@[p] == 1usize,
            decreases m - h,
        {
            cost.push(1);
            h = h + 1;
        }
        proof {
            assert(cost@.len() == 1 * (n as int - 1));
            assert forall|j: int| 0 <= j < profile@.len() implies
                1 <= #[trigger] profile@[j] <= n - 1 by {
                assert(profile@[j] as int == star_leaf_profile(n as int)[j]);
            }
        }
        let ghost hub = cost@;
        fill_rotated_rows(&mut cost, n, &profile, RowShift::ForwardFromOne, 1);
        proof {
            lemma_profile_rows_table(cost@, n as int, 1, profile@, star_leaf_profile(n as int),
                RowShift::ForwardFromOne);
        }
        let ghost c = cost@;
        let t = CostMatrix { n, cost };
        proof {
            assert(t.entries() == c);
            assert forall|p: int| 0 <= p < t.entries().len() implies
                1 <= #[trigger] t.entries()[p] <= t.spec_n() - 1 by {
                if p < hub.len() {
                    assert(c[p] == hub[p]);
                } else {
                    assert(1 <= c[p] <= n - 1);
                }
            }
            assert(t.row(0) =~= Seq::new((t.spec_n() - 1) as nat, |k: int| 1int)) by {
                assert forall|k: int| 0 <= k < m implies t.row(0)[k] == 1int by {
                    assert(t.row(0)[k] == c[0 * (m as int) + k] as int);
                    assert(c[k] == hub[k]);
                }
            }
            assert forall|i: int| 1 <= i < t.spec_n() implies
                #[trigger] t.row(i)
                    == rotate(star_leaf_profile(t.spec_n()), i - 1) by {
                assert(t.row(i) == row_of(c, n - 1, i));
            }
        }
        Ok(t)
    }

    /// Create the table of a line of `n` nodes laid out as `0 .. n`: row
    /// `i` holds the distances to its left-hand neighbours in descending
    /// order, then to its right-hand neighbours in ascending order.
    pub fn line(n: usize) -> (r: Result<CostMatrix, ConstructionError>)
        ensures
            n <= 1 <==> r is Err,
            r is Err ==> r == Err::<CostMatrix, ConstructionError>(
                ConstructionError::InvalidNodeCount),
            r is Ok ==> {
                let t = r->Ok_0;
                t.wf() && t.spec_n() == n && is_line_table(t)
            },
    {
        if n <= 1 {
            return Err(ConstructionError::InvalidNodeCount);
        }
        let m = n - 1;
        let mut cost: Vec<usize> = Vec::new();
        let mut i: usize = 0;
        while i < n
            invariant
                m == n - 1,
                2 <= n,
                i <= n,
                cost@.len() == i * (m as int),
                forall|i0: int| 0 <= i0 < i ==>
                    #[trigger] row_of(cost@, m as int, i0) == line_row(n as int, i0),
                forall|p: int| 0 <= p < cost@.len() ==> 1 <= #[trigger] cost@[p] <= m,
            decreases n - i,
        {
            let mut rowv: Vec<usize> = Vec::new();
            let mut k: usize = 0;
            while k < m
                invariant
                    m == n - 1,
                    2 <= n,
                    i < n,
                    k <= m,
                    rowv@.len() == k,
                    forall|kk: int| 0 <= kk < k ==>
                        #[trigger] rowv@[kk] as int == line_row(n as int, i as int)[kk],
                    forall|kk: int| 0 <= kk < k ==> 1 <= #[trigger] rowv@[kk] <= m,
                decreases m - k,
            {
                let v = if k < i { i - k } else { k - i + 1 };
                rowv.push(v);
                k = k + 1;
            }
            let ghost prev = cost@;
            let ghost rv = rowv@;
            cost.append(&mut rowv);
            proof {
                assert(i * (m as int) + m == (i + 1) * (m as int)) by (nonlinear_arith);
                assert forall|i0: int| 0 <= i0 < i + 1 implies
                    #[trigger] row_of(cost@, m as int, i0) == line_row(n as int, i0) by {
                    if i0 < i {
                        assert(row_of(cost@, m as int, i0) =~= row_of(prev, m as int, i0)) by {
                            assert forall|k0: int| 0 <= k0 < m implies
                                row_of(cost@, m as int, i0)[k0]
                                    == row_of(prev, m as int, i0)[k0] by {
                                lemma_flat_index_lt(i0, k0, i as int, m as int);
                            }
                        }
                    } else {
                        assert(row_of(cost@, m as int, i0) =~= line_row(n as int, i0)) by {
                            assert forall|k0: int| 0 <= k0 < m implies
                                row_of(cost@, m as int, i0)[k0]
                                    == line_row(n as int, i0)[k0] by {
                                assert(i0 * (m as int) + k0 == prev.len() + k0);
                                assert(cost@[prev.len() + k0] == rv[k0]);
                            }
                        }
                    }
                }
                assert forall|p: int| 0 <= p < cost@.len() implies
                    1 <= #[trigger] cost@[p] <= m by {
                    if p < prev.len() {
                        assert(cost@[p] == prev[p]);
                    } else {
                        assert(cost@[p] == rv[p - prev.len()]);
                    }
                }
            }
            i = i + 1;
        }
        let ghost c = cost@;
        let t = CostMatrix { n, cost };
        proof {
            assert(t.entries() == c);
            assert forall|i0: int| 0 <= i0 < t.spec_n() implies
                #[trigger] t.row(i0) == line_row(t.spec_n(), i0) by {
                assert(t.row(i0) == row_of(c, n - 1, i0));
            }
        }
        Ok(t)
    }
}

/// One way every node can choose a target: entry `j` of `picks` is the
/// column drawn for node `j`'s message.
pub open spec fn valid_picks(t: CostMatrix, picks: Seq<int>) -> bool {
    &&& picks.len() == t.spec_n()
    &&& forall|j: int| 0 <= j < picks.len() ==> 0 <= #[trigger] picks[j] < t.spec_n() - 1
}

/// The total hop count of one trial in which node `j` reads the distance
/// stored at column `picks[j]` of its row.
pub open spec fn trial_sum(t: CostMatrix, picks: Seq<int>) -> int
    decreases picks.len(),
{
    if picks.len() == 0 {
        0
    } else {
        trial_sum(t, picks.drop_last()) + t.row(picks.len() - 1)[picks.last()]
    }
}

/// Whatever columns a trial draws, its total hop count lies between the
/// table's least and greatest entry, each taken once per participating
/// node. In particular a whole trial's mean hop count lies between the
/// table's minimum and maximum entries.
pub proof fn lemma_trial_sum_bounds(t: CostMatrix, picks: Seq<int>)
    requires
        t.wf(),
        picks.len() <= t.spec_n(),
        forall|j: int| 0 <= j < picks.len() ==> 0 <= #[trigger] picks[j] < t.spec_n() - 1,
    ensures
        picks.len() * seq_min(t.entries()) <= trial_sum(t, picks),
        trial_sum(t, picks) <= picks.len() * seq_max(t.entries()),
    decreases picks.len(),
{
    let n = t.spec_n();
    let m = n - 1;
    let lo = seq_min(t.entries());
    let hi = seq_max(t.entries());
    if picks.len() == 0 {
        assert(0 * lo == 0) by (nonlinear_arith);
        assert(0 * hi == 0) by (nonlinear_arith);
    } else {
        let ll = picks.len() - 1;
        lemma_trial_sum_bounds(t, picks.drop_last());
        let pos = ll * m + picks.last();
        lemma_flat_index_lt(ll, picks.last(), n, m);
        lemma_min_max_entry(t.entries(), pos);
        assert(t.row(ll)[picks.last()] == t.entries()[pos] as int);
        assert((ll + 1) * lo == ll * lo + lo) by (nonlinear_arith);
        assert((ll + 1) * hi == ll * hi + hi) by (nonlinear_arith);
    }
}

/// Relies on fastrand::usize: a draw from the range `.. bound` returns a
/// uniformly distributed value below `bound` from the thread-local
/// generator, and panics only when the range is empty.
#[verifier::external_body]
fn random_index(bound: usize) -> (r: usize)
    requires
        bound >= 1,
    ensures
        r < bound,
{
    fastrand::usize(..bound)
}

/// Relies on rayon's into_par_iter, map and sum over the range
/// `0 .. trial_count`: the parallel iterator yields exactly `trial_count`
/// items, each is mapped through one call of `simulate_step`, and `sum`
/// combines the mapped values by addition in some order. The bounds
/// follow from `simulate_step`'s contract, one trial at a time; the
/// requirement keeps the total below `u64::MAX`, so the sum cannot
/// overflow.
#[verifier::external_body]
fn parallel_trial_total(t: &CostMatrix, trial_count: usize) -> (r: u64)
    requires
        t.wf(),
        trial_count * t.spec_n() * (t.spec_n() - 1) <= u64::MAX,
    ensures
        trial_count * t.spec_n() * seq_min(t.entries()) <= r as int,
        r as int <= trial_count * t.spec_n() * seq_max(t.entries()),
{
    (0..trial_count).into_par_iter().map(|_| t.simulate_step()).sum()
}

impl CostMatrix {
    /// Build the distance table of `kind` over `n` nodes.
    pub fn build(kind: Topology, n: usize) -> (r: Result<CostMatrix, ConstructionError>)
        ensures
            n <= 1 <==> r is Err,
            r is Err ==> r == Err::<CostMatrix, ConstructionError>(
                ConstructionError::InvalidNodeCount),
            r is Ok ==> {
                let t = r->Ok_0;
                t.wf() && t.spec_n() == n && match kind {
                    Topology::Ring => is_ring_table(t),
                    Topology::OnewayRing => is_oneway_ring_table(t),
                    Topology::Star => is_star_table(t),
                    Topology::Line => is_line_table(t),
                }
            },
    {
        match kind {
            Topology::Ring => CostMatrix::ring(n),
            Topology::OnewayRing => CostMatrix::oneway_ring(n),
            Topology::Star => CostMatrix::star(n),
            Topology::Line => CostMatrix::line(n),
        }
    }

    /// Let each node draw one uniformly random target and read the hop
    /// distance to it. Returns the total hop count of the round; the
    /// round's mean hop count is this total divided by `n`.
    pub fn simulate_step(&self) -> (r: u64)
        requires
            self.wf(),
        ensures
            exists|picks: Seq<int>|
                valid_picks(*self, picks) && r as int == trial_sum(*self, picks),
            self.spec_n() * seq_min(self.entries()) <= r as int,
            r as int <= self.spec_n() * seq_max(self.entries()),
    {
        let m = self.n - 1;
        let len = self.cost.len();
        let mut row_i: usize = 0;
        let mut total: u64 = 0;
        let ghost mut picks: Seq<int> = Seq::empty();
        while row_i < self.n
            invariant
                self.wf(),
                m == self.spec_n() - 1,
                len == self.entries().len(),
                row_i <= self.spec_n(),
                picks.len() == row_i,
                forall|j: int| 0 <= j < picks.len() ==> 0 <= #[trigger] picks[j] < m,
                total as int == trial_sum(*self, picks),
                total as int <= (row_i as int) * (m as int),
            decreases self.spec_n() - row_i,
        {
            let j = random_index(m);
            proof {
                lemma_flat_index_lt(row_i as int, j as int, self.spec_n(), m as int);
                assert((row_i + 1) * (m as int) == row_i * (m as int) + m) by (nonlinear_arith);
                assert((row_i as int + 1) * (m as int) <= self.spec_n() * (m as int))
                    by (nonlinear_arith)
                    requires
                        row_i as int + 1 <= self.spec_n(),
                        0 <= m,
                ;
            }
            let e = self.cost[row_i * m + j];
            proof {
                assert(1 <= self.entries()[row_i * m + j] <= m);
            }
            total = total + (e as u64);
            proof {
                let prev_picks = picks;
                picks = picks.push(j as int);
                assert(picks.drop_last() =~= prev_picks);
                assert(picks.last() == j as int);
                assert(self.row(row_i as int)[j as int]
                    == self.entries()[row_i * m + j] as int);
            }
            row_i = row_i + 1;
        }
        proof {
            assert(valid_picks(*self, picks));
            lemma_trial_sum_bounds(*self, picks);
        }
        total
    }

    /// Run `trial_count` independent trials concurrently and add up their
    /// total hop counts: the estimated mean hop count of the topology is
    /// the returned total divided by `trial_count * n`. The total is
    /// exact whatever order or grouping the workers combine trials in.
    pub fn estimate(&self, trial_count: usize) -> (r: u64)
        requires
            self.wf(),
            trial_count * self.spec_n() * (self.spec_n() - 1) <= u64::MAX,
        ensures
            trial_count * self.spec_n() * seq_min(self.entries()) <= r as int,
            r as int <= trial_count * self.spec_n() * seq_max(self.entries()),
    {
        parallel_trial_total(self, trial_count)
    }
}

/// Every row of a table filled from one profile equals the rotation, by
/// the unreduced shift, of the profile's mathematical description.
proof fn lemma_profile_rows_table(
    c: Seq<usize>,
    n: int,
    lo: int,
    profile: Seq<usize>,
    profile_spec: Seq<int>,
    s: RowShift,
)
    requires
        2 <= n,
        0 <= lo,
        profile.len() == n - 1,
        profile_spec.len() == n - 1,
        forall|j: int| 0 <= j < n - 1 ==> #[trigger] profile[j] as int == profile_spec[j],
        forall|i: int| lo <= i < n ==>
            #[trigger] row_of(c, n - 1, i)
                == rotate(profile.map_values(|v: usize| v as int),
                    spec_shift(s, n, i) % (n - 1)),
    ensures
        forall|i: int| lo <= i < n ==>
            #[trigger] row_of(c, n - 1, i) == rotate(profile_spec, spec_shift(s, n, i)),
{
    let p_int = profile.map_values(|v: usize| v as int);
    assert(p_int =~= profile_spec);
    assert forall|i: int| lo <= i < n implies
        #[trigger] row_of(c, n - 1, i) == rotate(profile_spec, spec_shift(s, n, i)) by {
        assert(rotate(profile_spec, spec_shift(s, n, i) % (n - 1))
            =~= rotate(profile_spec, spec_shift(s, n, i))) by {
            assert forall|k: int| 0 <= k < n - 1 implies
                rotate(profile_spec, spec_shift(s, n, i) % (n - 1))[k]
                    == rotate(profile_spec, spec_shift(s, n, i))[k] by {
                lemma_add_mod_noop_right(k, spec_shift(s, n, i), n - 1);
            }
        }
    }
}

} // verus!
