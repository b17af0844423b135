//! Lemmas connecting the Warshall recurrence to reachability by paths.

use vstd::prelude::*;
use crate::model::{dp_reach, is_walk, is_walk_below, mat_bit, mat_rows, reaches, walk_edge};

verus! {

/// Raising the pivot bound keeps every reachability fact of the recurrence.
pub proof fn lemma_dp_monotone(words: Seq<u32>, row_bits: nat, k1: nat, k2: nat, i: int, j: int)
    requires
        k1 <= k2,
        dp_reach(words, row_bits, k1, i, j),
    ensures
        dp_reach(words, row_bits, k2, i, j),
    decreases k2,
{
    if k2 > k1 {
        lemma_dp_monotone(words, row_bits, k1, (k2 - 1) as nat, i, j);
    }
}

/// Every vertex a walk leaves is a row of the matrix, and every vertex it
/// enters is a column within the row width.
pub proof fn lemma_walk_bounds(words: Seq<u32>, row_bits: nat, p: Seq<int>, i: int, j: int)
    requires
        is_walk(words, row_bits, p, i, j),
    ensures
        forall|k: int|
            0 <= k < p.len() - 1 ==> 0 <= #[trigger] p[k] < mat_rows(words, row_bits),
        forall|k: int| 1 <= k < p.len() ==> 0 <= #[trigger] p[k] < row_bits,
{
    assert forall|k: int| 0 <= k < p.len() - 1 implies 0 <= #[trigger] p[k] < mat_rows(
        words,
        row_bits,
    ) by {
        assert(walk_edge(words, row_bits, p, k));
    }
    assert forall|k: int| 1 <= k < p.len() implies 0 <= #[trigger] p[k] < row_bits by {
        assert(walk_edge(words, row_bits, p, k - 1));
        assert(mat_bit(words, row_bits, p[k - 1], p[k - 1 + 1]));
    }
}

/// Two walks that meet at a vertex concatenate to a walk.
pub proof fn lemma_walk_concat(
    words: Seq<u32>,
    row_bits: nat,
    p1: Seq<int>,
    p2: Seq<int>,
    i: int,
    m: int,
    j: int,
)
    requires
        is_walk(words, row_bits, p1, i, m),
        is_walk(words, row_bits, p2, m, j),
    ensures
        is_walk(words, row_bits, p1 + p2.subrange(1, p2.len() as int), i, j),
{
    let q = p1 + p2.subrange(1, p2.len() as int);
    assert(q.len() == p1.len() + p2.len() - 1);
    assert(q[0] == i);
    assert(q[q.len() - 1] == p2[p2.len() - 1]);
    assert forall|k: int| 0 <= k < q.len() - 1 implies #[trigger] walk_edge(
        words,
        row_bits,
        q,
        k,
    ) by {
        if k < p1.len() - 1 {
            assert(q[k] == p1[k] && q[k + 1] == p1[k + 1]);
            assert(walk_edge(words, row_bits, p1, k));
        } else if k == p1.len() - 1 {
            assert(q[k] == p1[p1.len() - 1] && q[k + 1] == p2[1]);
            assert(walk_edge(words, row_bits, p2, 0));
            assert(mat_bit(words, row_bits, p2[0], p2[1]));
        } else {
            let t = k - p1.len() + 1;
            assert(q[k] == p2[t] && q[k + 1] == p2[t + 1]);
            assert(walk_edge(words, row_bits, p2, t));
            assert(mat_bit(words, row_bits, p2[t], p2[t + 1]));
        }
    }
}

/// A contiguous stretch of a walk is itself a walk.
pub proof fn lemma_walk_sub(
    words: Seq<u32>,
    row_bits: nat,
    p: Seq<int>,
    i: int,
    j: int,
    a: int,
    b: int,
)
    requires
        is_walk(words, row_bits, p, i, j),
        0 <= a,
        a + 2 <= b,
        b <= p.len(),
    ensures
        is_walk(words, row_bits, p.subrange(a, b), p[a], p[b - 1]),
{
    let q = p.subrange(a, b);
    assert forall|k: int| 0 <= k < q.len() - 1 implies #[trigger] walk_edge(
        words,
        row_bits,
        q,
        k,
    ) by {
        assert(q[k] == p[a + k] && q[k + 1] == p[a + k + 1]);
        assert(walk_edge(words, row_bits, p, a + k));
        assert(mat_bit(words, row_bits, p[a + k], p[a + k + 1]));
    }
}

/// Reachability in the recurrence produces a walk whose intermediate
/// vertices all lie below the pivot bound.
pub proof fn lemma_dp_to_walk(words: Seq<u32>, row_bits: nat, k: nat, i: int, j: int)
    requires
        dp_reach(words, row_bits, k, i, j),
    ensures
        exists|p: Seq<int>| is_walk_below(words, row_bits, k as int, p, i, j),
    decreases k,
{
    if k == 0 {
        let p = seq![i, j];
        assert(walk_edge(words, row_bits, p, 0)) by {
            assert(mat_bit(words, row_bits, p[0], p[1]));
        }
        assert(is_walk_below(words, row_bits, 0, p, i, j));
    } else {
        let km = (k - 1) as nat;
        if dp_reach(words, row_bits, km, i, j) {
            lemma_dp_to_walk(words, row_bits, km, i, j);
            let p = choose|p: Seq<int>| is_walk_below(words, row_bits, km as int, p, i, j);
            assert(is_walk_below(words, row_bits, k as int, p, i, j));
        } else {
            let pivot = k - 1;
            lemma_dp_to_walk(words, row_bits, km, i, pivot);
            lemma_dp_to_walk(words, row_bits, km, pivot, j);
            let p1 = choose|p: Seq<int>| is_walk_below(words, row_bits, km as int, p, i, pivot);
            let p2 = choose|p: Seq<int>| is_walk_below(words, row_bits, km as int, p, pivot, j);
            lemma_walk_concat(words, row_bits, p1, p2, i, pivot, j);
            let q = p1 + p2.subrange(1, p2.len() as int);
            assert forall|t: int| 1 <= t < q.len() - 1 implies #[trigger] q[t] < k by {
                if t < p1.len() - 1 {
                    assert(q[t] == p1[t]);
                    assert(p1[t] < km as int);
                } else if t == p1.len() - 1 {
                    assert(q[t] == p1[p1.len() - 1]);
                } else {
                    let x = t - p1.len() + 1;
                    assert(q[t] == p2[x]);
                    assert(1 <= x < p2.len() - 1);
                    assert(p2[x] < km as int);
                }
            }
            assert(is_walk_below(words, row_bits, k as int, q, i, j));
        }
    }
}

/// A walk whose intermediate vertices all lie below the pivot bound is
/// captured by the recurrence.
pub proof fn lemma_walk_to_dp(words: Seq<u32>, row_bits: nat, k: nat, p: Seq<int>, i: int, j: int)
    requires
        is_walk_below(words, row_bits, k as int, p, i, j),
    ensures
        dp_reach(words, row_bits, k, i, j),
    decreases k, p.len(),
{
    if p.len() == 2 {
        assert(walk_edge(words, row_bits, p, 0));
        assert(mat_bit(words, row_bits, p[0], p[1]));
        lemma_dp_monotone(words, row_bits, 0, k, i, j);
    } else if k == 0 {
        assert(walk_edge(words, row_bits, p, 1));
        assert(mat_bit(words, row_bits, p[1], p[1int + 1]));
        assert(0 <= p[1]);
        assert(p[1] < 0);
        assert(false);
    } else {
        let km = (k - 1) as nat;
        if exists|t: int| 1 <= t < p.len() - 1 && #[trigger] p[t] == k - 1 {
            let t = choose|t: int| 1 <= t < p.len() - 1 && #[trigger] p[t] == k - 1;
            lemma_walk_sub(words, row_bits, p, i, j, 0, t + 1);
            lemma_walk_sub(words, row_bits, p, i, j, t, p.len() as int);
            let p1 = p.subrange(0, t + 1);
            let p2 = p.subrange(t, p.len() as int);
            assert(is_walk_below(words, row_bits, k as int, p1, i, k - 1)) by {
                assert forall|x: int| 1 <= x < p1.len() - 1 implies #[trigger] p1[x] < k by {
                    assert(p1[x] == p[x]);
                }
            }
            assert(is_walk_below(words, row_bits, k as int, p2, k - 1, j)) by {
                assert forall|y: int| 1 <= y < p2.len() - 1 implies #[trigger] p2[y] < k by {
                    assert(p2[y] == p[t + y]);
                    assert(1 <= t + y < p.len() - 1);
                }
            }
            lemma_walk_to_dp(words, row_bits, k, p1, i, k - 1);
            lemma_walk_to_dp(words, row_bits, k, p2, k - 1, j);
            assert(dp_reach(words, row_bits, km, i, k - 1));
            assert(dp_reach(words, row_bits, km, k - 1, j));
            assert(dp_reach(words, row_bits, k, i, j));
        } else {
            assert(is_walk_below(words, row_bits, k as int - 1, p, i, j)) by {
                assert forall|t: int| 1 <= t < p.len() - 1 implies #[trigger] p[t] < k as int
                    - 1 by {
                    assert(p[t] < k as int);
                    assert(!(1 <= t < p.len() - 1 && p[t] == k - 1));
                }
            }
            lemma_walk_to_dp(words, row_bits, km, p, i, j);
            lemma_dp_monotone(words, row_bits, km, k, i, j);
        }
    }
}

/// On a square matrix, the full recurrence coincides with reachability by a
/// path of one or more edges.
pub proof fn lemma_dp_iff_reaches(words: Seq<u32>, row_bits: nat, i: int, j: int)
    requires
        mat_rows(words, row_bits) == row_bits,
    ensures
        dp_reach(words, row_bits, row_bits, i, j) == reaches(words, row_bits, i, j),
{
    let n = row_bits;
    if dp_reach(words, row_bits, n, i, j) {
        lemma_dp_to_walk(words, row_bits, n, i, j);
        let p = choose|p: Seq<int>| is_walk_below(words, row_bits, n as int, p, i, j);
        assert(is_walk(words, row_bits, p, i, j));
        assert(reaches(words, row_bits, i, j));
    }
    if reaches(words, row_bits, i, j) {
        let p = choose|p: Seq<int>| is_walk(words, row_bits, p, i, j);
        lemma_walk_bounds(words, row_bits, p, i, j);
        assert(is_walk_below(words, row_bits, n as int, p, i, j)) by {
            assert forall|t: int| 1 <= t < p.len() - 1 implies #[trigger] p[t] < n as int by {
                assert(0 <= p[t] < row_bits);
            }
        }
        lemma_walk_to_dp(words, row_bits, n, p, i, j);
    }
}

/// Nothing is reached from outside the rows, nor into a column beyond the
/// row width.
pub proof fn lemma_reaches_range(words: Seq<u32>, row_bits: nat, i: int, j: int)
    requires
        reaches(words, row_bits, i, j),
    ensures
        0 <= i < mat_rows(words, row_bits),
        0 <= j < row_bits,
{
    let p = choose|p: Seq<int>| is_walk(words, row_bits, p, i, j);
    assert(walk_edge(words, row_bits, p, 0));
    assert(mat_bit(words, row_bits, p[0], p[0int + 1]));
    assert(walk_edge(words, row_bits, p, p.len() - 2));
    assert(mat_bit(words, row_bits, p[p.len() - 2], p[p.len() - 2 + 1]));
}

/// A single enabled bit is itself a path, so the closure loses no bit.
pub proof fn lemma_edge_reaches(words: Seq<u32>, row_bits: nat, i: int, j: int)
    requires
        mat_bit(words, row_bits, i, j),
    ensures
        reaches(words, row_bits, i, j),
{
    let p = seq![i, j];
    assert(walk_edge(words, row_bits, p, 0)) by {
        assert(mat_bit(words, row_bits, p[0], p[1]));
    }
    assert(is_walk(words, row_bits, p, i, j));
    assert(reaches(words, row_bits, i, j));
}

/// Reachability composes: a path into a vertex and a path out of it join.
pub proof fn lemma_reaches_trans(words: Seq<u32>, row_bits: nat, i: int, m: int, j: int)
    requires
        reaches(words, row_bits, i, m),
        reaches(words, row_bits, m, j),
    ensures
        reaches(words, row_bits, i, j),
{
    let p1 = choose|p: Seq<int>| is_walk(words, row_bits, p, i, m);
    let p2 = choose|p: Seq<int>| is_walk(words, row_bits, p, m, j);
    lemma_walk_concat(words, row_bits, p1, p2, i, m, j);
    assert(is_walk(words, row_bits, p1 + p2.subrange(1, p2.len() as int), i, j));
}

/// Each edge of a walk through an already-closed matrix is a path of the
/// original, and those paths chain into one.
proof fn lemma_closure_walk_collapses(
    w0: Seq<u32>,
    w1: Seq<u32>,
    row_bits: nat,
    p: Seq<int>,
    i: int,
    j: int,
)
    requires
        forall|a: int, b: int|
            #[trigger] mat_bit(w1, row_bits, a, b) == reaches(w0, row_bits, a, b),
        is_walk(w1, row_bits, p, i, j),
    ensures
        reaches(w0, row_bits, i, j),
    decreases p.len(),
{
    if p.len() == 2 {
        assert(walk_edge(w1, row_bits, p, 0));
        assert(mat_bit(w1, row_bits, p[0], p[1]));
    } else {
        assert(walk_edge(w1, row_bits, p, 0));
        assert(mat_bit(w1, row_bits, p[0], p[1]));
        lemma_walk_sub(w1, row_bits, p, i, j, 1, p.len() as int);
        lemma_closure_walk_collapses(
            w0,
            w1,
            row_bits,
            p.subrange(1, p.len() as int),
            p[1],
            j,
        );
        lemma_reaches_trans(w0, row_bits, i, p[1], j);
    }
}

/// The transitive closure is idempotent: in a matrix whose bits are exactly
/// reachability in the original, reachability adds nothing new, so closing a
/// second time changes no bit.
pub proof fn lemma_closure_idempotent(w0: Seq<u32>, w1: Seq<u32>, row_bits: nat)
    requires
        forall|i: int, j: int|
            #[trigger] mat_bit(w1, row_bits, i, j) == reaches(w0, row_bits, i, j),
    ensures
        forall|i: int, j: int|
            #[trigger] reaches(w1, row_bits, i, j) == reaches(w0, row_bits, i, j),
{
    assert forall|i: int, j: int|
        #[trigger] reaches(w1, row_bits, i, j) == reaches(w0, row_bits, i, j) by {
        if reaches(w1, row_bits, i, j) {
            let p = choose|p: Seq<int>| is_walk(w1, row_bits, p, i, j);
            lemma_closure_walk_collapses(w0, w1, row_bits, p, i, j);
        }
        if reaches(w0, row_bits, i, j) {
            assert(mat_bit(w1, row_bits, i, j));
            lemma_edge_reaches(w1, row_bits, i, j);
        }
    }
}

} // verus!
