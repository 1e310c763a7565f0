use vstd::prelude::*;

use crate::schulze::{
    beatpath, is_square, is_valid, lemma_beatpath_diagonal, lemma_beatpath_pivot,
    lemma_prepared_shape, prepared, spec_min, strengths, zero_diagonal,
};

verus! {

/// `w` is a walk from `j` to `k` among `n` candidates whose inner candidates
/// all lie below `i`.
pub open spec fn is_walk(w: Seq<int>, n: nat, j: int, k: int, i: nat) -> bool {
    &&& w.len() >= 2
    &&& w[0] == j
    &&& w.last() == k
    &&& forall|x: int| 0 <= x < w.len() ==> 0 <= #[trigger] w[x] < n
    &&& forall|x: int| 0 < x < w.len() - 1 ==> #[trigger] w[x] < i
}

/// Strength of walk `w` in `p`: its weakest link.
pub open spec fn walk_strength(p: Seq<Seq<i32>>, w: Seq<int>) -> i32
    decreases w.len(),
{
    if w.len() <= 2 {
        p[w[0]][w[1]]
    } else {
        spec_min(p[w[0]][w[1]], walk_strength(p, w.drop_first()))
    }
}

/// Joining two walks at a shared candidate gives the weaker of their strengths.
proof fn lemma_join_strength(p: Seq<Seq<i32>>, a: Seq<int>, b: Seq<int>)
    requires
        a.len() >= 2,
        b.len() >= 2,
        a.last() == b[0],
    ensures
        walk_strength(p, a + b.drop_first()) == spec_min(walk_strength(p, a), walk_strength(p, b)),
    decreases a.len(),
{
    let joined = a + b.drop_first();
    if a.len() == 2 {
        assert(joined.drop_first() =~= b);
    } else {
        assert(joined.drop_first() =~= a.drop_first() + b.drop_first());
        lemma_join_strength(p, a.drop_first(), b);
    }
}

/// No walk from `j` to `k` through candidates below `i` is stronger than
/// `beatpath(p, j, k, i)`.
proof fn lemma_walk_bounded(p: Seq<Seq<i32>>, w: Seq<int>, j: int, k: int, i: nat)
    requires
        is_square(p),
        zero_diagonal(p),
        i <= p.len(),
        j != k,
        is_walk(w, p.len(), j, k, i),
    ensures
        walk_strength(p, w) <= beatpath(p, j, k, i),
    decreases i, w.len(),
{
    let n = p.len();
    if i == 0 {
        assert(w.len() == 2) by {
            if w.len() > 2 {
                assert(w[1] < 0);
            }
        }
    } else {
        let v = (i - 1) as int;
        if exists|x: int| 0 < x < w.len() - 1 && #[trigger] w[x] == v {
            let x = choose|x: int| 0 < x < w.len() - 1 && #[trigger] w[x] == v;
            let pre = w.subrange(0, x + 1);
            let suf = w.subrange(x, w.len() as int);
            assert(w =~= pre + suf.drop_first());
            lemma_join_strength(p, pre, suf);
            assert(is_walk(suf, n, v, k, i));
            assert(is_walk(pre, n, j, v, i));
            lemma_beatpath_pivot(p, j, (i - 1) as nat);
            lemma_beatpath_pivot(p, k, (i - 1) as nat);
            if j == v {
                lemma_walk_bounded(p, suf, v, k, i);
            } else if k == v {
                lemma_walk_bounded(p, pre, j, v, i);
            } else {
                lemma_walk_bounded(p, pre, j, v, i);
                lemma_walk_bounded(p, suf, v, k, i);
            }
        } else {
            assert(is_walk(w, n, j, k, (i - 1) as nat));
            lemma_walk_bounded(p, w, j, k, (i - 1) as nat);
        }
    }
}

/// A positive `beatpath(p, j, k, i)` is the strength of some walk from `j` to
/// `k` through candidates below `i`.
proof fn lemma_walk_attains(p: Seq<Seq<i32>>, j: int, k: int, i: nat) -> (w: Seq<int>)
    requires
        is_square(p),
        zero_diagonal(p),
        i <= p.len(),
        0 <= j < p.len(),
        0 <= k < p.len(),
        beatpath(p, j, k, i) > 0,
    ensures
        is_walk(w, p.len(), j, k, i),
        walk_strength(p, w) == beatpath(p, j, k, i),
    decreases i,
{
    let n = p.len();
    if i == 0 {
        seq![j, k]
    } else {
        let v = (i - 1) as int;
        let prev = (i - 1) as nat;
        if beatpath(p, j, k, i) == beatpath(p, j, k, prev) {
            lemma_walk_attains(p, j, k, prev)
        } else {
            lemma_beatpath_diagonal(p, j, prev);
            lemma_beatpath_diagonal(p, v, prev);
            let a = lemma_walk_attains(p, j, v, prev);
            let b = lemma_walk_attains(p, v, k, prev);
            lemma_join_strength(p, a, b);
            let w = a + b.drop_first();
            assert(w[a.len() - 1] == v);
            assert forall|x: int| 0 < x < w.len() - 1 implies #[trigger] w[x] < i by {
                if x < a.len() - 1 {
                    assert(w[x] == a[x]);
                } else if x > a.len() - 1 {
                    assert(w[x] == b[x - a.len() + 1]);
                }
            }
            assert forall|x: int| 0 <= x < w.len() implies 0 <= #[trigger] w[x] < n by {
                if x < a.len() {
                    assert(w[x] == a[x]);
                } else {
                    assert(w[x] == b[x - a.len() + 1]);
                }
            }
            w
        }
    }
}


/// Over links that are never negative, no beatpath is negative.
proof fn lemma_beatpath_nonnegative(p: Seq<Seq<i32>>, j: int, k: int, i: nat)
    requires
        is_square(p),
        i <= p.len(),
        0 <= j < p.len(),
        0 <= k < p.len(),
        forall|a: int, b: int| 0 <= a < p.len() && 0 <= b < p.len() ==> #[trigger] p[a][b] >= 0,
    ensures
        beatpath(p, j, k, i) >= 0,
    decreases i,
{
    if i > 0 {
        lemma_beatpath_nonnegative(p, j, k, (i - 1) as nat);
    }
}

/// The solved matrix holds widest-path strengths.  For distinct candidates
/// `j` and `k`, no walk from `j` to `k` in the prepared matrix has a weakest
/// link stronger than `strengths(m)[j][k]`; that value is never negative, and
/// unless it is zero (no walk of positive strength) some walk attains it.
pub proof fn lemma_strengths_are_widest_paths(m: Seq<Seq<i32>>, j: int, k: int)
    requires
        is_valid(m),
        0 <= j < m.len(),
        0 <= k < m.len(),
        j != k,
    ensures
        strengths(m)[j][k] >= 0,
        forall|w: Seq<int>|
            is_walk(w, m.len(), j, k, m.len()) ==> #[trigger] walk_strength(prepared(m), w)
                <= strengths(m)[j][k],
        strengths(m)[j][k] == 0 || exists|w: Seq<int>|
            is_walk(w, m.len(), j, k, m.len()) && #[trigger] walk_strength(prepared(m), w)
                == strengths(m)[j][k],
{
    let p = prepared(m);
    let n = m.len();
    lemma_prepared_shape(m);
    assert(strengths(m)[j][k] == beatpath(p, j, k, n));
    assert forall|a: int, b: int| 0 <= a < n && 0 <= b < n implies #[trigger] p[a][b] >= 0 by {
        assert(m[a][b] >= 0);
    }
    lemma_beatpath_nonnegative(p, j, k, n);
    assert forall|w: Seq<int>| is_walk(w, n, j, k, n) implies #[trigger] walk_strength(p, w)
        <= strengths(m)[j][k] by {
        lemma_walk_bounded(p, w, j, k, n);
    }
    if beatpath(p, j, k, n) > 0 {
        let w = lemma_walk_attains(p, j, k, n);
        assert(walk_strength(p, w) == strengths(m)[j][k]);
    }
}

} // verus!
