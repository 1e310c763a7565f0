use vstd::prelude::*;

verus! {

/// Why a matrix was refused, or a computation declined.
#[derive(Debug, Clone, Copy, PartialEq, Eq, Structural)]
pub enum SchulzeError {
    /// The matrix is not square or holds a negative entry.
    InvalidInput,
    /// The recursive solver was asked for more candidates than it will take on.
    ResourceExhausted,
}

/// The result of a solver: the beatpath strengths and how many comparisons
/// the solver counted on the way.
pub struct Solution {
    pub strong_links: Vec<Vec<i32>>,
    pub comparisons: u64,
}

/// Largest matrix the iterative solver takes: its comparison count must fit a `u64`.
pub const MAX_ITERATIVE_CANDIDATES: usize = 1048576;

/// Largest matrix the recursive solver takes.  Its running time grows about
/// threefold with each candidate; within this bound its comparison count fits
/// a `u64` and its recursion is at most this deep.
pub const MAX_RECURSIVE_CANDIDATES: usize = 20;

/// The entries of a matrix held as a vector of rows.
pub open spec fn grid(m: &Vec<Vec<i32>>) -> Seq<Seq<i32>> {
    m@.map_values(|row: Vec<i32>| row@)
}

/// Every row has as many entries as there are rows.
pub open spec fn is_square(m: Seq<Seq<i32>>) -> bool {
    forall|i: int| 0 <= i < m.len() ==> #[trigger] m[i].len() == m.len()
}

/// A square matrix of non-negative entries.
pub open spec fn is_valid(m: Seq<Seq<i32>>) -> bool {
    &&& is_square(m)
    &&& forall|i: int, j: int| 0 <= i < m.len() && 0 <= j < m.len() ==> #[trigger] m[i][j] >= 0
}

/// Cell `(i, j)` of the prepared matrix: the preference of `i` over `j` when it
/// strictly beats the reverse one, else zero; the diagonal is zero.
pub open spec fn prepared_cell(m: Seq<Seq<i32>>, i: int, j: int) -> i32 {
    if i != j && m[i][j] > m[j][i] {
        m[i][j]
    } else {
        0
    }
}

/// The matrix of strong links derived from preference matrix `m`.
pub open spec fn prepared(m: Seq<Seq<i32>>) -> Seq<Seq<i32>> {
    Seq::new(m.len(), |i: int| Seq::new(m.len(), |j: int| prepared_cell(m, i, j)))
}

/// Tells whether `graph` is square with non-negative entries.
pub fn is_valid_matrix(graph: &Vec<Vec<i32>>) -> (r: bool)
    ensures
        r == is_valid(grid(graph)),
{
    let n = graph.len();
    let ghost m = grid(graph);
    let mut i: usize = 0;
    while i < n
        invariant
            n == m.len(),
            m == grid(graph),
            0 <= i <= n,
            forall|a: int| 0 <= a < i ==> #[trigger] m[a].len() == n,
            forall|a: int, b: int| 0 <= a < i && 0 <= b < n ==> #[trigger] m[a][b] >= 0,
        decreases n - i,
    {
        if graph[i].len() != n {
            assert(m[i as int].len() != n);
            return false;
        }
        let mut j: usize = 0;
        while j < n
            invariant
                n == m.len(),
                m == grid(graph),
                0 <= i < n,
                0 <= j <= n,
                m[i as int].len() == n,
                forall|a: int| 0 <= a < i ==> #[trigger] m[a].len() == n,
                forall|a: int, b: int| 0 <= a < i && 0 <= b < n ==> #[trigger] m[a][b] >= 0,
                forall|b: int| 0 <= b < j ==> #[trigger] m[i as int][b] >= 0,
            decreases n - j,
        {
            if graph[i][j] < 0 {
                assert(m[i as int][j as int] < 0);
                return false;
            }
            j += 1;
        }
        i += 1;
    }
    true
}

/// Keeps of `graph` only the edges that beat their reverse strictly; every
/// other cell, the diagonal included, becomes zero.
pub fn prepare_graph(graph: &Vec<Vec<i32>>) -> (r: Result<Vec<Vec<i32>>, SchulzeError>)
    ensures
        is_valid(grid(graph)) <==> r.is_ok(),
        r.is_err() ==> r == Err::<Vec<Vec<i32>>, SchulzeError>(SchulzeError::InvalidInput),
        r.is_ok() ==> grid(&r.unwrap()) == prepared(grid(graph)),
{
    if !is_valid_matrix(graph) {
        return Err(SchulzeError::InvalidInput);
    }
    Ok(prepare_valid(graph))
}

/// Preparation of a matrix already known to be valid.
fn prepare_valid(graph: &Vec<Vec<i32>>) -> (r: Vec<Vec<i32>>)
    requires
        is_square(grid(graph)),
    ensures
        grid(&r) == prepared(grid(graph)),
{
    let n = graph.len();
    let ghost m = grid(graph);
    let mut out: Vec<Vec<i32>> = Vec::new();
    let mut i: usize = 0;
    while i < n
        invariant
            n == m.len(),
            m == grid(graph),
            is_square(m),
            0 <= i <= n,
            out@.len() == i,
            forall|a: int| 0 <= a < i ==> #[trigger] out[a]@ == prepared(m)[a],
        decreases n - i,
    {
        assert(m[i as int].len() == n);
        let mut row: Vec<i32> = Vec::new();
        let mut j: usize = 0;
        while j < n
            invariant
                n == m.len(),
                m == grid(graph),
                is_square(m),
                0 <= i < n,
                0 <= j <= n,
                m[i as int].len() == n,
                row@.len() == j,
                forall|b: int| 0 <= b < j ==> #[trigger] row@[b] == prepared_cell(m, i as int, b),
            decreases n - j,
        {
            assert(m[j as int].len() == n);
            let v: i32 = if i != j && graph[i][j] > graph[j][i] {
                graph[i][j]
            } else {
                0
            };
            row.push(v);
            j += 1;
        }
        assert(row@ =~= prepared(m)[i as int]);
        out.push(row);
        i += 1;
    }
    assert(grid(&out) =~= prepared(m));
    out
}


/// The larger of two integers.
pub open spec fn spec_max(a: i32, b: i32) -> i32 {
    if a > b { a } else { b }
}

/// The smaller of two integers.
pub open spec fn spec_min(a: i32, b: i32) -> i32 {
    if a < b { a } else { b }
}

/// Returns the larger of two integers.
fn max(a: i32, b: i32) -> (r: i32)
    ensures
        r == spec_max(a, b),
{
    if a > b { a } else { b }
}

/// Returns the smaller of two integers.
fn min(a: i32, b: i32) -> (r: i32)
    ensures
        r == spec_min(a, b),
{
    if a < b { a } else { b }
}

/// Strength of the widest path from `j` to `k` in the strong-link matrix `p`
/// whose intermediate candidates all lie below `i`: the weakest link of a path
/// is its strength, and the strongest path wins.  A candidate never beats
/// itself.
pub open spec fn beatpath(p: Seq<Seq<i32>>, j: int, k: int, i: nat) -> i32
    decreases i,
{
    if i == 0 {
        p[j][k]
    } else if j == k {
        0
    } else {
        let via = i - 1;
        spec_max(
            beatpath(p, j, k, (i - 1) as nat),
            spec_min(beatpath(p, j, via, (i - 1) as nat), beatpath(p, via, k, (i - 1) as nat)),
        )
    }
}

/// The matrix of `beatpath(p, j, k, i)` over all pairs.
pub open spec fn closure(p: Seq<Seq<i32>>, i: nat) -> Seq<Seq<i32>> {
    Seq::new(p.len(), |j: int| Seq::new(p.len(), |k: int| beatpath(p, j, k, i)))
}

/// The beatpath strengths of preference matrix `m`: widest paths through any
/// candidate in its prepared matrix.
pub open spec fn strengths(m: Seq<Seq<i32>>) -> Seq<Seq<i32>> {
    closure(prepared(m), m.len())
}

/// The diagonal of a matrix is zero.
pub open spec fn zero_diagonal(p: Seq<Seq<i32>>) -> bool {
    forall|x: int| 0 <= x < p.len() ==> #[trigger] p[x][x] == 0
}

/// With a zero diagonal, no candidate has a path of any strength to itself.
pub(crate) proof fn lemma_beatpath_diagonal(p: Seq<Seq<i32>>, x: int, i: nat)
    requires
        zero_diagonal(p),
        0 <= x < p.len(),
    ensures
        beatpath(p, x, x, i) == 0,
{
}

/// Allowing candidate `v` as an intermediate changes no path that starts or
/// ends at `v`.
pub(crate) proof fn lemma_beatpath_pivot(p: Seq<Seq<i32>>, x: int, v: nat)
    requires
        zero_diagonal(p),
        0 <= x < p.len(),
        v < p.len(),
    ensures
        beatpath(p, x, v as int, v + 1) == beatpath(p, x, v as int, v),
        beatpath(p, v as int, x, v + 1) == beatpath(p, v as int, x, v),
{
    lemma_beatpath_diagonal(p, v as int, v);
    lemma_beatpath_diagonal(p, v as int, v + 1);
}

/// The prepared matrix is square with a zero diagonal.
pub(crate) proof fn lemma_prepared_shape(m: Seq<Seq<i32>>)
    ensures
        prepared(m).len() == m.len(),
        is_square(prepared(m)),
        zero_diagonal(prepared(m)),
{
}

/// One phase of the iterative sweep over `s`: every pair `(j, k)` of distinct
/// candidates other than `v` keeps the stronger of its link and the weaker of
/// the links `j -> v` and `v -> k`.
pub open spec fn sweep_phase(s: Seq<Seq<i32>>, v: int) -> Seq<Seq<i32>> {
    Seq::new(
        s.len(),
        |j: int|
            Seq::new(
                s.len(),
                |k: int|
                    if v != j && v != k && j != k {
                        spec_max(s[j][k], spec_min(s[j][v], s[v][k]))
                    } else {
                        s[j][k]
                    },
            ),
    )
}

/// The first `i` phases of the sweep, candidates `0` to `i - 1`, applied to `p`.
pub open spec fn sweep(p: Seq<Seq<i32>>, i: nat) -> Seq<Seq<i32>>
    decreases i,
{
    if i == 0 {
        p
    } else {
        sweep_phase(sweep(p, (i - 1) as nat), i - 1)
    }
}

/// On a square matrix with a zero diagonal, `i` phases of the sweep give the
/// widest paths through the first `i` candidates.
pub proof fn lemma_sweep_is_closure(p: Seq<Seq<i32>>, i: nat)
    requires
        is_square(p),
        zero_diagonal(p),
        i <= p.len(),
    ensures
        sweep(p, i) == closure(p, i),
    decreases i,
{
    let n = p.len();
    if i == 0 {
        assert forall|a: int| 0 <= a < n implies p[a] =~= closure(p, 0)[a] by {}
        assert(p =~= closure(p, 0));
    } else {
        let v = (i - 1) as nat;
        lemma_sweep_is_closure(p, v);
        let prev = closure(p, v);
        assert forall|a: int| 0 <= a < n implies sweep_phase(prev, v as int)[a] =~= closure(p, i)[a] by {
            assert forall|b: int| 0 <= b < n implies sweep_phase(prev, v as int)[a][b] == closure(
                p,
                i,
            )[a][b] by {
                lemma_beatpath_pivot(p, a, v);
                lemma_beatpath_pivot(p, b, v);
                lemma_beatpath_diagonal(p, a, v);
                lemma_beatpath_diagonal(p, a, i);
            }
        }
        assert(sweep_phase(prev, v as int) =~= closure(p, i));
    }
}

/// The two solvers agree: on every valid preference matrix, the full sweep of
/// the iterative solver ends at the beatpath strengths that the recursive
/// solver computes cell by cell.
pub proof fn lemma_solvers_agree(m: Seq<Seq<i32>>)
    requires
        is_valid(m),
    ensures
        sweep(prepared(m), m.len()) == strengths(m),
{
    lemma_prepared_shape(m);
    lemma_sweep_is_closure(prepared(m), m.len());
}

/// Beatpath strengths by the iterative sweep: each candidate in turn is let in
/// as an intermediate, and every pair keeps the stronger of its current path
/// and the path through that candidate.  Four comparisons are counted for
/// every ordered triple of candidates visited, `4 * n * n * n` in all.
pub fn schulze_iterative(graph: &Vec<Vec<i32>>) -> (r: Result<Solution, SchulzeError>)
    ensures
        match r {
            Ok(sol) => {
                &&& is_valid(grid(graph))
                &&& graph@.len() <= MAX_ITERATIVE_CANDIDATES
                &&& grid(&sol.strong_links) == strengths(grid(graph))
                &&& sol.comparisons == 4 * graph@.len() * graph@.len() * graph@.len()
            },
            Err(e) => {
                if !is_valid(grid(graph)) {
                    e == SchulzeError::InvalidInput
                } else {
                    &&& graph@.len() > MAX_ITERATIVE_CANDIDATES
                    &&& e == SchulzeError::ResourceExhausted
                }
            },
        },
{
    if !is_valid_matrix(graph) {
        return Err(SchulzeError::InvalidInput);
    }
    let n = graph.len();
    if n > MAX_ITERATIVE_CANDIDATES {
        return Err(SchulzeError::ResourceExhausted);
    }
    let ghost p = prepared(grid(graph));
    let mut strong_links = prepare_valid(graph);
    proof {
        lemma_prepared_shape(grid(graph));
        assert forall|a: int| 0 <= a < n implies grid(&strong_links)[a] =~= closure(p, 0)[a] by {}
        assert(grid(&strong_links) =~= closure(p, 0));
    }
    let mut comparisons: u64 = 0;
    let mut i: usize = 0;
    while i < n
        invariant
            n == p.len(),
            n <= MAX_ITERATIVE_CANDIDATES,
            is_square(p),
            zero_diagonal(p),
            0 <= i <= n,
            grid(&strong_links) == closure(p, i as nat),
            comparisons == 4 * n * n * i,
        decreases n - i,
    {
        proof {
            assert(closure(p, i as nat).len() == n);
            assert(grid(&strong_links).len() == strong_links@.len());
            assert forall|a: int| 0 <= a < n implies #[trigger] strong_links@[a]@.len() == n by {
                assert(grid(&strong_links)[a] == strong_links@[a]@);
            }
            assert forall|a: int, b: int| 0 <= a < n && 0 <= b < n implies #[trigger] strong_links@[
                a
            ]@[b] == beatpath(p, a, b, i as nat) by {
                assert(grid(&strong_links)[a] == strong_links@[a]@);
                assert(closure(p, i as nat)[a][b] == beatpath(p, a, b, i as nat));
            }
        }
        let mut j: usize = 0;
        while j < n
            invariant
                n == p.len(),
                n <= MAX_ITERATIVE_CANDIDATES,
                is_square(p),
                zero_diagonal(p),
                0 <= i < n,
                0 <= j <= n,
                strong_links@.len() == n,
                forall|a: int| 0 <= a < n ==> #[trigger] strong_links@[a]@.len() == n,
                forall|a: int, b: int|
                    0 <= a < n && 0 <= b < n ==> #[trigger] strong_links@[a]@[b] == beatpath(
                        p,
                        a,
                        b,
                        if a < j { (i + 1) as nat } else { i as nat },
                    ),
                comparisons == 4 * n * n * i + 4 * n * j,
            decreases n - j,
        {
            let mut k: usize = 0;
            while k < n
                invariant
                    n == p.len(),
                    n <= MAX_ITERATIVE_CANDIDATES,
                    is_square(p),
                    zero_diagonal(p),
                    0 <= i < n,
                    0 <= j < n,
                    0 <= k <= n,
                    strong_links@.len() == n,
                    forall|a: int| 0 <= a < n ==> #[trigger] strong_links@[a]@.len() == n,
                    forall|a: int, b: int|
                        0 <= a < n && 0 <= b < n ==> #[trigger] strong_links@[a]@[b] == beatpath(
                            p,
                            a,
                            b,
                            if a < j || (a == j && b < k) { (i + 1) as nat } else { i as nat },
                        ),
                    comparisons == 4 * n * n * i + 4 * n * j + 4 * k,
                decreases n - k,
            {
                proof {
                    assert(4 * n * n * i + 4 * n * j + 4 * k + 4 <= 4 * n * n * n) by (nonlinear_arith)
                        requires
                            i < n,
                            j < n,
                            k < n,
                    ;
                    assert(4 * n * n * n <= 4 * MAX_ITERATIVE_CANDIDATES * MAX_ITERATIVE_CANDIDATES
                        * MAX_ITERATIVE_CANDIDATES) by (nonlinear_arith)
                        requires
                            n <= MAX_ITERATIVE_CANDIDATES,
                    ;
                    lemma_beatpath_pivot(p, j as int, i as nat);
                    lemma_beatpath_pivot(p, k as int, i as nat);
                    lemma_beatpath_diagonal(p, j as int, i as nat);
                    lemma_beatpath_diagonal(p, j as int, (i + 1) as nat);
                }
                comparisons = comparisons + 4;
                if i != j && i != k && j != k {
                    let weakest_edge = min(strong_links[j][i], strong_links[i][k]);
                    let strength = max(strong_links[j][k], weakest_edge);
                    strong_links[j][k] = strength;
                }
                k += 1;
            }
            assert(4 * n * n * i + 4 * n * j + 4 * n == 4 * n * n * i + 4 * n * (j + 1))
                by (nonlinear_arith);
            j += 1;
        }
        proof {
            assert(4 * n * n * i + 4 * n * n == 4 * n * n * (i + 1)) by (nonlinear_arith);
            assert forall|a: int| 0 <= a < n implies grid(&strong_links)[a] =~= closure(
                p,
                (i + 1) as nat,
            )[a] by {}
            assert(grid(&strong_links) =~= closure(p, (i + 1) as nat));
        }
        i += 1;
    }
    Ok(Solution { strong_links, comparisons })
}


/// Comparisons counted by one call `schulze_recursive_step(_, _, j, k, i)`,
/// the calls it makes included: one for the base test, one more for the
/// diagonal test, and two more, with three calls one level down that pivot on
/// `i`, for a pair of distinct candidates.
pub open spec fn step_cost(j: int, k: int, i: nat) -> nat
    decreases i,
{
    if i == 0 {
        1
    } else if j == k {
        2
    } else {
        let prev = (i - 1) as nat;
        4 + step_cost(j, i as int, prev) + step_cost(i as int, k, prev) + step_cost(j, k, prev)
    }
}

/// Comparisons counted for cells `(a, 0)` to `(a, b - 1)`, each solved by a
/// step of depth `d`.
pub open spec fn row_cost(a: int, d: nat, b: nat) -> nat
    decreases b,
{
    if b == 0 {
        0
    } else {
        row_cost(a, d, (b - 1) as nat) + step_cost(a, b - 1, d)
    }
}

/// Comparisons counted for rows `0` to `a - 1` of an `n`-candidate matrix,
/// each cell solved by a step of depth `d`.
pub open spec fn rows_cost(n: nat, d: nat, a: nat) -> nat
    decreases a,
{
    if a == 0 {
        0
    } else {
        rows_cost(n, d, (a - 1) as nat) + row_cost(a - 1, d, n)
    }
}

/// Comparisons counted by a whole recursive solve of `n` candidates: every
/// cell is solved by a step of depth `n - 1`.
pub open spec fn recursive_cost(n: nat) -> nat {
    if n == 0 {
        0
    } else {
        rows_cost(n, (n - 1) as nat, n)
    }
}

/// Three to the power `i`.
pub open spec fn pow3(i: nat) -> nat
    decreases i,
{
    if i == 0 {
        1
    } else {
        3 * pow3((i - 1) as nat)
    }
}

proof fn lemma_pow3_monotone(i: nat, m: nat)
    requires
        i <= m,
    ensures
        1 <= pow3(i) <= pow3(m),
    decreases m,
{
    if m > i {
        lemma_pow3_monotone(i, (m - 1) as nat);
    } else if i > 0 {
        lemma_pow3_monotone((i - 1) as nat, (i - 1) as nat);
    }
}

/// One call of the recursive step counts at most `3^(i+1) - 2` comparisons.
proof fn lemma_step_cost_bound(j: int, k: int, i: nat)
    ensures
        step_cost(j, k, i) + 2 <= 3 * pow3(i),
    decreases i,
{
    lemma_pow3_monotone(0, i);
    if i > 0 {
        let prev = (i - 1) as nat;
        lemma_pow3_monotone(0, prev);
        if j != k {
            lemma_step_cost_bound(j, i as int, prev);
            lemma_step_cost_bound(i as int, k, prev);
            lemma_step_cost_bound(j, k, prev);
        }
    }
}

/// A call whose call tree never meets the diagonal is a full ternary tree:
/// when neither end lies in `2..=i`, it counts exactly `3^(i+1) - 2`.
pub proof fn lemma_step_cost_full_tree(j: int, k: int, i: nat)
    requires
        j != k || i == 0,
        j < 2 || j > i,
        k < 2 || k > i,
    ensures
        step_cost(j, k, i) + 2 == 3 * pow3(i),
    decreases i,
{
    if i > 0 {
        let prev = (i - 1) as nat;
        lemma_step_cost_full_tree(j, i as int, prev);
        lemma_step_cost_full_tree(i as int, k, prev);
        lemma_step_cost_full_tree(j, k, prev);
    }
}

proof fn lemma_row_cost_bound(a: int, d: nat, b: nat)
    ensures
        row_cost(a, d, b) <= b * (3 * pow3(d)),
    decreases b,
{
    if b > 0 {
        lemma_row_cost_bound(a, d, (b - 1) as nat);
        lemma_step_cost_bound(a, b - 1, d);
        assert((b - 1) * (3 * pow3(d)) + 3 * pow3(d) == b * (3 * pow3(d))) by (nonlinear_arith);
    }
}

proof fn lemma_rows_cost_bound(n: nat, d: nat, a: nat)
    ensures
        rows_cost(n, d, a) <= a * (n * (3 * pow3(d))),
    decreases a,
{
    if a > 0 {
        lemma_rows_cost_bound(n, d, (a - 1) as nat);
        lemma_row_cost_bound(a - 1, d, n);
        assert((a - 1) * (n * (3 * pow3(d))) + n * (3 * pow3(d)) == a * (n * (3 * pow3(d))))
            by (nonlinear_arith);
    }
}

/// Within the recursive solver's bound, its count fits a `u64` at every step.
proof fn lemma_recursive_cost_fits(n: nat, a: nat, b: nat)
    requires
        n <= MAX_RECURSIVE_CANDIDATES,
        a < n,
        b < n,
    ensures
        rows_cost(n, (n - 1) as nat, a) + row_cost(a as int, (n - 1) as nat, b) + step_cost(
            a as int,
            b as int,
            (n - 1) as nat,
        ) <= u64::MAX,
{
    let d = (n - 1) as nat;
    lemma_rows_cost_bound(n, d, a);
    lemma_row_cost_bound(a as int, d, b);
    lemma_step_cost_bound(a as int, b as int, d);
    lemma_pow3_monotone(d, 20);
    reveal_with_fuel(pow3, 21);
    assert(pow3(20) == 3486784401);
    let c = 3 * pow3(d);
    assert(a * (n * c) + b * c + c <= n * (n * c)) by (nonlinear_arith)
        requires
            a < n,
            b < n,
    ;
    assert(n * (n * c) <= 20 * (20 * (3 * 3486784401))) by (nonlinear_arith)
        requires
            n <= 20,
            c <= 3 * 3486784401,
    ;
}

/// A matrix of strong links: square, zero on the diagonal, never negative,
/// and never positive in both directions of a pair.
pub open spec fn is_strong_links(p: Seq<Seq<i32>>) -> bool {
    &&& is_square(p)
    &&& zero_diagonal(p)
    &&& forall|x: int, y: int|
        0 <= x < p.len() && 0 <= y < p.len() ==> #[trigger] p[x][y] >= 0 && (p[x][y] == 0
            || p[y][x] == 0)
}

/// Preparing a valid matrix gives strong links.
pub(crate) proof fn lemma_prepared_strong_links(m: Seq<Seq<i32>>)
    requires
        is_valid(m),
    ensures
        is_strong_links(prepared(m)),
{
    let p = prepared(m);
    lemma_prepared_shape(m);
    assert forall|x: int, y: int| 0 <= x < p.len() && 0 <= y < p.len() implies #[trigger] p[x][y]
        >= 0 && (p[x][y] == 0 || p[y][x] == 0) by {
        assert(m[x][y] >= 0);
    }
}

/// Strength of the widest path from `j` to `k` in `strong_links` through
/// candidates `0` to `i`, found by the recurrence itself with no memory of
/// earlier results.  At depth zero the direct link competes with the path
/// through candidate `0`; above it, a pair of distinct candidates keeps the
/// stronger of its path at depth `i - 1` and the weaker of the paths to and
/// from candidate `i`.  Each such call makes three calls of its own, so the
/// work grows as `3^i` while the depth is `i`.  Counts one comparison for the
/// base test, one for the diagonal test and two for the combination.
pub fn schulze_recursive_step(
    strong_links: &mut Vec<Vec<i32>>,
    comparisons: &mut u64,
    j: usize,
    k: usize,
    i: usize,
) -> (r: i32)
    requires
        is_strong_links(grid(old(strong_links))),
        j < old(strong_links)@.len(),
        k < old(strong_links)@.len(),
        i < old(strong_links)@.len(),
        *old(comparisons) + step_cost(j as int, k as int, i as nat) <= u64::MAX,
    ensures
        *final(strong_links) == *old(strong_links),
        r == beatpath(grid(old(strong_links)), j as int, k as int, (i + 1) as nat),
        *final(comparisons) == *old(comparisons) + step_cost(j as int, k as int, i as nat),
    decreases i,
{
    let ghost p = grid(strong_links);
    *comparisons = *comparisons + 1;
    if i == 0 {
        proof {
            assert(p[j as int] == strong_links@[j as int]@);
            assert(p[0] == strong_links@[0]@);
            assert(p[j as int][0] >= 0 && p[0][k as int] >= 0);
            assert(p[j as int][j as int] == 0);
            assert(p[j as int][0] == 0 || p[0][j as int] == 0);
            reveal_with_fuel(beatpath, 2);
            assert(beatpath(p, j as int, k as int, 1) == if j == k {
                0
            } else {
                spec_max(p[j as int][k as int], spec_min(p[j as int][0], p[0][k as int]))
            });
        }
        let direct = strong_links[j][k];
        let through_first = min(strong_links[j][0], strong_links[0][k]);
        return max(direct, through_first);
    }
    *comparisons = *comparisons + 1;
    if k == j {
        return 0;
    }
    *comparisons = *comparisons + 2;
    let to_via = schulze_recursive_step(strong_links, comparisons, j, i, i - 1);
    let from_via = schulze_recursive_step(strong_links, comparisons, i, k, i - 1);
    let weakest_edge = min(to_via, from_via);
    let direct = schulze_recursive_step(strong_links, comparisons, j, k, i - 1);
    let strength = max(direct, weakest_edge);
    strength
}

/// Beatpath strengths by the unmemoised recursion: every cell is computed on
/// its own by `schulze_recursive_step` at depth `n - 1`, from the prepared
/// matrix.  Declines matrices of more than `MAX_RECURSIVE_CANDIDATES`
/// candidates.
pub fn schulze_recursive(graph: &Vec<Vec<i32>>) -> (r: Result<Solution, SchulzeError>)
    ensures
        match r {
            Ok(sol) => {
                &&& is_valid(grid(graph))
                &&& graph@.len() <= MAX_RECURSIVE_CANDIDATES
                &&& grid(&sol.strong_links) == strengths(grid(graph))
                &&& sol.comparisons == recursive_cost(graph@.len() as nat)
            },
            Err(e) => {
                if !is_valid(grid(graph)) {
                    e == SchulzeError::InvalidInput
                } else {
                    &&& graph@.len() > MAX_RECURSIVE_CANDIDATES
                    &&& e == SchulzeError::ResourceExhausted
                }
            },
        },
{
    if !is_valid_matrix(graph) {
        return Err(SchulzeError::InvalidInput);
    }
    let n = graph.len();
    if n > MAX_RECURSIVE_CANDIDATES {
        return Err(SchulzeError::ResourceExhausted);
    }
    let mut prepared_links = prepare_valid(graph);
    let ghost p = prepared(grid(graph));
    proof {
        lemma_prepared_shape(grid(graph));
        lemma_prepared_strong_links(grid(graph));
    }
    let mut out: Vec<Vec<i32>> = Vec::new();
    if n == 0 {
        assert(grid(&out) =~= closure(p, 0));
        return Ok(Solution { strong_links: out, comparisons: 0 });
    }
    let depth = n - 1;
    let mut comparisons: u64 = 0;
    let mut a: usize = 0;
    while a < n
        invariant
            n == p.len(),
            depth + 1 == n,
            n <= MAX_RECURSIVE_CANDIDATES,
            grid(&prepared_links) == p,
            is_strong_links(p),
            0 <= a <= n,
            out@.len() == a,
            forall|x: int| 0 <= x < a ==> #[trigger] out@[x]@ == closure(p, n as nat)[x],
            comparisons == rows_cost(n as nat, depth as nat, a as nat),
        decreases n - a,
    {
        let mut row: Vec<i32> = Vec::new();
        let mut b: usize = 0;
        while b < n
            invariant
                n == p.len(),
                depth + 1 == n,
                n <= MAX_RECURSIVE_CANDIDATES,
                grid(&prepared_links) == p,
                is_strong_links(p),
                0 <= a < n,
                0 <= b <= n,
                row@.len() == b,
                forall|y: int| 0 <= y < b ==> #[trigger] row@[y] == beatpath(p, a as int, y, n as nat),
                comparisons == rows_cost(n as nat, depth as nat, a as nat) + row_cost(
                    a as int,
                    depth as nat,
                    b as nat,
                ),
            decreases n - b,
        {
            proof {
                lemma_recursive_cost_fits(n as nat, a as nat, b as nat);
            }
            let v = schulze_recursive_step(&mut prepared_links, &mut comparisons, a, b, depth);
            row.push(v);
            b += 1;
        }
        assert(row@ =~= closure(p, n as nat)[a as int]);
        out.push(row);
        a += 1;
    }
    assert(grid(&out) =~= closure(p, n as nat));
    Ok(Solution { strong_links: out, comparisons })
}

/// How many of candidates `0` to `c - 1` candidate `i` beats in `s`: those `j`
/// with `s[i][j] > s[j][i]`.
pub open spec fn wins_below(s: Seq<Seq<i32>>, i: int, c: nat) -> nat
    decreases c,
{
    if c == 0 {
        0
    } else {
        wins_below(s, i, (c - 1) as nat) + if s[i][c - 1] > s[c - 1][i] {
            1nat
        } else {
            0nat
        }
    }
}

/// How many candidates candidate `i` beats in `s`.
pub open spec fn wins(s: Seq<Seq<i32>>, i: int) -> nat {
    wins_below(s, i, s.len())
}

proof fn lemma_wins_below_bound(s: Seq<Seq<i32>>, i: int, c: nat)
    ensures
        wins_below(s, i, c) <= c,
    decreases c,
{
    if c > 0 {
        lemma_wins_below_bound(s, i, (c - 1) as nat);
    }
}

/// Win counts of a finished strength matrix: for each candidate, the number of
/// candidates whose reverse strength it strictly exceeds.  This is a plain
/// count, not the full Schulze winner procedure, which also has to order the
/// candidates when the beat relation has cycles.
pub fn rank_candidates(strong_links: &Vec<Vec<i32>>) -> (r: Vec<usize>)
    requires
        is_square(grid(strong_links)),
    ensures
        r@.len() == strong_links@.len(),
        forall|i: int| 0 <= i < r@.len() ==> #[trigger] r@[i] == wins(grid(strong_links), i),
{
    let n = strong_links.len();
    let ghost s = grid(strong_links);
    let mut out: Vec<usize> = Vec::new();
    let mut i: usize = 0;
    while i < n
        invariant
            n == s.len(),
            s == grid(strong_links),
            is_square(s),
            0 <= i <= n,
            out@.len() == i,
            forall|x: int| 0 <= x < i ==> #[trigger] out@[x] == wins(s, x),
        decreases n - i,
    {
        let mut count: usize = 0;
        let mut j: usize = 0;
        while j < n
            invariant
                n == s.len(),
                s == grid(strong_links),
                is_square(s),
                0 <= i < n,
                0 <= j <= n,
                count == wins_below(s, i as int, j as nat),
            decreases n - j,
        {
            proof {
                lemma_wins_below_bound(s, i as int, j as nat);
                assert(s[i as int].len() == n && s[j as int].len() == n);
            }
            if strong_links[i][j] > strong_links[j][i] {
                count += 1;
            }
            j += 1;
        }
        out.push(count);
        i += 1;
    }
    out
}

/// Preparing twice is preparing once: a prepared matrix of non-negative
/// preferences is valid and is its own preparation.
pub proof fn lemma_prepare_idempotent(m: Seq<Seq<i32>>)
    requires
        is_valid(m),
    ensures
        is_valid(prepared(m)),
        prepared(prepared(m)) == prepared(m),
{
    let p = prepared(m);
    let n = m.len();
    assert forall|i: int, j: int| 0 <= i < n && 0 <= j < n implies #[trigger] p[i][j] >= 0 by {
        assert(m[i][j] >= 0);
    }
    assert forall|i: int| 0 <= i < n implies prepared(p)[i] =~= p[i] by {
        assert forall|j: int| 0 <= j < n implies prepared(p)[i][j] == p[i][j] by {
            assert(m[i][j] >= 0 && m[j][i] >= 0);
        }
    }
    assert(prepared(p) =~= p);
}

/// The smallest elections: with no candidate every matrix is empty; with one,
/// the prepared and solved matrices are `[[0]]` and the sole candidate has no
/// win.
pub proof fn lemma_smallest_elections(m: Seq<Seq<i32>>)
    requires
        is_valid(m),
        m.len() <= 1,
    ensures
        m.len() == 0 ==> prepared(m) == Seq::<Seq<i32>>::empty() && strengths(m) == Seq::<
            Seq<i32>,
        >::empty() && sweep(prepared(m), 0) == Seq::<Seq<i32>>::empty(),
        m.len() == 1 ==> prepared(m) == seq![seq![0i32]] && strengths(m) == seq![seq![0i32]]
            && sweep(prepared(m), 1) == seq![seq![0i32]] && wins(strengths(m), 0) == 0,
{
    lemma_solvers_agree(m);
    if m.len() == 0 {
        assert(prepared(m) =~= Seq::<Seq<i32>>::empty());
        assert(strengths(m) =~= Seq::<Seq<i32>>::empty());
    } else {
        let p = prepared(m);
        assert(p[0] =~= seq![0i32]);
        assert(p =~= seq![seq![0i32]]);
        assert(beatpath(p, 0, 0, 1) == 0);
        assert(strengths(m)[0] =~= seq![0i32]);
        assert(strengths(m) =~= seq![seq![0i32]]);
        reveal_with_fuel(wins_below, 2);
    }
}


/// Two to the power `i`.
pub open spec fn two_pow(i: nat) -> nat
    decreases i,
{
    if i == 0 {
        1
    } else {
        2 * two_pow((i - 1) as nat)
    }
}

/// A call between distinct candidates counts at least `2^i` comparisons: of
/// its three calls, the direct one and at least one through the pivot again
/// join distinct candidates.
proof fn lemma_step_cost_floor(j: int, k: int, i: nat)
    requires
        j != k,
    ensures
        step_cost(j, k, i) >= two_pow(i),
    decreases i,
{
    if i > 0 {
        let prev = (i - 1) as nat;
        lemma_step_cost_floor(j, k, prev);
        if j != i {
            lemma_step_cost_floor(j, i as int, prev);
        } else {
            lemma_step_cost_floor(i as int, k, prev);
        }
    }
}

proof fn lemma_row_cost_floor(a: int, d: nat, b: nat)
    requires
        0 <= a,
    ensures
        row_cost(a, d, b) + (if a < b { two_pow(d) } else { 0 }) >= b * two_pow(d),
    decreases b,
{
    let t = two_pow(d);
    if b > 0 {
        let c = (b - 1) as nat;
        lemma_row_cost_floor(a, d, c);
        assert(row_cost(a, d, b) == row_cost(a, d, c) + step_cost(a, c as int, d));
        assert(c * t + t == b * t) by (nonlinear_arith)
            requires
                c + 1 == b,
        ;
        if a != c {
            lemma_step_cost_floor(a, c as int, d);
        }
    } else {
        assert(b * t == 0) by (nonlinear_arith)
            requires
                b == 0,
        ;
    }
}

proof fn lemma_rows_cost_floor(n: nat, d: nat, a: nat)
    requires
        a <= n,
    ensures
        rows_cost(n, d, a) >= a * ((n - 1) * two_pow(d)),
    decreases a,
{
    let t = two_pow(d);
    if a > 0 {
        let c = (a - 1) as nat;
        lemma_rows_cost_floor(n, d, c);
        lemma_row_cost_floor(c as int, d, n);
        assert(rows_cost(n, d, a) == rows_cost(n, d, c) + row_cost(c as int, d, n));
        assert(row_cost(c as int, d, n) + t >= n * t);
        assert(n * t - t == (n - 1) * t) by (nonlinear_arith)
            requires
                n >= 1,
        ;
        assert(c * ((n - 1) * t) + (n - 1) * t == a * ((n - 1) * t)) by (nonlinear_arith)
            requires
                c + 1 == a,
        ;
    } else {
        assert(a * ((n - 1) * t) == 0) by (nonlinear_arith)
            requires
                a == 0,
        ;
    }
}

proof fn lemma_row_cost_monotone(a: int, d: nat, b: nat, c: nat)
    requires
        c <= b,
    ensures
        row_cost(a, d, c) <= row_cost(a, d, b),
    decreases b,
{
    if c < b {
        lemma_row_cost_monotone(a, d, (b - 1) as nat, c);
    }
}

proof fn lemma_rows_cost_monotone(n: nat, d: nat, a: nat)
    requires
        a >= 1,
    ensures
        row_cost(0, d, n) <= rows_cost(n, d, a),
    decreases a,
{
    if a > 1 {
        lemma_rows_cost_monotone(n, d, (a - 1) as nat);
    }
}

/// `(n - 1) * 2^(n - 1)` outgrows `4 * n * n` from six candidates on.
proof fn lemma_exponential_outgrows_square(n: nat)
    requires
        n >= 6,
    ensures
        (n - 1) * two_pow((n - 1) as nat) > 4 * n * n,
    decreases n,
{
    if n == 6 {
        reveal_with_fuel(two_pow, 6);
        assert(two_pow(5) == 32);
    } else {
        let m = (n - 1) as nat;
        lemma_exponential_outgrows_square(m);
        let t = two_pow((m - 1) as nat);
        assert(two_pow(m) == 2 * t);
        assert((n - 1) * (2 * t) > 4 * n * n) by (nonlinear_arith)
            requires
                n >= 7,
                m == n - 1,
                (m - 1) * t > 4 * m * m,
        ;
    }
}

/// The recursive solver's count grows exponentially.  For `n` candidates it
/// is at least `n * (n - 1) * 2^(n - 1)`; from two candidates on, the cell
/// `(0, 1)` alone costs `3^n - 2`; and from six candidates on it exceeds the
/// iterative solver's `4 * n^3`.
pub proof fn lemma_recursive_cost_exponential(n: nat)
    ensures
        n >= 1 ==> recursive_cost(n) >= n * ((n - 1) * two_pow((n - 1) as nat)),
        n >= 2 ==> recursive_cost(n) + 2 >= pow3(n),
        n >= 6 ==> recursive_cost(n) > 4 * n * n * n,
{
    if n >= 1 {
        let d = (n - 1) as nat;
        lemma_rows_cost_floor(n, d, n);
        if n >= 2 {
            lemma_step_cost_full_tree(0, 1, d);
            lemma_rows_cost_monotone(n, d, n);
            lemma_row_cost_monotone(0, d, n, 2);
            assert(row_cost(0, d, 2) == step_cost(0, 0, d) + step_cost(0, 1, d)) by {
                reveal_with_fuel(row_cost, 3);
            }
            assert(pow3(n) == 3 * pow3(d));
        }
        if n >= 6 {
            lemma_exponential_outgrows_square(n);
            assert(n * ((n - 1) * two_pow(d)) > 4 * n * n * n) by (nonlinear_arith)
                requires
                    n >= 6,
                    (n - 1) * two_pow(d) > 4 * n * n,
            ;
        }
    }
}

} // verus!
