use rand::Rng;
use vstd::prelude::*;

use crate::schulze::{grid, is_square};

verus! {

/// The first sample election of five candidates.
pub open spec fn graph_1() -> Seq<Seq<i32>> {
    seq![
        seq![0i32, 20, 26, 30, 22],
        seq![25i32, 0, 16, 33, 18],
        seq![19i32, 29, 0, 17, 24],
        seq![15i32, 12, 28, 0, 14],
        seq![23i32, 27, 21, 31, 0],
    ]
}

/// The second sample election of five candidates.
pub open spec fn graph_2() -> Seq<Seq<i32>> {
    seq![
        seq![0i32, 15, 9, 23, 40],
        seq![35i32, 0, 24, 31, 22],
        seq![41i32, 26, 0, 23, 40],
        seq![27i32, 19, 27, 0, 35],
        seq![10i32, 28, 10, 15, 0],
    ]
}

/// Returns the first sample election.
pub fn generate_graph_1() -> (r: Vec<Vec<i32>>)
    ensures
        grid(&r) == graph_1(),
{
    let r = vec![
        vec![0, 20, 26, 30, 22],
        vec![25, 0, 16, 33, 18],
        vec![19, 29, 0, 17, 24],
        vec![15, 12, 28, 0, 14],
        vec![23, 27, 21, 31, 0],
    ];
    assert(grid(&r) =~= graph_1());
    r
}

/// Returns the second sample election.
pub fn generate_graph_2() -> (r: Vec<Vec<i32>>)
    ensures
        grid(&r) == graph_2(),
{
    let r = vec![
        vec![0, 15, 9, 23, 40],
        vec![35, 0, 24, 31, 22],
        vec![41, 26, 0, 23, 40],
        vec![27, 19, 27, 0, 35],
        vec![10, 28, 10, 15, 0],
    ];
    assert(grid(&r) =~= graph_2());
    r
}


/// In a poll of `voters` voters between candidates `a` and `b`, every voter
/// ranked one of the two above the other, and each of them got at least one
/// vote.
pub open spec fn split_poll(g: Seq<Seq<i32>>, a: int, b: int, voters: i32) -> bool {
    &&& 1 <= g[a][b] < voters
    &&& g[a][b] + g[b][a] == voters
}

/// A random election of `n` candidates and `voters` voters: square, with a
/// zero diagonal, and every pair of distinct candidates split as `split_poll` says.
pub open spec fn is_random_election(g: Seq<Seq<i32>>, n: nat, voters: i32) -> bool {
    &&& g.len() == n
    &&& is_square(g)
    &&& forall|a: int| 0 <= a < n ==> #[trigger] g[a][a] == 0
    &&& forall|a: int, b: int|
        0 <= a < n && 0 <= b < n && a != b ==> #[trigger] split_poll(g, a, b, voters)
}

/// Relies on rand's `thread_rng().gen_range(1..voters)`: a value drawn from
/// `1` up to but excluding `voters`.  It panics on an empty range, which the
/// precondition rules out.
#[verifier::external_body]
fn random_score(voters: i32) -> (r: i32)
    requires
        voters > 1,
    ensures
        1 <= r < voters,
{
    rand::thread_rng().gen_range(1..voters)
}

/// A random preference matrix for `contestants_amount` candidates and
/// `voters_amount` voters: for each pair of candidates a random share of at
/// least one voter prefers the first, and all the others prefer the second.
pub fn generate_schulze_matrix(contestants_amount: usize, voters_amount: i32) -> (r: Vec<Vec<i32>>)
    requires
        contestants_amount >= 2 ==> voters_amount >= 2,
    ensures
        is_random_election(grid(&r), contestants_amount as nat, voters_amount),
{
    let n = contestants_amount;
    let mut graph: Vec<Vec<i32>> = Vec::new();
    let mut x: usize = 0;
    while x < n
        invariant
            0 <= x <= n,
            graph@.len() == x,
            forall|a: int| 0 <= a < x ==> #[trigger] graph@[a]@ == Seq::new(n as nat, |b: int| 0i32),
        decreases n - x,
    {
        let mut row: Vec<i32> = Vec::new();
        let mut y: usize = 0;
        while y < n
            invariant
                0 <= y <= n,
                row@ == Seq::new(y as nat, |b: int| 0i32),
            decreases n - y,
        {
            row.push(0);
            y += 1;
            assert(row@ =~= Seq::new(y as nat, |b: int| 0i32));
        }
        graph.push(row);
        x += 1;
    }
    let mut i: usize = 0;
    while i < n
        invariant
            0 <= i <= n,
            n >= 2 ==> voters_amount >= 2,
            graph@.len() == n,
            forall|a: int| 0 <= a < n ==> #[trigger] graph@[a]@.len() == n,
            forall|a: int, b: int|
                0 <= a < n && 0 <= b < n && a != b && (a < i || b < i) ==> #[trigger] split_poll(
                    grid(&graph),
                    a,
                    b,
                    voters_amount,
                ),
            forall|a: int, b: int|
                0 <= a < n && 0 <= b < n && (a == b || (a >= i && b >= i)) ==> #[trigger] graph@[a]@[b]
                    == 0,
        decreases n - i,
    {
        let mut j: usize = i + 1;
        while j < n
            invariant
                0 <= i < n,
                i + 1 <= j <= n,
                n >= 2 ==> voters_amount >= 2,
                graph@.len() == n,
                forall|a: int| 0 <= a < n ==> #[trigger] graph@[a]@.len() == n,
                forall|a: int, b: int|
                    0 <= a < n && 0 <= b < n && a != b && (a < i || b < i || (a == i && b < j) || (b
                        == i && a < j)) ==> #[trigger] split_poll(grid(&graph), a, b, voters_amount),
                forall|a: int, b: int|
                    0 <= a < n && 0 <= b < n && (a == b || (a >= i && b >= i && !(a == i && b < j)
                        && !(b == i && a < j))) ==> #[trigger] graph@[a]@[b] == 0,
            decreases n - j,
        {
            let ghost before = grid(&graph);
            let score = random_score(voters_amount);
            graph[i][j] = score;
            graph[j][i] = voters_amount - score;
            proof {
                let g = grid(&graph);
                assert forall|a: int, b: int|
                    0 <= a < n && 0 <= b < n && a != b && (a < i || b < i || (a == i && b <= j) || (
                    b == i && a <= j)) implies #[trigger] split_poll(g, a, b, voters_amount) by {
                    if !((a == i && b == j) || (a == j && b == i)) {
                        assert(split_poll(before, a, b, voters_amount));
                        assert(g[a][b] == before[a][b] && g[b][a] == before[b][a]);
                    }
                }
            }
            j += 1;
        }
        i += 1;
    }
    proof {
        assert forall|a: int| 0 <= a < n implies #[trigger] grid(&graph)[a].len() == n by {}
        assert forall|a: int| 0 <= a < n implies #[trigger] grid(&graph)[a][a] == 0 by {
            assert(graph@[a]@[a] == 0);
        }
    }
    graph
}

} // verus!
