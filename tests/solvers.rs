use schulze::generator::{generate_graph_1, generate_graph_2, generate_schulze_matrix};
use schulze::schulze::{
    prepare_graph, rank_candidates, schulze_iterative, schulze_recursive, schulze_recursive_step,
    SchulzeError,
    MAX_RECURSIVE_CANDIDATES,
};

fn graph_1_strengths() -> Vec<Vec<i32>> {
    vec![
        vec![0, 28, 28, 30, 24],
        vec![25, 0, 28, 33, 24],
        vec![25, 29, 0, 29, 24],
        vec![25, 28, 28, 0, 24],
        vec![25, 28, 28, 31, 0],
    ]
}

fn graph_2_strengths() -> Vec<Vec<i32>> {
    vec![
        vec![0, 28, 27, 28, 40],
        vec![35, 0, 27, 31, 35],
        vec![41, 28, 0, 28, 40],
        vec![28, 28, 27, 0, 35],
        vec![28, 28, 27, 28, 0],
    ]
}

#[test]
fn prepare_keeps_only_strict_wins() {
    let prepared = prepare_graph(&generate_graph_1()).unwrap();
    assert_eq!(
        prepared,
        vec![
            vec![0, 0, 26, 30, 0],
            vec![25, 0, 0, 33, 0],
            vec![0, 29, 0, 0, 24],
            vec![0, 0, 28, 0, 0],
            vec![23, 27, 0, 31, 0],
        ]
    );
}

#[test]
fn prepare_zeroes_ties_and_diagonal() {
    let graph = vec![vec![7, 3, 4], vec![3, 9, 1], vec![2, 5, 6]];
    let prepared = prepare_graph(&graph).unwrap();
    assert_eq!(prepared, vec![vec![0, 0, 4], vec![0, 0, 0], vec![0, 5, 0]]);
}

#[test]
fn prepare_rejects_ragged_matrix() {
    let graph = vec![vec![0, 1], vec![2]];
    assert_eq!(prepare_graph(&graph), Err(SchulzeError::InvalidInput));
    assert_eq!(schulze_iterative(&graph).err(), Some(SchulzeError::InvalidInput));
    assert_eq!(schulze_recursive(&graph).err(), Some(SchulzeError::InvalidInput));
}

#[test]
fn prepare_rejects_negative_entry() {
    let graph = vec![vec![0, -1], vec![2, 0]];
    assert_eq!(prepare_graph(&graph), Err(SchulzeError::InvalidInput));
    assert_eq!(schulze_iterative(&graph).err(), Some(SchulzeError::InvalidInput));
    assert_eq!(schulze_recursive(&graph).err(), Some(SchulzeError::InvalidInput));
}

#[test]
fn prepare_twice_changes_nothing() {
    for graph in [generate_graph_1(), generate_graph_2(), generate_schulze_matrix(7, 50)] {
        let once = prepare_graph(&graph).unwrap();
        let twice = prepare_graph(&once).unwrap();
        assert_eq!(once, twice);
    }
}

#[test]
fn iterative_solves_first_sample() {
    let sol = schulze_iterative(&generate_graph_1()).unwrap();
    assert_eq!(sol.strong_links, graph_1_strengths());
    assert_eq!(sol.comparisons, 500);
}

#[test]
fn recursive_solves_first_sample() {
    let sol = schulze_recursive(&generate_graph_1()).unwrap();
    assert_eq!(sol.strong_links, graph_1_strengths());
    assert_eq!(sol.comparisons, 3686);
}

#[test]
fn first_sample_win_counts() {
    let iterative = schulze_iterative(&generate_graph_1()).unwrap();
    let recursive = schulze_recursive(&generate_graph_1()).unwrap();
    assert_eq!(rank_candidates(&iterative.strong_links), vec![3, 1, 2, 0, 4]);
    assert_eq!(rank_candidates(&recursive.strong_links), vec![3, 1, 2, 0, 4]);
}

#[test]
fn both_solvers_solve_second_sample() {
    let iterative = schulze_iterative(&generate_graph_2()).unwrap();
    let recursive = schulze_recursive(&generate_graph_2()).unwrap();
    assert_eq!(iterative.strong_links, graph_2_strengths());
    assert_eq!(recursive.strong_links, graph_2_strengths());
    assert_eq!(rank_candidates(&iterative.strong_links), vec![1, 3, 4, 1, 0]);
}

#[test]
fn solvers_agree_on_random_elections() {
    for n in 0..9usize {
        for _round in 0..4 {
            let graph = generate_schulze_matrix(n, 50);
            let iterative = schulze_iterative(&graph).unwrap();
            let recursive = schulze_recursive(&graph).unwrap();
            assert_eq!(iterative.strong_links, recursive.strong_links);
            assert_eq!(
                rank_candidates(&iterative.strong_links),
                rank_candidates(&recursive.strong_links)
            );
        }
    }
}

#[test]
fn iterative_counts_four_per_triple() {
    for n in 0..10usize {
        let graph = generate_schulze_matrix(n, 30);
        let sol = schulze_iterative(&graph).unwrap();
        assert_eq!(sol.comparisons, 4 * (n as u64).pow(3));
    }
    let zeros = vec![vec![0; 6]; 6];
    assert_eq!(schulze_iterative(&zeros).unwrap().comparisons, 864);
}

#[test]
fn recursive_cost_outgrows_iterative() {
    let expected: [u64; 9] = [0, 1, 18, 136, 758, 3686, 16572, 70484, 287058];
    for n in 0..9usize {
        let graph = generate_schulze_matrix(n, 50);
        let recursive = schulze_recursive(&graph).unwrap();
        let iterative = schulze_iterative(&graph).unwrap();
        assert_eq!(recursive.comparisons, expected[n]);
        if n >= 3 {
            assert!(recursive.comparisons > iterative.comparisons);
        }
    }
    assert!(expected[8] > 4 * expected[7]);
}

#[test]
fn recursive_declines_large_elections() {
    let graph = vec![vec![0; MAX_RECURSIVE_CANDIDATES + 1]; MAX_RECURSIVE_CANDIDATES + 1];
    assert_eq!(schulze_recursive(&graph).err(), Some(SchulzeError::ResourceExhausted));
    assert!(schulze_iterative(&graph).is_ok());
}

#[test]
fn empty_election() {
    let graph: Vec<Vec<i32>> = Vec::new();
    assert_eq!(prepare_graph(&graph), Ok(Vec::new()));
    let iterative = schulze_iterative(&graph).unwrap();
    let recursive = schulze_recursive(&graph).unwrap();
    assert!(iterative.strong_links.is_empty());
    assert!(recursive.strong_links.is_empty());
    assert_eq!(iterative.comparisons, 0);
    assert_eq!(recursive.comparisons, 0);
    assert!(rank_candidates(&iterative.strong_links).is_empty());
}

#[test]
fn single_candidate_election() {
    let graph = vec![vec![17]];
    assert_eq!(prepare_graph(&graph), Ok(vec![vec![0]]));
    let iterative = schulze_iterative(&graph).unwrap();
    let recursive = schulze_recursive(&graph).unwrap();
    assert_eq!(iterative.strong_links, vec![vec![0]]);
    assert_eq!(recursive.strong_links, vec![vec![0]]);
    assert_eq!(rank_candidates(&iterative.strong_links), vec![0]);
    assert_eq!(recursive.comparisons, 1);
}

#[test]
fn two_candidate_recursive_count() {
    let sol = schulze_recursive(&vec![vec![0, 5], vec![3, 0]]).unwrap();
    assert_eq!(sol.strong_links, vec![vec![0, 5], vec![0, 0]]);
    assert_eq!(sol.comparisons, 18);
}

#[test]
fn recursive_step_on_first_sample() {
    let mut prepared = prepare_graph(&generate_graph_1()).unwrap();
    let mut comparisons: u64 = 0;
    let strength = schulze_recursive_step(&mut prepared, &mut comparisons, 0, 1, 4);
    assert_eq!(strength, 28);
    assert_eq!(comparisons, 241);
}

#[test]
fn recursive_step_pivots_on_its_depth() {
    let mut links = vec![vec![0, 0, 0], vec![0, 0, 5], vec![5, 0, 0]];
    let mut comparisons: u64 = 0;
    assert_eq!(schulze_recursive_step(&mut links, &mut comparisons, 1, 0, 2), 5);
    let mut comparisons: u64 = 0;
    schulze_recursive_step(&mut links, &mut comparisons, 0, 1, 2);
    assert_eq!(comparisons, 25);
}

#[test]
fn path_through_first_candidate_counts() {
    let graph = vec![vec![0, 0, 10], vec![10, 0, 0], vec![0, 0, 0]];
    let expected = vec![vec![0, 0, 10], vec![10, 0, 10], vec![0, 0, 0]];
    assert_eq!(schulze_iterative(&graph).unwrap().strong_links, expected);
    assert_eq!(schulze_recursive(&graph).unwrap().strong_links, expected);
}

#[test]
fn random_election_splits_every_pair() {
    for n in 0..12usize {
        let graph = generate_schulze_matrix(n, 5);
        assert_eq!(graph.len(), n);
        for a in 0..n {
            assert_eq!(graph[a].len(), n);
            assert_eq!(graph[a][a], 0);
            for b in 0..n {
                if a != b {
                    assert!(graph[a][b] >= 1 && graph[a][b] < 5);
                    assert_eq!(graph[a][b] + graph[b][a], 5);
                }
            }
        }
    }
}

#[test]
fn sample_elections_are_fixed() {
    assert_eq!(generate_graph_1()[0], vec![0, 20, 26, 30, 22]);
    assert_eq!(generate_graph_1()[4], vec![23, 27, 21, 31, 0]);
    assert_eq!(generate_graph_2()[2], vec![41, 26, 0, 23, 40]);
}
