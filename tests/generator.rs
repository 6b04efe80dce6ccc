use git_dagger::dag::{commit_order, AdjacencyList};
use git_dagger::generator::{edge_gap, generate_from_draws, DagBuilder};

fn pseudo_random_draws(seed: u64, count: usize) -> Vec<bool> {
    let mut state = seed;
    let mut draws = Vec::new();
    for _ in 0..count {
        state = state.wrapping_mul(6364136223846793005).wrapping_add(1442695040888963407);
        draws.push((state >> 33) % 4 == 0);
    }
    draws
}

fn assert_one_head_dag(adj: &AdjacencyList, n: usize) {
    assert_eq!(adj.len(), n);
    if n >= 2 {
        assert_eq!(adj[0][0], 1);
    }
    if n >= 1 {
        assert!(adj[n - 1].is_empty());
    }
    for (i, row) in adj.iter().enumerate() {
        for (k, &w) in row.iter().enumerate() {
            assert!(i < w && w < n);
            if k > 0 {
                assert!(row[k - 1] < w);
            }
        }
    }
    for w in 2..n {
        assert!((0..w).any(|i| adj[i].contains(&w)), "vertex {} has no in-edge", w);
    }
}

#[test]
fn no_vertices_gives_empty_structure() {
    assert_eq!(generate_from_draws(0, &vec![]), Some(vec![]));
    assert_eq!(generate_from_draws(0, &vec![true, false]), Some(vec![]));
}

#[test]
fn single_vertex_gives_one_empty_entry() {
    let expected: AdjacencyList = vec![vec![]];
    assert_eq!(generate_from_draws(1, &vec![]), Some(expected.clone()));
    assert_eq!(generate_from_draws(1, &vec![true, true]), Some(expected));
}

#[test]
fn two_vertices_need_no_draws() {
    assert_eq!(generate_from_draws(2, &vec![]), Some(vec![vec![1], vec![]]));
}

#[test]
fn all_hits_on_five_vertices() {
    let expected: AdjacencyList = vec![vec![1, 2, 3, 4], vec![2, 3, 4], vec![3, 4], vec![4], vec![]];
    assert_eq!(generate_from_draws(5, &vec![true; 9]), Some(expected.clone()));
    assert_eq!(generate_from_draws(5, &vec![true; 50]), Some(expected));
    assert_eq!(generate_from_draws(5, &vec![true; 8]), None);
}

#[test]
fn all_misses_on_five_vertices_never_complete() {
    assert_eq!(generate_from_draws(5, &vec![false; 10_000]), None);
    let mut b = DagBuilder::new(5);
    for _ in 0..1000 {
        let (candidate, vertex) = b.next_draw().unwrap();
        assert_eq!(vertex, 2);
        assert!(candidate < 2);
        b.record_draw(false);
    }
    assert!(!b.is_complete());
    assert_eq!(b.into_adjacency(), vec![vec![1], vec![], vec![], vec![], vec![]]);
}

#[test]
fn failed_trial_starts_over_from_the_head() {
    let mut b = DagBuilder::new(4);
    assert_eq!(b.next_draw(), Some((0, 2)));
    b.record_draw(false);
    assert_eq!(b.next_draw(), Some((1, 2)));
    b.record_draw(false);
    assert_eq!(b.next_draw(), Some((0, 2)));
    b.record_draw(false);
    b.record_draw(true);
    assert_eq!(b.next_draw(), Some((0, 3)));
    b.record_draw(false);
    b.record_draw(false);
    b.record_draw(true);
    assert_eq!(b.next_draw(), None);
    assert!(b.is_complete());
    b.record_draw(true);
    assert_eq!(b.into_adjacency(), vec![vec![1], vec![2], vec![3], vec![]]);
}

#[test]
fn same_draws_give_same_structure() {
    let draws = pseudo_random_draws(7, 20_000);
    let first = generate_from_draws(30, &draws);
    let second = generate_from_draws(30, &draws);
    assert!(first.is_some());
    assert_eq!(first, second);
}

#[test]
fn generated_structures_are_one_head_dags() {
    for seed in 0..20u64 {
        for n in 0..25usize {
            let draws = pseudo_random_draws(seed, 20_000);
            let adj = generate_from_draws(n, &draws).expect("draws suffice");
            assert_one_head_dag(&adj, n);
        }
    }
}

#[test]
fn extra_draws_after_completion_are_ignored() {
    let mut draws = pseudo_random_draws(3, 20_000);
    let before = generate_from_draws(12, &draws);
    draws.extend(vec![true; 100]);
    assert_eq!(generate_from_draws(12, &draws), before);
}

#[test]
fn edge_gap_counts_vertices_between() {
    assert_eq!(edge_gap(0, 4), 3);
    assert_eq!(edge_gap(3, 4), 0);
    assert_eq!(edge_gap(1, 9), 7);
}

#[test]
fn commit_order_runs_from_root_to_head() {
    assert_eq!(commit_order(4), vec![3, 2, 1, 0]);
    assert_eq!(commit_order(0), Vec::<usize>::new());
}
