use quickshift::bitset::{bitset_and, bitset_count, bitset_is_empty, bitset_not, bitset_or, for_each_bit};
use quickshift::clique_bk::{bk_find_max_weight_clique, bk_search_max_weight_clique};

#[test]
fn bitset_basics() {
    assert!(bitset_is_empty(&vec![0, 0]));
    assert!(!bitset_is_empty(&vec![0, 4]));
    assert_eq!(bitset_count(&vec![0b1011, 1]), 4);
    assert_eq!(bitset_and(&vec![0b1100], &vec![0b1010]), vec![0b1000]);
    assert_eq!(bitset_or(&vec![0b1100], &vec![0b1010]), vec![0b1110]);
    assert_eq!(bitset_not(&vec![0]), vec![u64::MAX]);
    assert_eq!(for_each_bit(&vec![5, 1]), vec![0, 2, 64]);
}

fn graph(n: usize, edges: &[(usize, usize)]) -> Vec<Vec<u64>> {
    let words = if n == 0 { 0 } else { (n + 63) / 64 };
    let mut g = vec![vec![0u64; words]; n];
    for &(a, b) in edges {
        g[a][b / 64] |= 1u64 << (b % 64);
        g[b][a / 64] |= 1u64 << (a % 64);
    }
    g
}

#[test]
fn clique_triangle_and_size_limit() {
    let g = graph(4, &[(0, 1), (1, 2), (0, 2), (2, 3)]);
    let mut r = bk_find_max_weight_clique(&g, &vec![1, 2, 3, 1], 3, 1000);
    r.sort();
    assert_eq!(r, vec![0, 1, 2]);
    let mut r2 = bk_find_max_weight_clique(&g, &vec![1, 2, 3, 1], 2, 1000);
    r2.sort();
    assert_eq!(r2, vec![1, 2]);
}

#[test]
fn clique_heavier_vertex_wins() {
    let g = graph(3, &[(0, 1)]);
    let r = bk_find_max_weight_clique(&g, &vec![1, 1, 5], 3, 1000);
    assert_eq!(r, vec![2]);
    assert!(bk_find_max_weight_clique(&graph(0, &[]), &vec![], 3, 1000).is_empty());
}

#[test]
fn clique_unlimited_budget_always_finds_one() {
    let g = graph(3, &[]);
    let r = bk_find_max_weight_clique(&g, &vec![-4, -1, -9], 2, u128::MAX);
    assert_eq!(r, vec![1]);
    let t = graph(4, &[(0, 1), (1, 2), (0, 2), (2, 3)]);
    let mut r2 = bk_find_max_weight_clique(&t, &vec![1, 2, 3, 1], 3, u128::MAX);
    r2.sort();
    assert_eq!(r2, vec![0, 1, 2]);
}

#[test]
fn clique_unlimited_budget_takes_the_heaviest() {
    let t = graph(3, &[(0, 1), (1, 2), (0, 2)]);
    let mut r = bk_find_max_weight_clique(&t, &vec![1, 5, 3], 2, u128::MAX);
    r.sort();
    assert_eq!(r, vec![1, 2]);
    let e = graph(3, &[(0, 1)]);
    assert_eq!(bk_find_max_weight_clique(&e, &vec![1, 1, 5], 6, u128::MAX), vec![2]);
}

#[test]
fn clique_search_reports_whether_it_ran_to_its_end() {
    // Triangle 0-1-2 with weights [1, 5, 3] and at most two vertices: the two heaviest
    // of the maximal clique, heaviest first.
    let neigh = vec![vec![0b110u64], vec![0b101], vec![0b011]];
    let (r, done) = bk_search_max_weight_clique(&neigh, &vec![1, 5, 3], 2, u128::MAX);
    assert!(done);
    assert_eq!(r, vec![1usize, 2]);
    let (r, done) = bk_search_max_weight_clique(&neigh, &vec![1, 5, 3], 2, 10_000);
    if done {
        assert_eq!(r, vec![1usize, 2]);
    }
    assert_eq!(bk_find_max_weight_clique(&neigh, &vec![1, 5, 3], 2, 10_000), vec![1usize, 2]);
}
