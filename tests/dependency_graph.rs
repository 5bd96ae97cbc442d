use enso_data::dependency_graph::{assert_valid_sort, DependencyGraph};

fn graph(rules: &[(usize, usize)]) -> DependencyGraph {
    let mut graph = DependencyGraph::new();
    for &(first, second) in rules {
        graph.insert_dependency(first, second);
    }
    graph
}

fn check(sorted: &[usize], rules: &[(usize, usize)]) {
    let graph = graph(rules);
    assert_eq!(graph.topo_sort(sorted), sorted.to_vec());
    assert!(assert_valid_sort(&graph, sorted));
}

#[test]
fn test_identity() {
    check(&[], &[]);
    check(&[0], &[]);
    check(&[0, 1], &[]);
    check(&[0, 1, 2], &[]);
    check(&[0, 1, 2, 3], &[]);
}

#[test]
fn test_non_overlapping_rules() {
    check(&[1, 0], &[(1, 0)]);
    check(&[0, 2, 1, 3], &[(2, 1)]);
    check(&[1, 0, 3, 2], &[(1, 0), (3, 2)]);
}

#[test]
fn test_overlapping_rules() {
    check(&[4, 3, 2, 1, 0], &[(4, 3), (3, 2), (2, 1), (1, 0)]);
    check(&[4, 3, 2, 1, 0], &[(3, 2), (4, 3), (1, 0), (2, 1)]);
    check(&[4, 3, 2, 1, 0], &[(1, 0), (2, 1), (3, 2), (4, 3)]);
    check(
        &[1, 8, 2, 7, 3, 6, 4, 5],
        &[(1, 8), (8, 2), (2, 7), (7, 3), (3, 6), (6, 4), (4, 5)],
    );
}

#[test]
fn test_non_dag() {
    check(&[0], &[(0, 0)]);
    check(&[1, 2, 0], &[(0, 0)]);
    check(&[0, 2, 1], &[(1, 1)]);
    check(&[0, 1, 2], &[(2, 2)]);
    check(&[0, 1], &[(0, 1), (1, 0)]);
    check(&[0, 1, 2], &[(0, 1), (1, 2), (2, 0)]);
    check(
        &[0, 1, 2],
        &[(0, 0), (0, 1), (0, 2), (1, 0), (1, 1), (1, 2), (2, 0), (2, 1), (2, 2)],
    );
}

#[test]
fn empty_graph_sorts_ascending() {
    let graph = DependencyGraph::new();
    assert_eq!(graph.topo_sort(&[3, 1, 2, 0]), vec![0, 1, 2, 3]);
    assert_eq!(graph.topo_sort(&[9, 5, 7]), vec![5, 7, 9]);
    assert!(!assert_valid_sort(&graph, &[1, 0]));
}

#[test]
fn single_edge_orders_pair() {
    let graph = graph(&[(1, 0)]);
    assert_eq!(graph.topo_sort(&[0, 1]), vec![1, 0]);
}

#[test]
fn mutual_cycle_breaks_on_smallest() {
    let graph = graph(&[(0, 1), (1, 0)]);
    assert_eq!(graph.topo_sort(&[1, 0]), vec![0, 1]);
}

#[test]
fn cycle_broken_after_free_keys() {
    let graph = graph(&[(0, 0)]);
    assert_eq!(graph.topo_sort(&[2, 0, 1]), vec![1, 2, 0]);
}

#[test]
fn duplicate_keys_appear_once() {
    let graph = graph(&[(2, 1)]);
    assert_eq!(graph.topo_sort(&[1, 2, 1, 0, 2]), vec![0, 2, 1]);
}

#[test]
fn keys_outside_graph_have_no_dependencies() {
    let graph = graph(&[(3, 1)]);
    assert_eq!(graph.topo_sort(&[100, 1, 3, 50]), vec![3, 1, 50, 100]);
}

#[test]
fn dependencies_outside_keys_are_ignored() {
    // 2 must precede 0 only through 1, which is not sorted.
    let graph = graph(&[(2, 1), (1, 0)]);
    assert_eq!(graph.topo_sort(&[0, 2]), vec![0, 2]);
    assert_eq!(graph.topo_sort(&[0, 1, 2]), vec![2, 1, 0]);
}

#[test]
fn repeated_dependency_sorts_like_single() {
    let graph = graph(&[(1, 0), (1, 0), (1, 0)]);
    assert_eq!(graph.topo_sort(&[0, 1]), vec![1, 0]);
}

#[test]
fn keep_only_then_sort_matches_direct_sort() {
    let rules = [(4, 3), (3, 2), (2, 1), (1, 0), (0, 5), (5, 2)];
    let full = graph(&rules);
    let keys = [0, 2, 4, 5];
    let direct = full.topo_sort(&keys);
    let mut restricted = graph(&rules);
    restricted.keep_only(&keys);
    assert_eq!(restricted.topo_sort(&keys), direct);
    assert_eq!(restricted.topo_sort(&[2, 5]), full.topo_sort(&[2, 5]));
    let consumed = graph(&rules).kept_only(&keys);
    assert_eq!(consumed.topo_sort(&keys), direct);
    let unchecked = graph(&rules).unchecked_kept_only(&[5, 4, 2, 0]);
    assert_eq!(unchecked.topo_sort(&keys), direct);
}

#[test]
fn keep_only_drops_edges_of_excluded_nodes() {
    let mut graph = graph(&[(1, 0), (2, 1)]);
    graph.keep_only(&[0, 1]);
    assert_eq!(graph.topo_sort(&[0, 1, 2]), vec![1, 0, 2]);
    let mut graph2 = self::graph(&[(1, 0), (2, 1)]);
    graph2.unchecked_keep_only(&[2, 0]);
    assert_eq!(graph2.topo_sort(&[0, 1, 2]), vec![0, 1, 2]);
}

#[test]
fn keep_only_keeps_storage_for_later_edges() {
    let mut graph = graph(&[(3, 0)]);
    graph.keep_only(&[1]);
    graph.insert_dependency(2, 1);
    assert_eq!(graph.topo_sort(&[0, 1, 2, 3]), vec![0, 2, 1, 3]);
}

#[test]
fn sort_is_deterministic() {
    let graph = graph(&[(0, 1), (1, 2), (2, 0), (3, 1)]);
    let first = graph.topo_sort(&[0, 1, 2, 3]);
    let second = graph.topo_sort(&[3, 2, 1, 0]);
    let third = graph.topo_sort(&[0, 1, 2, 3]);
    assert_eq!(first, vec![3, 0, 1, 2]);
    assert_eq!(first, second);
    assert_eq!(first, third);
}

#[test]
fn unchecked_topo_sort_takes_descending_keys() {
    let graph = graph(&[(1, 0), (3, 2)]);
    assert_eq!(graph.unchecked_topo_sort(vec![3, 2, 1, 0]), vec![1, 0, 3, 2]);
    assert_eq!(graph.unchecked_topo_sort(vec![3, 3, 1, 1]), vec![1, 3]);
}

#[test]
fn insertion_order_does_not_matter() {
    let a = graph(&[(0, 3), (2, 1), (1, 3)]);
    let b = graph(&[(1, 3), (0, 3), (2, 1)]);
    assert_eq!(a.topo_sort(&[0, 1, 2, 3]), b.topo_sort(&[0, 1, 2, 3]));
    assert_eq!(a.topo_sort(&[0, 1, 2, 3]), vec![0, 2, 1, 3]);
}

#[test]
fn long_chains_sort_in_chain_order() {
    let ascending: Vec<usize> = (0..1000).collect();
    let mut graph = DependencyGraph::new();
    for (i, j) in ascending.iter().zip(ascending.iter().skip(1)) {
        graph.insert_dependency(*i, *j);
    }
    assert_eq!(graph.topo_sort(&ascending), ascending);

    let descending: Vec<usize> = (0..1000).rev().collect();
    let mut graph = DependencyGraph::new();
    for (i, j) in descending.iter().zip(descending.iter().skip(1)) {
        graph.insert_dependency(*i, *j);
    }
    assert_eq!(graph.topo_sort(&descending), descending);
}
