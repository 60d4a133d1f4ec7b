use iot_structures::adj_list::{min_index, InternetOfThings};
use iot_structures::tentative::TentativeWeight;
use std::cmp::Ordering;
use std::collections::HashSet;

fn chain() -> InternetOfThings {
    let mut g = InternetOfThings::new();
    g.set_nodes(vec![1, 2, 3]);
    g.set_edges(1, vec![(1, 2)]);
    g.set_edges(2, vec![(1, 3)]);
    g
}

fn set_of(ids: &[u64]) -> HashSet<u64> {
    ids.iter().copied().collect()
}

#[test]
fn new_graph_is_empty() {
    let g = InternetOfThings::new();
    assert_eq!(g.nodes(), 0);
    assert_eq!(g.edges(), 0);
}

#[test]
fn set_nodes_counts_and_clears_edges() {
    let mut g = chain();
    assert_eq!(g.edges(), 2);
    g.set_nodes(vec![10, 20, 30, 40]);
    assert_eq!(g.nodes(), 4);
    assert_eq!(g.edges(), 0);
    assert_eq!(g.connected(10, 5), Some(HashSet::new()));
    g.set_nodes(vec![]);
    assert_eq!(g.nodes(), 0);
}

#[test]
fn set_edges_on_new_node_adds_one_node() {
    let mut g = InternetOfThings::new();
    g.set_nodes(vec![1, 2]);
    g.set_edges(7, vec![(4, 1), (5, 2)]);
    assert_eq!(g.nodes(), 3);
    assert_eq!(g.edges(), 2);
    assert_eq!(g.connected(7, 1), Some(set_of(&[1, 2])));
}

#[test]
fn set_edges_on_known_node_replaces_its_list() {
    let mut g = InternetOfThings::new();
    g.set_nodes(vec![1, 2, 3]);
    g.set_edges(1, vec![(1, 2), (1, 3)]);
    assert_eq!(g.nodes(), 3);
    assert_eq!(g.edges(), 2);
    g.set_edges(1, vec![(9, 3)]);
    assert_eq!(g.nodes(), 3);
    assert_eq!(g.edges(), 1);
    assert_eq!(g.connected(1, 1), Some(set_of(&[3])));
    assert_eq!(g.shorted_path(1, 3), Some((9, vec![1, 3])));
    assert_eq!(g.shorted_path(1, 2), None);
}

#[test]
fn set_edges_drops_unknown_targets() {
    let mut g = InternetOfThings::new();
    g.set_nodes(vec![1, 2]);
    g.set_edges(1, vec![(1, 99), (2, 2), (3, 98)]);
    assert_eq!(g.nodes(), 2);
    assert_eq!(g.edges(), 1);
    assert_eq!(g.connected(1, 3), Some(set_of(&[2])));
    assert_eq!(g.connected(99, 1), None);
}

#[test]
fn set_edges_twice_is_set_edges_once() {
    let mut once = chain();
    once.set_edges(3, vec![(5, 1), (6, 77), (7, 2)]);
    let mut twice = chain();
    twice.set_edges(3, vec![(5, 1), (6, 77), (7, 2)]);
    twice.set_edges(3, vec![(5, 1), (6, 77), (7, 2)]);
    assert_eq!(once.nodes(), twice.nodes());
    assert_eq!(once.edges(), twice.edges());
    for from in [1u64, 2, 3, 77] {
        for degree in 0..4usize {
            assert_eq!(once.connected(from, degree), twice.connected(from, degree));
        }
        for to in [1u64, 2, 3, 77] {
            assert_eq!(once.shorted_path(from, to), twice.shorted_path(from, to));
        }
    }
}

#[test]
fn set_edges_twice_on_new_node_without_self_edge() {
    let mut once = chain();
    once.set_edges(4, vec![(2, 1), (3, 3)]);
    let mut twice = chain();
    twice.set_edges(4, vec![(2, 1), (3, 3)]);
    twice.set_edges(4, vec![(2, 1), (3, 3)]);
    assert_eq!(once.nodes(), 4);
    assert_eq!(twice.nodes(), 4);
    assert_eq!(once.edges(), twice.edges());
    assert_eq!(once.shorted_path(4, 3), twice.shorted_path(4, 3));
}

#[test]
fn self_edge_of_new_node_is_dropped_the_first_time() {
    let mut g = InternetOfThings::new();
    g.set_edges(1, vec![(5, 1)]);
    assert_eq!(g.nodes(), 1);
    assert_eq!(g.edges(), 0);
    g.set_edges(1, vec![(5, 1)]);
    assert_eq!(g.nodes(), 1);
    assert_eq!(g.edges(), 1);
    assert_eq!(g.connected(1, 1), Some(set_of(&[1])));
}

#[test]
fn connected_with_degree_zero_is_empty() {
    let g = chain();
    for id in [1u64, 2, 3] {
        assert_eq!(g.connected(id, 0), Some(HashSet::new()));
    }
}

#[test]
fn connected_unknown_is_none() {
    let g = chain();
    assert_eq!(g.connected(4, 0), None);
    assert_eq!(g.connected(4, 3), None);
}

#[test]
fn connected_by_degree() {
    let g = chain();
    assert_eq!(g.connected(1, 1), Some(set_of(&[2])));
    assert_eq!(g.connected(1, 2), Some(set_of(&[2, 3])));
    assert_eq!(g.connected(1, 3), Some(set_of(&[2, 3])));
    assert_eq!(g.connected(2, 1), Some(set_of(&[3])));
    assert_eq!(g.connected(3, 10), Some(HashSet::new()));
}

#[test]
fn connected_grows_with_degree() {
    let mut g = InternetOfThings::new();
    g.set_nodes(vec![1, 2, 3, 4, 5]);
    g.set_edges(1, vec![(1, 2), (1, 3)]);
    g.set_edges(2, vec![(1, 4)]);
    g.set_edges(3, vec![(1, 4)]);
    g.set_edges(4, vec![(1, 5), (1, 1)]);
    for id in [1u64, 2, 3, 4, 5] {
        for degree in 0..7usize {
            let small = g.connected(id, degree).unwrap();
            let large = g.connected(id, degree + 1).unwrap();
            assert!(small.is_subset(&large));
        }
    }
    assert_eq!(g.connected(1, 2), Some(set_of(&[2, 3, 4])));
    assert_eq!(g.connected(1, 3), Some(set_of(&[1, 2, 3, 4, 5])));
}

#[test]
fn connected_on_a_cycle_with_a_huge_degree() {
    let mut g = InternetOfThings::new();
    g.set_nodes(vec![1, 2, 3]);
    g.set_edges(1, vec![(1, 2)]);
    g.set_edges(2, vec![(1, 3)]);
    g.set_edges(3, vec![(1, 1)]);
    assert_eq!(g.connected(1, 2), Some(set_of(&[2, 3])));
    assert_eq!(g.connected(1, usize::MAX), Some(set_of(&[1, 2, 3])));
}

#[test]
fn connected_counts_a_node_once() {
    let mut g = InternetOfThings::new();
    g.set_nodes(vec![1, 2, 3]);
    g.set_edges(1, vec![(1, 2), (1, 3), (4, 3)]);
    g.set_edges(2, vec![(1, 3)]);
    let found = g.connected(1, 2).unwrap();
    assert_eq!(found.len(), 2);
    assert_eq!(found, set_of(&[2, 3]));
}

#[test]
fn shortest_path_along_a_chain() {
    let g = chain();
    assert_eq!(g.shorted_path(1, 3), Some((2, vec![1, 2, 3])));
    assert_eq!(g.shorted_path(1, 2), Some((1, vec![1, 2])));
}

#[test]
fn shortest_path_against_the_edges_is_none() {
    let g = chain();
    assert_eq!(g.shorted_path(3, 1), None);
    assert_eq!(g.shorted_path(2, 1), None);
}

#[test]
fn shortest_path_to_itself() {
    let mut g = InternetOfThings::new();
    g.set_nodes(vec![42]);
    assert_eq!(g.shorted_path(42, 42), Some((0, vec![42])));
    let g = chain();
    assert_eq!(g.shorted_path(2, 2), Some((0, vec![2])));
    assert_eq!(g.shorted_path(3, 3), Some((0, vec![3])));
}

#[test]
fn shortest_path_with_unknown_ends_is_none() {
    let g = chain();
    assert_eq!(g.shorted_path(9, 1), None);
    assert_eq!(g.shorted_path(1, 9), None);
    assert_eq!(g.shorted_path(8, 9), None);
    let empty = InternetOfThings::new();
    assert_eq!(empty.shorted_path(1, 1), None);
}

#[test]
fn shortest_path_prefers_the_cheaper_detour() {
    let mut g = InternetOfThings::new();
    g.set_nodes(vec![1, 2, 3, 4]);
    g.set_edges(1, vec![(10, 4), (1, 2)]);
    g.set_edges(2, vec![(2, 3)]);
    g.set_edges(3, vec![(3, 4)]);
    assert_eq!(g.shorted_path(1, 4), Some((6, vec![1, 2, 3, 4])));
    g.set_edges(1, vec![(5, 4), (1, 2)]);
    assert_eq!(g.shorted_path(1, 4), Some((5, vec![1, 4])));
}

#[test]
fn shortest_path_among_equals_goes_through_the_earlier_row() {
    let mut g = InternetOfThings::new();
    g.set_nodes(vec![1, 2, 3, 4]);
    g.set_edges(1, vec![(1, 3), (1, 2)]);
    g.set_edges(2, vec![(1, 4)]);
    g.set_edges(3, vec![(1, 4)]);
    assert_eq!(g.shorted_path(1, 4), Some((2, vec![1, 2, 4])));
    let mut h = InternetOfThings::new();
    h.set_nodes(vec![1, 3, 2, 4]);
    h.set_edges(1, vec![(1, 3), (1, 2)]);
    h.set_edges(2, vec![(1, 4)]);
    h.set_edges(3, vec![(1, 4)]);
    assert_eq!(h.shorted_path(1, 4), Some((2, vec![1, 3, 4])));
}

#[test]
fn shortest_path_keeps_the_first_parent_of_equal_cost() {
    let mut g = InternetOfThings::new();
    g.set_nodes(vec![1, 2, 3, 4]);
    g.set_edges(1, vec![(2, 2), (1, 3), (4, 4)]);
    g.set_edges(3, vec![(1, 2), (3, 4)]);
    g.set_edges(2, vec![(2, 4)]);
    assert_eq!(g.shorted_path(1, 2), Some((2, vec![1, 2])));
    assert_eq!(g.shorted_path(1, 4), Some((4, vec![1, 4])));
}

#[test]
fn shortest_path_takes_the_cheapest_of_parallel_edges() {
    let mut g = InternetOfThings::new();
    g.set_nodes(vec![1, 2]);
    g.set_edges(1, vec![(7, 2), (3, 2), (5, 2)]);
    assert_eq!(g.shorted_path(1, 2), Some((3, vec![1, 2])));
}

#[test]
fn shortest_path_over_zero_weights() {
    let mut g = InternetOfThings::new();
    g.set_nodes(vec![1, 2, 3]);
    g.set_edges(1, vec![(0, 2)]);
    g.set_edges(2, vec![(0, 3), (0, 1)]);
    assert_eq!(g.shorted_path(1, 3), Some((0, vec![1, 2, 3])));
    assert_eq!(g.shorted_path(1, 1), Some((0, vec![1])));
}

#[test]
fn shortest_path_whose_cost_does_not_fit_is_none() {
    let mut g = InternetOfThings::new();
    g.set_nodes(vec![1, 2, 3]);
    g.set_edges(1, vec![(u32::MAX, 2)]);
    g.set_edges(2, vec![(1, 3)]);
    assert_eq!(g.shorted_path(1, 2), Some((u32::MAX, vec![1, 2])));
    assert_eq!(g.shorted_path(1, 3), None);
    g.set_edges(1, vec![(u32::MAX, 2), (u32::MAX, 3)]);
    assert_eq!(g.shorted_path(1, 3), Some((u32::MAX, vec![1, 3])));
}

#[test]
fn lookups_take_the_first_of_equal_identifiers() {
    let mut g = InternetOfThings::new();
    g.set_nodes(vec![5, 5, 7]);
    g.set_edges(5, vec![(2, 7)]);
    assert_eq!(g.nodes(), 3);
    assert_eq!(g.edges(), 1);
    assert_eq!(g.shorted_path(5, 7), Some((2, vec![5, 7])));
    assert_eq!(g.connected(5, 1), Some(set_of(&[7])));
}

#[test]
fn tentative_weights_are_totally_ordered() {
    let inf = TentativeWeight::Infinite;
    let two = TentativeWeight::Number(2);
    let nine = TentativeWeight::Number(9);
    assert_eq!(two.cmp(&nine), Ordering::Less);
    assert_eq!(nine.cmp(&two), Ordering::Greater);
    assert_eq!(two.cmp(&two), Ordering::Equal);
    assert_eq!(two.cmp(&inf), Ordering::Less);
    assert_eq!(inf.cmp(&two), Ordering::Greater);
    assert_eq!(inf.cmp(&inf), Ordering::Equal);
    assert_eq!(TentativeWeight::Number(u32::MAX).cmp(&inf), Ordering::Less);
    assert_eq!(two.partial_cmp(&inf), Some(Ordering::Less));
    assert!(two < nine);
    assert!(nine < inf);
    assert!(!(inf < inf));
    assert!(two.is_less(&nine));
    assert!(!nine.is_less(&nine));
    assert!(!inf.is_less(&nine));
    assert_eq!(inf, TentativeWeight::Infinite);
    assert_ne!(inf, TentativeWeight::Number(0));
}

#[test]
fn min_index_finds_the_first_least() {
    let inf = TentativeWeight::Infinite;
    let weights = vec![inf, TentativeWeight::Number(4), TentativeWeight::Number(1), TentativeWeight::Number(1)];
    assert_eq!(min_index(&weights, &vec![0, 1, 2, 3]), 2);
    assert_eq!(min_index(&weights, &vec![3, 2, 1, 0]), 0);
    assert_eq!(min_index(&weights, &vec![0, 1]), 1);
    assert_eq!(min_index(&weights, &vec![0]), 0);
    assert_eq!(min_index(&vec![inf, inf, inf], &vec![2, 0, 1]), 0);
}
