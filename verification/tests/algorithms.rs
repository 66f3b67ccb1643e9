use synth_ui::barycenter::{barycenter_sort, fraction_less};
use synth_ui::cycles::{back_edges, contains_edge};
use synth_ui::dag::{predecessor_lists, successor_lists};
use synth_ui::flow::forward_edges;
use synth_ui::layers::assign_layers;
use synth_ui::text::{decimal_string, is_before, same_text};
use synth_ui::topo::topo;

#[test]
fn topological_order_emits_sources_by_index() {
    let edges = vec![(3, 1), (1, 0), (2, 0)];
    assert_eq!(topo(5, &edges), [2, 3, 4, 1, 0]);
}

#[test]
fn topological_order_leaves_out_cycles() {
    let edges = vec![(0, 1), (1, 2), (2, 1)];
    assert_eq!(topo(4, &edges), [0, 3]);
}

#[test]
fn topological_order_counts_parallel_edges() {
    let edges = vec![(0, 1), (0, 1), (1, 2)];
    assert_eq!(topo(3, &edges), [0, 1, 2]);
}

#[test]
fn a_graph_without_cycles_has_no_back_edges() {
    let edges = vec![(0, 1), (0, 2), (1, 3), (2, 3)];
    assert!(back_edges(4, &edges).is_empty());
    assert_eq!(forward_edges(4, &edges), edges);
}

#[test]
fn back_edges_close_the_cycles_of_the_search() {
    let edges = vec![(0, 1), (1, 2), (2, 0), (2, 3), (3, 1), (4, 4)];
    let mut back = back_edges(5, &edges);
    back.sort();
    assert_eq!(back, [(2, 0), (3, 1), (4, 4)]);
    assert_eq!(forward_edges(5, &edges), [(0, 1), (1, 2), (2, 3)]);
}

#[test]
fn layers_are_longest_paths() {
    let edges = vec![(0, 1), (1, 2), (0, 2), (3, 2), (2, 4)];
    let order = topo(5, &edges);
    assert_eq!(assign_layers(5, &edges, &order), [0, 1, 2, 0, 3]);
}

#[test]
fn neighbors_are_listed_in_edge_order() {
    let edges = vec![(0, 2), (1, 2), (0, 1)];
    assert_eq!(successor_lists(3, &edges), [vec![2, 1], vec![2], vec![]]);
    assert_eq!(predecessor_lists(3, &edges), [vec![], vec![0], vec![0, 1]]);
    assert!(contains_edge(&edges, (1, 2)));
    assert!(!contains_edge(&edges, (2, 1)));
}

#[test]
fn columns_are_sorted_by_the_average_of_their_neighbors() {
    // Node 3 averages 2, node 4 averages 1/2, node 5 has no neighbors and stands at 1.
    let neighbors = vec![vec![], vec![], vec![], vec![2], vec![0, 1], vec![]];
    let positions = vec![0, 1, 2, 0, 2, 1];
    let mut col = vec![3, 5, 4];
    barycenter_sort(&mut col, &neighbors, &positions);
    assert_eq!(col, [4, 5, 3]);
}

#[test]
fn nodes_that_pull_alike_keep_their_order() {
    // 1/2, 2/4 and 1/2 again.
    let neighbors =
        vec![vec![], vec![], vec![0, 1], vec![0, 1, 0, 1], vec![1, 0], vec![0]];
    let positions = vec![0, 1, 0, 1, 2, 3];
    let mut col = vec![4, 2, 3, 5];
    barycenter_sort(&mut col, &neighbors, &positions);
    assert_eq!(col, [5, 4, 2, 3]);
}

#[test]
fn fractions_are_compared_exactly() {
    assert!(fraction_less(1, 3, 1, 2));
    assert!(!fraction_less(1, 2, 2, 4));
    assert!(fraction_less(u128::MAX - 1, u128::MAX, u128::MAX, u128::MAX));
    assert!(!fraction_less(u128::MAX, 1, u128::MAX, 1));
    assert!(fraction_less(u128::MAX - 1, 2, u128::MAX, 2));
}

#[test]
fn decimals_have_no_leading_zeros() {
    assert_eq!(decimal_string(0), "0");
    assert_eq!(decimal_string(1090), "1090");
    assert_eq!(decimal_string(u64::MAX), "18446744073709551615");
}

#[test]
fn strings_are_compared_as_std_does() {
    let words = ["", "a", "aa", "ab", "b", "mix", "mix_", "µ", "z", "🎵"];
    for a in words {
        for b in words {
            assert_eq!(is_before(a, b), a < b);
            assert_eq!(same_text(a, b), a == b);
        }
    }
}

#[test]
fn sorting_needs_only_what_the_column_touches() {
    // Node 5 has no position, but a neighbor that has; the lists of nodes 0 and 1 are out of range
    // and not in the column.
    let neighbors = vec![vec![77], vec![78], vec![], vec![0], vec![], vec![2, 1]];
    let positions = vec![1, 0, 0, 9, 4];
    let mut col = vec![4, 3, 5];
    barycenter_sort(&mut col, &neighbors, &positions);
    assert_eq!(col, [5, 3, 4]);
    // A single node is not looked at.
    let mut single = vec![42];
    barycenter_sort(&mut single, &neighbors, &positions);
    assert_eq!(single, [42]);
    let mut none: Vec<usize> = vec![];
    barycenter_sort(&mut none, &vec![], &vec![]);
    assert!(none.is_empty());
}

#[test]
fn sorting_again_changes_nothing() {
    let neighbors = vec![vec![], vec![], vec![], vec![2], vec![0, 1], vec![1]];
    let positions = vec![0, 1, 2, 0, 2, 1];
    let mut col = vec![3, 5, 4];
    barycenter_sort(&mut col, &neighbors, &positions);
    let once = col.clone();
    barycenter_sort(&mut col, &neighbors, &positions);
    assert_eq!(col, once);
}
