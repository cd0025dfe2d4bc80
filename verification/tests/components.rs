use persistent_sheaf::components::count_components;

#[test]
fn count_components_of_disjoint_pieces() {
    assert_eq!(count_components(0, &vec![]), 0);
    assert_eq!(count_components(4, &vec![]), 4);
    assert_eq!(count_components(4, &vec![(0, 1), (2, 3)]), 2);
    assert_eq!(count_components(4, &vec![(0, 1), (2, 3), (3, 1)]), 1);
}

#[test]
fn count_components_ignores_out_of_range_edges_and_loops() {
    assert_eq!(count_components(3, &vec![(0, 5), (1, 1), (7, 2)]), 3);
    assert_eq!(count_components(3, &vec![(0, 2), (0, 2), (2, 0)]), 2);
}

#[test]
fn count_components_long_chain() {
    let edges: Vec<(usize, usize)> = (0..99).rev().map(|i| (i + 1, i)).collect();
    assert_eq!(count_components(100, &edges), 1);
    assert_eq!(count_components(101, &edges), 2);
}
