use persistent_sheaf::{CellularSheaf, PersistenceDiagram, SimplicialComplex};

#[test]
fn test_simplicial_complex_empty() {
    let sc = SimplicialComplex::new();
    assert_eq!(sc.num_simplices(0), 0);
    assert_eq!(sc.euler_characteristic(), 0);
}

#[test]
fn test_simplicial_complex_triangle() {
    let mut sc = SimplicialComplex::new();
    sc.add_triangle(0, 1, 2);
    assert_eq!(sc.num_simplices(0), 3); // 3 vertices
    assert_eq!(sc.num_simplices(1), 3); // 3 edges
    assert_eq!(sc.num_simplices(2), 1); // 1 triangle
    assert_eq!(sc.euler_characteristic(), 1); // V-E+F = 3-3+1
}

#[test]
fn test_simplicial_complex_two_triangles() {
    let mut sc = SimplicialComplex::new();
    sc.add_triangle(0, 1, 2);
    sc.add_triangle(1, 2, 3);
    assert_eq!(sc.num_simplices(0), 4);
    assert_eq!(sc.num_simplices(1), 5);
    assert_eq!(sc.num_simplices(2), 2);
    assert_eq!(sc.euler_characteristic(), 1); // 4-5+2
}

#[test]
fn test_simplicial_complex_dedup() {
    let mut sc = SimplicialComplex::new();
    sc.add_vertex(0);
    sc.add_vertex(0); // duplicate
    assert_eq!(sc.num_simplices(0), 1);
    sc.add_edge(0, 1);
    sc.add_edge(1, 0); // same edge reversed
    assert_eq!(sc.num_simplices(1), 1);
}

#[test]
fn test_persistence_diagram_basic() {
    let mut pd = PersistenceDiagram::new();
    assert!(pd.is_empty());
    pd.add(0.0, 1.0, 0);
    pd.add(0.5, 2.0, 1);
    assert_eq!(pd.len(), 2);

    let dim0 = pd.filter_dimension(0);
    assert_eq!(dim0.len(), 1);
    assert!(((dim0[0].death - dim0[0].birth) - 1.0f64).abs() < 1e-10);
}

#[test]
fn integration_test_constant_sheaf() {
    let mut sc = SimplicialComplex::new();
    sc.add_edge(0, 1);
    sc.add_edge(1, 2);
    let sheaf = CellularSheaf::constant(sc, 2, 1.0, 0.0);
    assert_eq!(sheaf.stalk_dimension, 2);
    assert_eq!(sheaf.restriction_maps.len(), 2);
}

#[test]
fn test_sheaf_from_weights() {
    let mut sc = SimplicialComplex::new();
    sc.add_edge(0, 1);
    let sheaf = CellularSheaf::from_weights(sc, &[0.5], 1.0);
    assert_eq!(sheaf.stalk_dimension, 1);
}

#[test]
fn integration_test_betti_numbers_point() {
    let mut sc = SimplicialComplex::new();
    sc.add_vertex(0);
    let betti = sc.betti_numbers();
    assert_eq!(betti[0], 1); // one connected component
}
