use persistent_sheaf::SimplicialComplex;

#[test]
fn test_empty_complex() {
    let c = SimplicialComplex::new();
    assert_eq!(c.num_simplices(0), 0);
}

#[test]
fn test_add_vertex() {
    let mut c = SimplicialComplex::new();
    c.add_vertex(0);
    c.add_vertex(1);
    assert_eq!(c.num_simplices(0), 2);
}

#[test]
fn test_add_edge() {
    let mut c = SimplicialComplex::new();
    c.add_edge(0, 1);
    assert_eq!(c.num_simplices(0), 2);
    assert_eq!(c.num_simplices(1), 1);
}

#[test]
fn test_add_triangle() {
    let mut c = SimplicialComplex::new();
    c.add_triangle(0, 1, 2);
    assert_eq!(c.num_simplices(0), 3);
    assert_eq!(c.num_simplices(1), 3);
    assert_eq!(c.num_simplices(2), 1);
}

#[test]
fn test_euler_characteristic() {
    let mut c = SimplicialComplex::new();
    c.add_triangle(0, 1, 2);
    // V=3, E=3, F=1 → χ = 3-3+1 = 1
    assert_eq!(c.euler_characteristic(), 1);
}

#[test]
fn simplicial_test_betti_numbers_point() {
    let mut c = SimplicialComplex::new();
    c.add_vertex(0);
    let betti = c.betti_numbers();
    assert_eq!(betti[0], 1); // one connected component
}

#[test]
fn test_betti_numbers_triangle() {
    let mut c = SimplicialComplex::new();
    c.add_edge(0, 1);
    c.add_edge(1, 2);
    c.add_edge(0, 2);
    // One component, one cycle → β_0=1, β_1=1
    let betti = c.betti_numbers();
    assert_eq!(betti[0], 1);
}

#[test]
fn test_vietoris_rips() {
    let distances = vec![
        vec![0.0, 1.0, 2.0],
        vec![1.0, 0.0, 1.0],
        vec![2.0, 1.0, 0.0],
    ];
    let epsilon = 1.5;
    let close: Vec<Vec<bool>> = distances
        .iter()
        .map(|row| row.iter().map(|d| *d <= epsilon).collect())
        .collect();
    let c = SimplicialComplex::vietoris_rips_from_proximity(&close);
    assert_eq!(c.num_simplices(0), 3);
    assert_eq!(c.num_simplices(1), 2); // edges 0-1 and 1-2
}

#[test]
fn test_boundary_of_triangle() {
    let mut c = SimplicialComplex::new();
    c.add_triangle(0, 1, 2);
    let edges = c.boundary_of_triangle((0, 1, 2));
    assert_eq!(edges.len(), 3);
}

#[test]
fn boundary_of_triangle_sorts_and_normalizes() {
    let c = SimplicialComplex::new();
    assert_eq!(c.boundary_of_triangle((5, 1, 3)), vec![(1, 3), (1, 5), (3, 5)]);
    assert_eq!(c.boundary_of_triangle((0, 1, 2)), vec![(0, 1), (0, 2), (1, 2)]);
    assert_eq!(c.boundary_of_triangle((2, 2, 0)), vec![(0, 2), (0, 2), (2, 2)]);
}

#[test]
fn boundary_of_edge_lists_both_ends() {
    let c = SimplicialComplex::new();
    assert_eq!(c.boundary_of_edge((4, 7)), vec![4, 7]);
}

#[test]
fn add_edge_normalizes_and_adds_vertices_in_order() {
    let mut c = SimplicialComplex::new();
    c.add_edge(5, 2);
    assert_eq!(c.edges, vec![(2, 5)]);
    assert_eq!(c.vertices, vec![5, 2]);
    c.add_edge(2, 5);
    assert_eq!(c.edges, vec![(2, 5)]);
    assert_eq!(c.vertices, vec![5, 2]);
}

#[test]
fn add_triangle_stores_sorted_triple_once() {
    let mut c = SimplicialComplex::new();
    c.add_triangle(3, 1, 2);
    c.add_triangle(2, 3, 1);
    assert_eq!(c.triangles, vec![(1, 2, 3)]);
    assert_eq!(c.vertices, vec![3, 1, 2]);
    assert_eq!(c.edges, vec![(1, 3), (1, 2), (2, 3)]);
}

#[test]
fn num_simplices_above_three_is_zero() {
    let mut c = SimplicialComplex::new();
    c.add_triangle(0, 1, 2);
    assert_eq!(c.num_simplices(3), 0);
    assert_eq!(c.num_simplices(4), 0);
    assert_eq!(c.num_simplices(usize::MAX), 0);
}

#[test]
fn euler_characteristic_counts_tetrahedra() {
    let mut c = SimplicialComplex::new();
    c.add_triangle(0, 1, 2);
    c.add_triangle(0, 1, 3);
    c.add_triangle(0, 2, 3);
    c.add_triangle(1, 2, 3);
    c.tetrahedra.push((0, 1, 2, 3));
    // V=4, E=6, F=4, T=1: the solid tetrahedron has χ = 1.
    assert_eq!(c.euler_characteristic(), 1);
}

#[test]
fn betti_numbers_of_empty_complex_are_empty() {
    let c = SimplicialComplex::new();
    assert!(c.betti_numbers().is_empty());
}

#[test]
fn betti_numbers_of_a_loop() {
    let mut c = SimplicialComplex::new();
    c.add_edge(0, 1);
    c.add_edge(1, 2);
    c.add_edge(0, 2);
    assert_eq!(c.betti_numbers(), vec![1, 1]);
}

#[test]
fn betti_numbers_of_a_filled_triangle() {
    let mut c = SimplicialComplex::new();
    c.add_triangle(0, 1, 2);
    // The loop is filled: β1 = E - V + β0 - rank ∂2 = 3 - 3 + 1 - 1 = 0.
    assert_eq!(c.betti_numbers(), vec![1, 0]);
    // β0 - β1 + β2 = χ with β2 = 0.
    assert_eq!(c.euler_characteristic(), 1);
}

#[test]
fn betti_numbers_count_components() {
    let mut c = SimplicialComplex::new();
    c.add_edge(0, 1);
    c.add_edge(2, 3);
    c.add_vertex(4);
    assert_eq!(c.betti_numbers(), vec![3, 0]);
    c.add_edge(1, 2);
    assert_eq!(c.betti_numbers(), vec![2, 0]);
}

#[test]
fn betti_numbers_follow_vertex_labels() {
    // Vertices 5 and 7 joined by an edge form one component and no loop.
    let mut c = SimplicialComplex::new();
    c.add_edge(5, 7);
    assert_eq!(c.betti_numbers(), vec![1, 0]);
    c.add_edge(7, 9);
    c.add_edge(5, 9);
    assert_eq!(c.betti_numbers(), vec![1, 1]);
    c.add_triangle(5, 7, 9);
    assert_eq!(c.betti_numbers(), vec![1, 0]);
    c.add_vertex(100);
    assert_eq!(c.betti_numbers(), vec![2, 0]);
}

#[test]
fn vietoris_rips_clique_complex() {
    let t = true;
    let f = false;
    let close = vec![
        vec![t, t, t, f],
        vec![t, t, t, t],
        vec![t, t, t, t],
        vec![f, t, t, t],
    ];
    let c = SimplicialComplex::vietoris_rips_from_proximity(&close);
    assert_eq!(c.vertices, vec![0, 1, 2, 3]);
    assert_eq!(c.edges, vec![(0, 1), (0, 2), (1, 2), (1, 3), (2, 3)]);
    assert_eq!(c.triangles, vec![(0, 1, 2), (1, 2, 3)]);
    assert!(c.tetrahedra.is_empty());
}

#[test]
fn vietoris_rips_grows_with_scale() {
    let distances = vec![
        vec![0.0, 0.8, 4.0, 4.2, 2.0],
        vec![0.8, 0.0, 3.5, 3.8, 1.8],
        vec![4.0, 3.5, 0.0, 0.9, 1.9],
        vec![4.2, 3.8, 0.9, 0.0, 2.1],
        vec![2.0, 1.8, 1.9, 2.1, 0.0],
    ];
    let at = |eps: f64| {
        let close: Vec<Vec<bool>> = distances
            .iter()
            .map(|row| row.iter().map(|d| *d <= eps).collect())
            .collect();
        SimplicialComplex::vietoris_rips_from_proximity(&close)
    };
    let small = at(1.0);
    let large = at(2.0);
    // At scale 1.0 the hallway sensor is still alone: three components.
    assert_eq!(small.betti_numbers()[0], 3);
    assert_eq!(large.betti_numbers()[0], 1);
    for e in &small.edges {
        assert!(large.edges.contains(e));
    }
    for t in &small.triangles {
        assert!(large.triangles.contains(t));
    }
}

#[test]
fn vietoris_rips_of_no_points() {
    let close: Vec<Vec<bool>> = vec![];
    let c = SimplicialComplex::vietoris_rips_from_proximity(&close);
    assert_eq!(c.num_simplices(0), 0);
}

#[test]
fn betti_numbers_of_readme_complex() {
    let distances = vec![
        vec![0.0, 0.8, 4.0, 4.2, 2.0],
        vec![0.8, 0.0, 3.5, 3.8, 1.8],
        vec![4.0, 3.5, 0.0, 0.9, 1.9],
        vec![4.2, 3.8, 0.9, 0.0, 2.1],
        vec![2.0, 1.8, 1.9, 2.1, 0.0],
    ];
    let close: Vec<Vec<bool>> = distances
        .iter()
        .map(|row| row.iter().map(|d| *d <= 2.0).collect())
        .collect();
    let c = SimplicialComplex::vietoris_rips_from_proximity(&close);
    assert_eq!(c.edges, vec![(0, 1), (0, 4), (1, 4), (2, 3), (2, 4)]);
    assert_eq!(c.triangles, vec![(0, 1, 4)]);
    assert_eq!(c.betti_numbers(), vec![1, 0]);
}

#[test]
fn betti_numbers_of_hollow_and_solid_shapes() {
    // A square with one diagonal and one of its two triangles: one hole left.
    let mut c = SimplicialComplex::new();
    c.add_edge(0, 1);
    c.add_edge(1, 2);
    c.add_edge(2, 3);
    c.add_edge(3, 0);
    c.add_triangle(0, 1, 2);
    assert_eq!(c.betti_numbers(), vec![1, 1]);
    c.add_triangle(0, 2, 3);
    assert_eq!(c.betti_numbers(), vec![1, 0]);
    // The hollow tetrahedron: every loop bounds, β1 = 0.
    let mut s = SimplicialComplex::new();
    s.add_triangle(0, 1, 2);
    s.add_triangle(0, 1, 3);
    s.add_triangle(0, 2, 3);
    s.add_triangle(1, 2, 3);
    assert_eq!(s.betti_numbers(), vec![1, 0]);
}

#[test]
fn connected_components_by_label() {
    let mut c = SimplicialComplex::new();
    c.add_edge(10, 20);
    c.add_edge(30, 40);
    assert_eq!(c.connected_components(), 2);
    c.add_edge(20, 30);
    assert_eq!(c.connected_components(), 1);
}
