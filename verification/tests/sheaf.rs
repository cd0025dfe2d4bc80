use persistent_sheaf::{CellularSheaf, SimplicialComplex};

#[test]
fn sheaf_test_constant_sheaf() {
    let mut c = SimplicialComplex::new();
    c.add_edge(0, 1);
    c.add_edge(1, 2);
    let sheaf = CellularSheaf::constant(c, 2, 1.0, 0.0);
    assert_eq!(sheaf.stalk_dimension, 2);
}

#[test]
fn test_weighted_sheaf() {
    let mut c = SimplicialComplex::new();
    c.add_edge(0, 1);
    c.add_edge(1, 2);
    let sheaf = CellularSheaf::from_weights(c, &[1.0, 0.5], 1.0);
    assert_eq!(sheaf.stalk_dimension, 1);
}

#[test]
fn test_global_section_dimension() {
    let mut c = SimplicialComplex::new();
    c.add_edge(0, 1);
    let sheaf = CellularSheaf::constant(c, 3, 1.0, 0.0);
    assert_eq!(sheaf.global_section_dimension(), 3);
}

#[test]
fn test_cohomology() {
    let mut c = SimplicialComplex::new();
    c.add_edge(0, 1);
    let sheaf = CellularSheaf::constant(c, 1, 1.0, 0.0);
    let h0 = sheaf.cohomology_dimension(0);
    assert!(h0 >= 0);
}

#[test]
fn constant_sheaf_maps_are_identities() {
    let mut c = SimplicialComplex::new();
    c.add_edge(0, 1);
    c.add_edge(1, 2);
    let sheaf = CellularSheaf::constant(c, 2, 1.0, 0.0);
    let id = vec![vec![1.0, 0.0], vec![0.0, 1.0]];
    for (to_a, to_b) in &sheaf.restriction_maps {
        assert_eq!(*to_a, id);
        assert_eq!(*to_b, id);
    }
}

#[test]
fn weighted_sheaf_uses_default_past_the_weights() {
    let mut c = SimplicialComplex::new();
    c.add_edge(0, 1);
    c.add_edge(1, 2);
    c.add_edge(0, 2);
    let sheaf = CellularSheaf::from_weights(c, &[0.25], 1.0);
    assert_eq!(sheaf.restriction_maps.len(), 3);
    assert_eq!(sheaf.restriction_maps[0].0, vec![vec![0.25]]);
    assert_eq!(sheaf.restriction_maps[0].1, vec![vec![0.25]]);
    assert_eq!(sheaf.restriction_maps[1].0, vec![vec![1.0]]);
    assert_eq!(sheaf.restriction_maps[2].1, vec![vec![1.0]]);
}

#[test]
fn cohomology_dimensions() {
    let mut c = SimplicialComplex::new();
    c.add_edge(0, 1);
    c.add_edge(1, 2);
    c.add_edge(0, 2);
    c.add_edge(2, 3);
    c.add_edge(1, 3);
    // V = 4, E = 5, one component, stalk 2: H¹ = 10 - (4 - 1)·2 = 4.
    let sheaf = CellularSheaf::constant(c, 2, 1.0, 0.0);
    assert_eq!(sheaf.cohomology_dimension(0), 2);
    assert_eq!(sheaf.cohomology_dimension(1), 4);
    assert_eq!(sheaf.cohomology_dimension(2), 0);

    let mut path = SimplicialComplex::new();
    path.add_edge(0, 1);
    let sheaf = CellularSheaf::constant(path, 3, 1.0, 0.0);
    // A tree: H¹ = 3 - (2 - 1)·3 = 0.
    assert_eq!(sheaf.cohomology_dimension(1), 0);
}

#[test]
fn global_sections_of_empty_complex() {
    let sheaf = CellularSheaf::constant(SimplicialComplex::new(), 4, 1.0, 0.0);
    assert_eq!(sheaf.global_section_dimension(), 0);
    let mut c = SimplicialComplex::new();
    c.add_vertex(0);
    let sheaf = CellularSheaf::constant(c, 0, 1.0, 0.0);
    assert_eq!(sheaf.global_section_dimension(), 0);
}

#[test]
fn constant_sheaf_on_three_agents() {
    let mut complex = SimplicialComplex::new();
    complex.add_edge(0, 1);
    complex.add_edge(1, 2);
    let sheaf = CellularSheaf::constant(complex, 2, 1.0, 0.0);
    assert_eq!(sheaf.global_section_dimension(), 2);
    assert_eq!(sheaf.cohomology_dimension(0), 2);
    assert_eq!(sheaf.cohomology_dimension(1), 0);
}

#[test]
fn global_sections_count_components() {
    let mut c = SimplicialComplex::new();
    c.add_edge(0, 1);
    c.add_edge(2, 3);
    let sheaf = CellularSheaf::constant(c, 1, 1.0, 0.0);
    assert_eq!(sheaf.global_section_dimension(), 2);
    assert_eq!(sheaf.cohomology_dimension(1), 0);
}

#[test]
fn cycle_has_one_obstruction() {
    let mut c = SimplicialComplex::new();
    c.add_edge(0, 1);
    c.add_edge(1, 2);
    c.add_edge(0, 2);
    let sheaf = CellularSheaf::constant(c, 1, 1.0, 0.0);
    let h0 = sheaf.cohomology_dimension(0) as i64;
    let h1 = sheaf.cohomology_dimension(1) as i64;
    assert_eq!((h0, h1), (1, 1));
    // H⁰ − H¹ = (V − E)·d.
    assert_eq!(h0 - h1, (3 - 3) * 1);
}
