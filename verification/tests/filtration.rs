use persistent_sheaf::{FeatureKind, Filtration, PersistenceEvent, SimplicialComplex};

#[test]
fn test_empty_filtration() {
    let f: Filtration<f64> = Filtration::new();
    assert!(f.is_empty());
}

fn bar(kind: FeatureKind, birth_step: usize, death_step: Option<usize>) -> PersistenceEvent {
    PersistenceEvent { kind, birth_step, death_step }
}

fn triangle_loop() -> SimplicialComplex {
    let mut h = SimplicialComplex::new();
    h.add_edge(0, 1);
    h.add_edge(1, 2);
    h.add_edge(0, 2);
    h
}

#[test]
fn persistence_events_of_a_growing_filtration() {
    // Three points; at step 0 nothing is joined, at step 1 points 0-1 are
    // joined, at step 2 all three form a loop, at step 3 it is filled.
    let mut f = Filtration::new();
    let mut c0 = SimplicialComplex::new();
    for v in 0..3 {
        c0.add_vertex(v);
    }
    let mut c1 = c0.clone();
    c1.add_edge(0, 1);
    let mut c2 = c1.clone();
    c2.add_edge(1, 2);
    c2.add_edge(0, 2);
    let mut c3 = c2.clone();
    c3.add_triangle(0, 1, 2);
    f.add(0.0, c0);
    f.add(1.0, c1);
    f.add(2.0, c2);
    f.add(3.0, c3);
    assert_eq!(f.len(), 4);
    assert!(!f.is_empty());
    assert_eq!(
        f.persistence_events(),
        vec![
            bar(FeatureKind::Component, 0, Some(1)),
            bar(FeatureKind::Component, 0, Some(2)),
            bar(FeatureKind::Loop, 2, Some(3)),
            bar(FeatureKind::Component, 0, None),
        ]
    );
}

#[test]
fn persistent_loop_is_one_essential_bar() {
    let mut f = Filtration::new();
    f.add(1.0, triangle_loop());
    f.add(2.0, triangle_loop());
    assert_eq!(
        f.persistence_events(),
        vec![bar(FeatureKind::Component, 0, None), bar(FeatureKind::Loop, 0, None)]
    );
}

#[test]
fn persistence_events_of_empty_filtration() {
    let f: Filtration<u32> = Filtration::new();
    assert!(f.persistence_events().is_empty());
}

#[test]
fn components_born_later_get_their_own_bars() {
    let mut f = Filtration::new();
    let mut c0 = SimplicialComplex::new();
    c0.add_vertex(0);
    let mut c1 = c0.clone();
    c1.add_vertex(1);
    f.add(1u8, c0);
    f.add(2u8, c1);
    assert_eq!(
        f.persistence_events(),
        vec![bar(FeatureKind::Component, 0, None), bar(FeatureKind::Component, 1, None)]
    );
}

#[test]
fn rips_filtration_has_no_spurious_hole() {
    let distances = vec![
        vec![0.0, 1.0, 2.0],
        vec![1.0, 0.0, 1.0],
        vec![2.0, 1.0, 0.0],
    ];
    let mut f = Filtration::new();
    for step in 0..=10usize {
        let eps = 2.0 * step as f64 / 10.0;
        let close: Vec<Vec<bool>> = distances
            .iter()
            .map(|row| row.iter().map(|d| *d <= eps).collect())
            .collect();
        f.add(eps, SimplicialComplex::vietoris_rips_from_proximity(&close));
    }
    let events = f.persistence_events();
    assert_eq!(
        events,
        vec![
            bar(FeatureKind::Component, 0, Some(5)),
            bar(FeatureKind::Component, 0, Some(5)),
            bar(FeatureKind::Component, 0, None),
        ]
    );
    assert_eq!(f.complexes[5].0, 1.0);
}
