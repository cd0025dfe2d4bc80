use persistent_sheaf::{PersistenceDiagram, PersistencePair};

#[test]
fn test_diagram_filter() {
    let mut d = PersistenceDiagram::new();
    d.add(0.0, 1.0, 0);
    d.add(0.5, 2.0, 1);
    d.add(0.3, 0.8, 0);
    assert_eq!(d.filter_dimension(0).len(), 2);
    assert_eq!(d.filter_dimension(1).len(), 1);
}

#[test]
fn filter_dimension_keeps_order_and_values() {
    let mut d = PersistenceDiagram::new();
    d.add(0.0, 1.0, 0);
    d.add(0.5, 2.0, 1);
    d.add(0.3, 0.8, 0);
    let dim0 = d.filter_dimension(0);
    assert_eq!(*dim0[0], PersistencePair::new(0.0, 1.0, 0));
    assert_eq!(*dim0[1], PersistencePair::new(0.3, 0.8, 0));
    assert!(d.filter_dimension(2).is_empty());
}

#[test]
fn add_appends_pairs() {
    let mut d: PersistenceDiagram<f64> = PersistenceDiagram::new();
    assert_eq!(d.len(), 0);
    assert!(d.is_empty());
    d.add(1.0, 5.0, 2);
    assert_eq!(d.len(), 1);
    assert!(!d.is_empty());
    assert_eq!(d.pairs[0].birth, 1.0);
    assert_eq!(d.pairs[0].death, 5.0);
    assert_eq!(d.pairs[0].dimension, 2);
}
