use persistent_sheaf::SheafLaplacian;

#[test]
fn test_graph_laplacian() {
    let edges = vec![(0, 1), (1, 2)];
    let l = SheafLaplacian::graph_laplacian(3, &edges);
    assert_eq!(l.dimension, 3);
    // Diagonal: degree of each vertex
    assert_eq!(l.matrix[0][0], 1);
    assert_eq!(l.matrix[1][1], 2);
    assert_eq!(l.matrix[2][2], 1);
}

#[test]
fn path_graph_laplacian() {
    let edges = vec![(0, 1), (1, 2), (2, 3), (3, 4)];
    let l = SheafLaplacian::graph_laplacian(5, &edges);
    assert_eq!(
        l.matrix,
        vec![
            vec![1, -1, 0, 0, 0],
            vec![-1, 2, -1, 0, 0],
            vec![0, -1, 2, -1, 0],
            vec![0, 0, -1, 2, -1],
            vec![0, 0, 0, -1, 1],
        ]
    );
}

#[test]
fn graph_laplacian_rows_sum_to_zero_and_symmetric() {
    let edges = vec![(0, 1), (1, 2), (0, 2), (2, 3), (3, 3), (1, 0)];
    let l = SheafLaplacian::graph_laplacian(5, &edges);
    for i in 0..5 {
        assert_eq!(l.matrix[i].iter().sum::<i64>(), 0);
        for j in 0..5 {
            assert_eq!(l.matrix[i][j], l.matrix[j][i]);
        }
    }
    // A loop adds nothing; a repeated edge counts twice.
    assert_eq!(l.matrix[3][3], 1);
    assert_eq!(l.matrix[0][1], -2);
    assert_eq!(l.matrix[4][4], 0);
}

#[test]
fn graph_laplacian_quadratic_form_is_dirichlet_energy() {
    let edges = vec![(0, 1), (1, 2), (0, 2), (2, 3)];
    let l = SheafLaplacian::graph_laplacian(4, &edges);
    let x: Vec<i64> = vec![3, -1, 4, 1];
    let mut q = 0i64;
    for i in 0..4 {
        for j in 0..4 {
            q += x[i] * l.matrix[i][j] * x[j];
        }
    }
    let energy: i64 = edges.iter().map(|&(a, b)| (x[a] - x[b]) * (x[a] - x[b])).sum();
    assert_eq!(q, energy);
    assert_eq!(q, 16 + 25 + 1 + 9);
}

#[test]
fn graph_laplacian_of_no_vertices() {
    let l = SheafLaplacian::graph_laplacian(0, &[]);
    assert_eq!(l.dimension, 0);
    assert!(l.matrix.is_empty());
}
