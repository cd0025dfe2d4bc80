use persistent_sheaf::gf2::{first_true, gf2_rank_of};

#[test]
fn rank_over_two_element_field() {
    let t = true;
    let f = false;
    // The three edges of a triangle's boundary and a repeated row.
    let rows = vec![vec![t, t, f], vec![f, t, t], vec![t, f, t], vec![t, t, f]];
    // Row 2 = row 0 + row 1 over Z/2; row 3 repeats row 0.
    assert_eq!(gf2_rank_of(&rows, 3), 2);
    assert_eq!(gf2_rank_of(&vec![vec![f, f], vec![f, f]], 2), 0);
    assert_eq!(gf2_rank_of(&vec![], 4), 0);
    let id = vec![vec![t, f, f], vec![f, t, f], vec![f, f, t]];
    assert_eq!(gf2_rank_of(&id, 3), 3);
}

#[test]
fn first_true_position() {
    assert_eq!(first_true(&vec![false, false, true, true]), 2);
    assert_eq!(first_true(&vec![false, false]), 2);
}
