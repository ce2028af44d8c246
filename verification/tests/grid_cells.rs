use alpha_fix::neighbors;

#[test]
fn neighbours_of_an_inner_cell_run_clockwise_from_the_right() {
    assert_eq!(
        neighbors(5, 5, 10, 10),
        vec![(6, 5), (6, 4), (5, 4), (4, 4), (4, 5), (4, 6), (5, 6), (6, 6)]
    );
}

#[test]
fn neighbours_of_the_top_left_corner() {
    assert_eq!(neighbors(0, 0, 3, 3), vec![(1, 0), (0, 1), (1, 1)]);
}

#[test]
fn neighbours_of_the_bottom_right_corner() {
    assert_eq!(neighbors(2, 2, 3, 3), vec![(2, 1), (1, 1), (1, 2)]);
}

#[test]
fn neighbours_include_row_zero_and_column_zero() {
    assert_eq!(
        neighbors(1, 1, 3, 3),
        vec![(2, 1), (2, 0), (1, 0), (0, 0), (0, 1), (0, 2), (1, 2), (2, 2)]
    );
}

#[test]
fn neighbours_exclude_width_and_height() {
    assert_eq!(neighbors(1, 0, 2, 1), vec![(0, 0)]);
    assert_eq!(neighbors(0, 1, 1, 2), vec![(0, 0)]);
}

#[test]
fn neighbours_in_a_single_row() {
    assert_eq!(neighbors(1, 0, 3, 1), vec![(2, 0), (0, 0)]);
}

#[test]
fn neighbours_in_a_single_column() {
    assert_eq!(neighbors(0, 1, 1, 3), vec![(0, 0), (0, 2)]);
}

#[test]
fn single_cell_has_no_neighbours() {
    assert_eq!(neighbors(0, 0, 1, 1), vec![]);
    assert_eq!(neighbors(0, 0, 0, 0), vec![]);
}

#[test]
fn neighbours_at_the_largest_coordinates() {
    let m = u32::MAX;
    assert_eq!(neighbors(m - 1, m - 1, m, m), vec![(m - 1, m - 2), (m - 2, m - 2), (m - 2, m - 1)]);
    assert_eq!(neighbors(m, m, m, m), vec![(m - 1, m - 1)]);
}

#[test]
fn neighbours_of_a_cell_outside_the_grid() {
    assert_eq!(neighbors(3, 0, 3, 3), vec![(2, 0), (2, 1)]);
    assert_eq!(neighbors(7, 7, 3, 3), vec![]);
}
