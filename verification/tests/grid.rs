use rover_nav::grid::Grid;

#[test]
fn new_grid_has_the_given_side_and_no_blocked_cell() {
    let grid = Grid::new(10);
    assert_eq!(grid.side(), 10);
    for r in 0..10 {
        for c in 0..10 {
            assert!(grid.contains((r, c)));
            assert!(!grid.is_blocked((r, c)));
        }
    }
}

#[test]
fn contains_tells_cells_from_other_coordinates() {
    let grid = Grid::new(10);
    assert!(grid.contains((0, 0)));
    assert!(grid.contains((9, 9)));
    assert!(!grid.contains((10, 0)));
    assert!(!grid.contains((0, 10)));
    assert!(!grid.contains((20, 20)));
}

#[test]
fn inner_cell_has_four_neighbors_in_order() {
    let grid = Grid::new(10);
    assert_eq!(grid.neighbors((5, 5)), vec![(4, 5), (6, 5), (5, 4), (5, 6)]);
}

#[test]
fn corner_cells_have_two_neighbors() {
    let grid = Grid::new(10);
    assert_eq!(grid.neighbors((0, 0)), vec![(1, 0), (0, 1)]);
    assert_eq!(grid.neighbors((9, 9)), vec![(8, 9), (9, 8)]);
    assert_eq!(grid.neighbors((0, 9)), vec![(1, 9), (0, 8)]);
    assert_eq!(grid.neighbors((9, 0)), vec![(8, 0), (9, 1)]);
}

#[test]
fn edge_cells_have_three_neighbors() {
    let grid = Grid::new(10);
    assert_eq!(grid.neighbors((0, 4)), vec![(1, 4), (0, 3), (0, 5)]);
    assert_eq!(grid.neighbors((4, 9)), vec![(3, 9), (5, 9), (4, 8)]);
}

#[test]
fn single_cell_has_no_neighbor() {
    let grid = Grid::new(1);
    assert_eq!(grid.neighbors((0, 0)), vec![]);
}

#[test]
fn heuristic_is_the_manhattan_distance() {
    let grid = Grid::new(10);
    assert_eq!(grid.heuristic((0, 0), (9, 9)), 18);
    assert_eq!(grid.heuristic((9, 9), (0, 0)), 18);
    assert_eq!(grid.heuristic((5, 5), (5, 7)), 2);
    assert_eq!(grid.heuristic((2, 7), (6, 1)), 10);
    assert_eq!(grid.heuristic((3, 3), (3, 3)), 0);
}

#[test]
fn distance_squared_adds_the_squares() {
    let grid = Grid::new(10);
    assert_eq!(grid.distance_squared((0, 0), (3, 4)), 25);
    assert_eq!(grid.distance_squared((3, 4), (0, 0)), 25);
    assert_eq!(grid.distance_squared((5, 5), (5, 6)), 1);
    assert_eq!(grid.distance_squared((0, 0), (9, 9)), 162);
    assert_eq!(grid.distance_squared((2, 2), (2, 2)), 0);
}

#[test]
fn distance_is_the_whole_root() {
    let grid = Grid::new(10);
    assert_eq!(grid.distance((0, 0), (3, 4)), Some(5));
    assert_eq!(grid.distance((3, 4), (0, 0)), Some(5));
    assert_eq!(grid.distance((5, 5), (5, 6)), Some(1));
    assert_eq!(grid.distance((5, 5), (4, 5)), Some(1));
    assert_eq!(grid.distance((0, 0), (0, 9)), Some(9));
    assert_eq!(grid.distance((9, 2), (1, 8)), Some(10));
    assert_eq!(grid.distance((2, 2), (2, 2)), Some(0));
}

#[test]
fn distance_that_is_no_whole_number_is_none() {
    let grid = Grid::new(10);
    assert_eq!(grid.distance((0, 0), (1, 1)), None);
    assert_eq!(grid.distance((0, 0), (2, 2)), None);
    assert_eq!(grid.distance((0, 0), (9, 9)), None);
    assert_eq!(grid.distance((4, 4), (5, 6)), None);
}

#[test]
fn distance_is_one_for_orthogonal_neighbors_only() {
    let grid = Grid::new(4);
    for ar in 0..4usize {
        for ac in 0..4usize {
            for br in 0..4usize {
                for bc in 0..4usize {
                    let orthogonal = ar.abs_diff(br) + ac.abs_diff(bc) == 1;
                    assert_eq!(grid.distance((ar, ac), (br, bc)) == Some(1), orthogonal);
                }
            }
        }
    }
}

#[test]
fn distance_between_neighbors_is_one() {
    let grid = Grid::new(6);
    for r in 0..6 {
        for c in 0..6 {
            for cell in grid.neighbors((r, c)) {
                assert_eq!(grid.distance((r, c), cell), Some(1));
                assert_eq!(grid.heuristic((r, c), cell), 1);
            }
        }
    }
}
