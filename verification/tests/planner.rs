use rover_nav::grid::{Coordinate, Grid};
use rover_nav::planner::{checked_find_path, find_path, PathError};

fn steps_between(a: Coordinate, b: Coordinate) -> usize {
    a.0.abs_diff(b.0) + a.1.abs_diff(b.1)
}

fn assert_shortest_route(grid: &Grid, route: &[Coordinate], start: Coordinate, goal: Coordinate) {
    assert!(!route.is_empty());
    assert_eq!(route[0], start);
    assert_eq!(route[route.len() - 1], goal);
    for cell in route {
        assert!(grid.contains(*cell));
    }
    for pair in route.windows(2) {
        assert_eq!(steps_between(pair[0], pair[1]), 1);
        assert_eq!(grid.distance_squared(pair[0], pair[1]), 1);
        assert_eq!(grid.distance(pair[0], pair[1]), Some(1));
    }
    assert_eq!(route.len() - 1, steps_between(start, goal));
}

#[test]
fn corner_to_corner_takes_eighteen_steps() {
    let grid = Grid::new(10);
    let route = find_path(&grid, (0, 0), (9, 9)).unwrap();
    assert_eq!(route.len(), 19);
    assert_eq!(route.len() - 1, 18);
    assert_shortest_route(&grid, &route, (0, 0), (9, 9));
}

#[test]
fn start_equal_to_goal_gives_single_cell() {
    let grid = Grid::new(10);
    assert_eq!(find_path(&grid, (0, 0), (0, 0)), Some(vec![(0, 0)]));
    assert_eq!(find_path(&grid, (7, 3), (7, 3)), Some(vec![(7, 3)]));
}

#[test]
fn two_columns_apart_goes_straight() {
    let grid = Grid::new(10);
    let route = find_path(&grid, (5, 5), (5, 7)).unwrap();
    assert_eq!(route, vec![(5, 5), (5, 6), (5, 7)]);
    assert_eq!(route.len() - 1, 2);
}

#[test]
fn two_rows_up_goes_straight_back() {
    let grid = Grid::new(10);
    let route = find_path(&grid, (6, 2), (3, 2)).unwrap();
    assert_eq!(route, vec![(6, 2), (5, 2), (4, 2), (3, 2)]);
}

#[test]
fn goal_outside_the_grid_is_refused() {
    let grid = Grid::new(10);
    assert_eq!(checked_find_path(&grid, (0, 0), (20, 20)), Err(PathError::InvalidCoordinate));
    assert_eq!(checked_find_path(&grid, (0, 0), (9, 10)), Err(PathError::InvalidCoordinate));
    assert_eq!(checked_find_path(&grid, (0, 0), (10, 9)), Err(PathError::InvalidCoordinate));
}

#[test]
fn start_outside_the_grid_is_refused() {
    let grid = Grid::new(10);
    assert_eq!(checked_find_path(&grid, (10, 0), (1, 1)), Err(PathError::InvalidCoordinate));
    assert_eq!(checked_find_path(&grid, (0, 11), (1, 1)), Err(PathError::InvalidCoordinate));
}

#[test]
fn checked_search_finds_the_same_cost() {
    let grid = Grid::new(10);
    let route = checked_find_path(&grid, (0, 0), (9, 9)).unwrap().unwrap();
    assert_eq!(route.len(), 19);
    assert_shortest_route(&grid, &route, (0, 0), (9, 9));
    let single = checked_find_path(&grid, (4, 4), (4, 4)).unwrap();
    assert_eq!(single, Some(vec![(4, 4)]));
}

#[test]
fn every_pair_on_a_small_grid_gets_a_shortest_route() {
    let grid = Grid::new(5);
    for sr in 0..5 {
        for sc in 0..5 {
            for gr in 0..5 {
                for gc in 0..5 {
                    let route = find_path(&grid, (sr, sc), (gr, gc)).unwrap();
                    assert_shortest_route(&grid, &route, (sr, sc), (gr, gc));
                }
            }
        }
    }
}

#[test]
fn repeated_searches_cost_the_same() {
    let grid = Grid::new(10);
    let first = find_path(&grid, (2, 8), (7, 1)).unwrap();
    let second = find_path(&grid, (2, 8), (7, 1)).unwrap();
    assert_eq!(first.len(), second.len());
    assert_eq!(first.len() - 1, 12);
    assert_shortest_route(&grid, &first, (2, 8), (7, 1));
    assert_shortest_route(&grid, &second, (2, 8), (7, 1));
}

#[test]
fn single_cell_grid_has_one_route() {
    let grid = Grid::new(1);
    assert_eq!(find_path(&grid, (0, 0), (0, 0)), Some(vec![(0, 0)]));
}

#[test]
fn reverse_direction_costs_the_same() {
    let grid = Grid::new(10);
    let there = find_path(&grid, (1, 2), (8, 6)).unwrap();
    let back = find_path(&grid, (8, 6), (1, 2)).unwrap();
    assert_eq!(there.len(), 12);
    assert_eq!(back.len(), 12);
    assert_shortest_route(&grid, &back, (8, 6), (1, 2));
}

#[test]
fn route_along_the_edge_of_a_large_grid() {
    let grid = Grid::new(40);
    let route = find_path(&grid, (0, 0), (0, 39)).unwrap();
    assert_eq!(route.len(), 40);
    for (i, cell) in route.iter().enumerate() {
        assert_eq!(*cell, (0, i));
    }
}

#[test]
fn neighbouring_goal_is_one_step_away() {
    let grid = Grid::new(10);
    assert_eq!(find_path(&grid, (3, 3), (2, 3)), Some(vec![(3, 3), (2, 3)]));
    assert_eq!(find_path(&grid, (3, 3), (4, 3)), Some(vec![(3, 3), (4, 3)]));
    assert_eq!(find_path(&grid, (3, 3), (3, 2)), Some(vec![(3, 3), (3, 2)]));
    assert_eq!(find_path(&grid, (3, 3), (3, 4)), Some(vec![(3, 3), (3, 4)]));
}
