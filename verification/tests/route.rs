use rover_nav::grid::Coordinate;
use rover_nav::route::{reconstruct_path, reversed};
use rover_nav::table::{filled, load, store};

#[test]
fn reversed_turns_the_order_round() {
    assert_eq!(reversed(&vec![(0, 0), (0, 1), (1, 1)]), vec![(1, 1), (0, 1), (0, 0)]);
    assert_eq!(reversed(&vec![(4, 2)]), vec![(4, 2)]);
    assert_eq!(reversed(&Vec::new()), Vec::<Coordinate>::new());
}

#[test]
fn path_of_a_cell_without_predecessor_is_the_cell() {
    let came_from: Vec<Vec<Option<Coordinate>>> = filled(3, None);
    assert_eq!(reconstruct_path(&came_from, (1, 2)), vec![(1, 2)]);
}

#[test]
fn path_follows_predecessors_and_ends_at_the_current_cell() {
    let mut came_from: Vec<Vec<Option<Coordinate>>> = filled(3, None);
    store(&mut came_from, (0, 1), Some((0, 0)));
    store(&mut came_from, (1, 1), Some((0, 1)));
    store(&mut came_from, (2, 1), Some((1, 1)));
    store(&mut came_from, (2, 2), Some((2, 1)));
    assert_eq!(reconstruct_path(&came_from, (2, 2)), vec![(0, 0), (0, 1), (1, 1), (2, 1), (2, 2)]);
    assert_eq!(reconstruct_path(&came_from, (1, 1)), vec![(0, 0), (0, 1), (1, 1)]);
}

#[test]
fn filled_table_holds_the_value_everywhere() {
    let table: Vec<Vec<Option<usize>>> = filled(4, None);
    assert_eq!(table.len(), 4);
    for row in &table {
        assert_eq!(row.len(), 4);
    }
    assert_eq!(load(&table, (3, 3)), None);
    let ones: Vec<Vec<u8>> = filled(2, 1);
    assert_eq!(ones, vec![vec![1, 1], vec![1, 1]]);
}

#[test]
fn store_changes_one_entry_only() {
    let mut table: Vec<Vec<Option<usize>>> = filled(3, None);
    store(&mut table, (1, 2), Some(5));
    for r in 0..3 {
        for c in 0..3 {
            let expected = if (r, c) == (1, 2) { Some(5) } else { None };
            assert_eq!(load(&table, (r, c)), expected);
        }
    }
}
