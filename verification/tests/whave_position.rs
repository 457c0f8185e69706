use mosh_whave::whave::grid::Grid;
use mosh_whave::whave::position::Position;

#[test]
fn test_index() {
    let extent = Position::new(3, 5, 5);
    assert_eq!(Position::new(1, 0, 0).index(&extent), 1);
    assert_eq!(Position::new(0, 1, 0).index(&extent), 3);
    assert_eq!(Position::new(0, 0, 1).index(&extent), 15);
    assert_eq!(Position::new(1, 1, 0).index(&extent), 4);
    assert_eq!(Position::new(1, 0, 1).index(&extent), 16);
    assert_eq!(Position::new(0, 1, 1).index(&extent), 18);
    assert_eq!(Position::new(1, 1, 1).index(&extent), 19);
    assert_eq!(Position::new(2, 4, 4).index(&extent), extent.grid_count() - 1);
}

#[test]
fn index_and_from_index_round_trip() {
    let extent = Position::new(3, 5, 5);
    for i in 0..extent.grid_count() {
        let p = Position::from_index(i, &extent);
        assert!(p.valid(&extent));
        assert_eq!(p.index(&extent), i);
    }
    let p = Position::from_index(19, &extent);
    assert_eq!((p.x(), p.y(), p.z()), (1, 1, 1));
}

#[test]
fn grid_count_multiplies_the_sides() {
    assert_eq!(Position::new(3, 5, 5).grid_count(), 75);
    assert_eq!(Position::new(3, 0, 5).grid_count(), 0);
}

#[test]
fn valid_checks_each_side() {
    let extent = Position::new(3, 3, 1);
    assert!(Position::new(2, 2, 0).valid(&extent));
    assert!(!Position::new(3, 0, 0).valid(&extent));
    assert!(!Position::new(0, 0, 1).valid(&extent));
}

#[test]
fn transform_steps_inside_and_rejects_outside() {
    let extent = Position::new(3, 3, 3);
    let p = Position::new(1, 1, 1);
    let q = p.transform(1, -1, 0, &extent).unwrap();
    assert_eq!((q.x(), q.y(), q.z()), (2, 0, 1));
    assert!(p.transform(2, 0, 0, &extent).is_none());
    // a step below zero wraps around and lands outside
    assert!(Position::new(0, 0, 0).transform(-1, 0, 0, &extent).is_none());
}

#[test]
fn neighbors_of_a_corner_and_a_center() {
    let extent = Position::new(3, 3, 3);
    assert_eq!(Position::new(0, 0, 0).neighbors(&extent).len(), 7);
    assert_eq!(Position::new(1, 1, 1).neighbors(&extent).len(), 26);
    assert_eq!(Position::new(0, 0, 0).direct_neighbors(&extent).len(), 3);
    assert_eq!(Position::new(1, 1, 1).direct_neighbors(&extent).len(), 6);
}

#[test]
fn neighbors_are_adjacent_and_in_offset_order() {
    let extent = Position::new(3, 3, 1);
    let ns = Position::new(0, 0, 0).neighbors(&extent);
    let coords: Vec<(u32, u32, u32)> = ns.iter().map(|p| (p.x(), p.y(), p.z())).collect();
    assert_eq!(coords, vec![(0, 1, 0), (1, 0, 0), (1, 1, 0)]);
    let direct = Position::new(1, 1, 0).direct_neighbors(&extent);
    let coords: Vec<(u32, u32, u32)> = direct.iter().map(|p| (p.x(), p.y(), p.z())).collect();
    assert_eq!(coords, vec![(0, 1, 0), (1, 0, 0), (1, 2, 0), (2, 1, 0)]);
}

#[test]
fn grid_get_and_set() {
    let size = Position::new(2, 2, 1);
    let mut grid = Grid::new(vec![0u32, 1, 2, 3], size);
    assert_eq!(grid.get(Position::new(1, 1, 0)), Some(&3));
    assert_eq!(grid.get(Position::new(2, 0, 0)), None);
    grid.set(Position::new(0, 1, 0), 9);
    assert_eq!(grid.get(Position::new(0, 1, 0)), Some(&9));
    assert_eq!(grid.get(Position::new(1, 0, 0)), Some(&1));
    assert_eq!(grid.get_indexed(2), Some(&9));
    assert_eq!(grid.get_indexed(4), None);
    assert_eq!(grid.iter_values(), &[0, 1, 9, 3]);
}

#[test]
fn grid_fill_entries_and_unwrap() {
    let size = Position::new(2, 1, 2);
    let filled = Grid::new_with_fill(Some(7u8), size);
    assert_eq!(filled.iter_values(), &[Some(7), Some(7), Some(7), Some(7)]);
    let entries = filled.iter_entries();
    assert_eq!(entries.len(), 4);
    assert_eq!((entries[3].0.x(), entries[3].0.y(), entries[3].0.z()), (1, 0, 1));
    let unwrapped = filled.unwrap_all();
    assert_eq!(unwrapped.iter_values(), &[7, 7, 7, 7]);
    assert_eq!(unwrapped.size().grid_count(), 4);
}

#[test]
fn grid_values_mut_writes_through() {
    let mut grid = Grid::new(vec![1u32, 2, 3], Position::new(3, 1, 1));
    grid.iter_values_mut()[1] = 5;
    assert_eq!(grid.get(Position::new(1, 0, 0)), Some(&5));
    let (values, positions) = grid.iter_entries_mut();
    values[2] = 8;
    assert_eq!(positions.len(), 3);
    assert_eq!(grid.iter_values(), &[1, 5, 8]);
}
