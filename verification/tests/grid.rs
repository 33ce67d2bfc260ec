use grid_colliders::classifier::Segment;
use grid_colliders::contour::contour_segments;
use grid_colliders::grid::{Grid, MAX_EXTENT};
use grid_colliders::point::Point;

fn seg(ax: i32, ay: i32, bx: i32, by: i32) -> Segment {
    Segment::new(Point::new(ax, ay), Point::new(bx, by))
}

#[test]
fn the_default_grid_is_empty_and_32_by_32() {
    let grid = Grid::default();
    assert_eq!(grid.width(), 32);
    assert_eq!(grid.height(), 32);
    assert!(!grid.is_solid(0, 0));
    assert!(contour_segments(&grid).is_empty());
}

#[test]
fn a_new_grid_has_the_extent_asked_for() {
    let grid = Grid::new(3, 5).unwrap();
    assert_eq!(grid.width(), 3);
    assert_eq!(grid.height(), 5);
}

#[test]
fn an_extent_over_the_limit_is_refused() {
    assert!(Grid::new(MAX_EXTENT, MAX_EXTENT).is_some());
    assert!(Grid::new(MAX_EXTENT + 1, 1).is_none());
    assert!(Grid::new(1, MAX_EXTENT + 1).is_none());
}

#[test]
fn cells_inside_the_extent_are_accepted() {
    let mut grid = Grid::new(4, 3).unwrap();
    assert!(grid.add_cell(0, 0));
    assert!(grid.add_cell(3, 2));
    assert!(grid.is_solid(0, 0));
    assert!(grid.is_solid(3, 2));
    assert!(!grid.is_solid(2, 3));
    assert!(!grid.is_solid(1, 1));
}

#[test]
fn cells_outside_the_extent_are_refused() {
    let mut grid = Grid::new(4, 3).unwrap();
    assert!(!grid.add_cell(4, 0));
    assert!(!grid.add_cell(0, 3));
    assert!(!grid.add_cell(-1, 0));
    assert!(!grid.add_cell(0, -1));
    assert!(!grid.is_solid(4, 0));
    assert!(!grid.is_solid(-1, 0));
    assert!(contour_segments(&grid).is_empty());
}

#[test]
fn adding_a_cell_twice_changes_nothing_more() {
    let mut once = Grid::default();
    once.add_cell(5, 5);
    let mut twice = Grid::default();
    twice.add_cell(5, 5);
    twice.add_cell(5, 5);
    assert_eq!(contour_segments(&once), contour_segments(&twice));
}

#[test]
fn the_occupancy_table_is_indexed_by_column_then_row() {
    let mut grid = Grid::new(3, 2).unwrap();
    grid.add_cell(2, 0);
    grid.add_cell(0, 1);
    let table = grid.occupancy();
    assert_eq!(table, vec![vec![false, true], vec![false, false], vec![true, false]]);
}

#[test]
fn the_occupancy_table_of_an_empty_extent() {
    let grid = Grid::new(0, 0).unwrap();
    assert!(grid.occupancy().is_empty());
    assert!(contour_segments(&grid).is_empty());
    let narrow = Grid::new(2, 0).unwrap();
    assert_eq!(narrow.occupancy(), vec![Vec::<bool>::new(), Vec::<bool>::new()]);
}

#[test]
fn one_cell_has_four_segments_in_visiting_order() {
    let mut grid = Grid::default();
    grid.add_cell(5, 5);
    assert_eq!(
        contour_segments(&grid),
        vec![seg(10, 9, 9, 10), seg(9, 10, 10, 11), seg(11, 10, 10, 9), seg(10, 11, 11, 10)]
    );
}

#[test]
fn the_order_of_the_cells_does_not_change_the_bag() {
    let mut a = Grid::default();
    a.add_cell(5, 5);
    a.add_cell(6, 5);
    let mut b = Grid::default();
    b.add_cell(6, 5);
    b.add_cell(5, 5);
    assert_eq!(contour_segments(&a), contour_segments(&b));
    assert_eq!(
        contour_segments(&a),
        vec![
            seg(10, 9, 9, 10),
            seg(9, 10, 10, 11),
            seg(12, 9, 10, 9),
            seg(10, 11, 12, 11),
            seg(13, 10, 12, 9),
            seg(12, 11, 13, 10)
        ]
    );
}

#[test]
fn a_cell_in_the_corner_of_the_grid_has_one_segment() {
    let mut grid = Grid::default();
    grid.add_cell(0, 0);
    assert_eq!(contour_segments(&grid), vec![seg(0, 1, 1, 0)]);
}

#[test]
fn two_cells_on_a_diagonal_meet_in_a_saddle() {
    let mut grid = Grid::default();
    grid.add_cell(5, 5);
    grid.add_cell(6, 6);
    let bag = contour_segments(&grid);
    assert_eq!(bag.len(), 8);
    assert!(bag.contains(&seg(10, 11, 11, 12)));
    assert!(bag.contains(&seg(12, 11, 11, 10)));
}

#[test]
fn a_grid_of_one_row_has_no_neighbourhood() {
    let mut grid = Grid::new(5, 1).unwrap();
    grid.add_cell(2, 0);
    assert!(contour_segments(&grid).is_empty());
}
