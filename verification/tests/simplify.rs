use grid_colliders::error::DegenerateGeometry;
use grid_colliders::point::Point;
use grid_colliders::polygon::signed_area2;
use grid_colliders::simplify::{collinear, minimal_vertices};

fn p(x: i32, y: i32) -> Point {
    Point::new(x, y)
}

fn pts(raw: &[(i32, i32)]) -> Vec<Point> {
    raw.iter().map(|&(x, y)| Point::new(x, y)).collect()
}

#[test]
fn equal_steps_are_collinear() {
    assert!(collinear(p(0, 0), p(2, 0), p(4, 0)));
    assert!(collinear(p(3, 3), p(2, 4), p(1, 5)));
    assert!(collinear(p(1, 1), p(1, 1), p(1, 1)));
}

#[test]
fn steps_of_different_length_on_one_line_are_not_collinear() {
    assert!(!collinear(p(0, 0), p(2, 0), p(6, 0)));
    assert!(!collinear(p(0, 0), p(2, 0), p(0, 0)));
}

#[test]
fn steps_in_different_directions_are_not_collinear() {
    assert!(!collinear(p(0, 0), p(2, 0), p(2, 2)));
    assert!(!collinear(p(0, 0), p(1, 1), p(2, 1)));
}

#[test]
fn collinear_on_the_widest_coordinates() {
    let lo = i32::MIN;
    let hi = i32::MAX;
    assert!(!collinear(p(lo, 0), p(hi, 0), p(lo, 0)));
    assert!(!collinear(p(hi, hi), p(lo, lo), p(hi - 1, hi - 1)));
    assert!(collinear(p(lo, lo), p(-1, -1), p(hi - 1, hi - 1)));
}

#[test]
fn the_middle_of_a_straight_run_is_removed() {
    let row = pts(&[(9, 10), (10, 9), (12, 9), (14, 9), (15, 10), (14, 11), (12, 11), (10, 11)]);
    assert_eq!(
        minimal_vertices(&row),
        Ok(pts(&[(9, 10), (10, 9), (14, 9), (15, 10), (14, 11), (10, 11)]))
    );
}

#[test]
fn a_loop_without_a_straight_run_stays() {
    let diamond = pts(&[(9, 10), (10, 9), (11, 10), (10, 11)]);
    assert_eq!(minimal_vertices(&diamond), Ok(diamond.clone()));
}

#[test]
fn a_run_across_the_end_of_the_sequence_is_removed() {
    // The first and the last vertex lie in the middle of the bottom side.
    let m = pts(&[(2, 0), (4, 0), (6, 0), (6, 4), (-2, 4), (-2, 0), (0, 0)]);
    assert_eq!(minimal_vertices(&m), Ok(pts(&[(6, 0), (6, 4), (-2, 4), (-2, 0)])));
}

#[test]
fn all_redundant_vertices_are_found_before_any_is_removed() {
    let l = pts(&[(0, 0), (2, 0), (4, 0), (6, 0), (8, 0), (8, 4), (0, 4)]);
    assert_eq!(minimal_vertices(&l), Ok(pts(&[(0, 0), (8, 0), (8, 4), (0, 4)])));
}

#[test]
fn fewer_than_three_vertices_are_degenerate() {
    assert_eq!(minimal_vertices(&pts(&[])), Err(DegenerateGeometry::TooFewVertices { count: 0 }));
    assert_eq!(
        minimal_vertices(&pts(&[(1, 1)])),
        Err(DegenerateGeometry::TooFewVertices { count: 0 })
    );
    assert_eq!(
        minimal_vertices(&pts(&[(0, 0), (2, 0)])),
        Err(DegenerateGeometry::TooFewVertices { count: 2 })
    );
    assert_eq!(
        minimal_vertices(&pts(&[(0, 0), (0, 0)])),
        Err(DegenerateGeometry::TooFewVertices { count: 0 })
    );
}

#[test]
fn a_loop_that_folds_back_on_itself_is_degenerate() {
    let l = pts(&[(0, 0), (2, 0), (4, 0), (2, 0)]);
    assert_eq!(minimal_vertices(&l), Err(DegenerateGeometry::TooFewVertices { count: 2 }));
}

#[test]
fn a_point_repeated_is_degenerate() {
    let l = pts(&[(5, 5), (5, 5), (5, 5), (5, 5)]);
    assert_eq!(minimal_vertices(&l), Err(DegenerateGeometry::TooFewVertices { count: 0 }));
}

#[test]
fn simplification_keeps_the_area() {
    let loops = [
        pts(&[(9, 10), (10, 9), (12, 9), (14, 9), (15, 10), (14, 11), (12, 11), (10, 11)]),
        pts(&[(9, 10), (10, 9), (12, 9), (13, 10), (12, 11), (11, 12), (10, 13), (9, 12)]),
        pts(&[(0, 0), (1, 0), (2, 0), (4, 0), (4, 4), (0, 4)]),
        pts(&[(2, 0), (4, 0), (6, 0), (6, 4), (-2, 4), (-2, 0), (0, 0)]),
    ];
    let areas: [i128; 4] = [20, 20, 32, 64];
    for (l, a) in loops.iter().zip(areas) {
        let m = minimal_vertices(l).unwrap();
        assert_eq!(signed_area2(l), a);
        assert_eq!(signed_area2(&m), a);
    }
}

#[test]
fn simplifying_a_grid_contour_twice_changes_nothing_more() {
    let loops = [
        pts(&[(9, 10), (10, 9), (12, 9), (14, 9), (15, 10), (14, 11), (12, 11), (10, 11)]),
        pts(&[(9, 10), (10, 9), (12, 9), (13, 10), (12, 11), (11, 12), (10, 13), (9, 12)]),
        pts(&[(9, 10), (10, 9), (11, 10), (12, 11), (13, 12), (12, 13), (11, 12), (10, 11)]),
    ];
    for l in loops.iter() {
        let once = minimal_vertices(l).unwrap();
        let twice = minimal_vertices(&once).unwrap();
        assert_eq!(once, twice);
    }
}

#[test]
fn steps_of_unequal_length_on_one_line_need_a_second_pass() {
    // (1,0), (1,0), (2,0): only the first pair of steps is equal, and once
    // they are joined the joined step equals the third.
    let l = pts(&[(0, 0), (1, 0), (2, 0), (4, 0), (4, 4), (0, 4)]);
    let once = minimal_vertices(&l).unwrap();
    assert_eq!(once, pts(&[(0, 0), (2, 0), (4, 0), (4, 4), (0, 4)]));
    let twice = minimal_vertices(&once).unwrap();
    assert_eq!(twice, pts(&[(0, 0), (4, 0), (4, 4), (0, 4)]));
}
