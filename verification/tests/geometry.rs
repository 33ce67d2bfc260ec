use grid_colliders::point::{area, at, left, left_on, right, right_on, wrap, Point};
use grid_colliders::polygon::signed_area2;

fn p(x: i32, y: i32) -> Point {
    Point::new(x, y)
}

fn pts(raw: &[(i32, i32)]) -> Vec<Point> {
    raw.iter().map(|&(x, y)| Point::new(x, y)).collect()
}

#[test]
fn point_new_keeps_its_coordinates() {
    let q = p(-3, 7);
    assert_eq!(q.x, -3);
    assert_eq!(q.y, 7);
    assert_eq!(q, Point { x: -3, y: 7 });
}

#[test]
fn wrap_of_a_position_inside_is_the_position() {
    assert_eq!(wrap(0, 4), 0);
    assert_eq!(wrap(3, 4), 3);
}

#[test]
fn wrap_goes_round_forward() {
    assert_eq!(wrap(4, 4), 0);
    assert_eq!(wrap(9, 4), 1);
    assert_eq!(wrap(i32::MAX, 2), 1);
}

#[test]
fn wrap_goes_round_backward() {
    assert_eq!(wrap(-1, 4), 3);
    assert_eq!(wrap(-3, 4), 1);
    assert_eq!(wrap(-5, 4), 3);
    assert_eq!(wrap(i32::MIN, 3), 1);
}

#[test]
fn wrap_of_a_negative_multiple_is_zero() {
    assert_eq!(wrap(-4, 4), 0);
    assert_eq!(wrap(-8, 4), 0);
    assert_eq!(wrap(i32::MIN, 2), 0);
}

#[test]
fn at_indexes_circularly() {
    let square = pts(&[(0, 0), (2, 0), (2, 2), (0, 2)]);
    assert_eq!(at(&square, 0), p(0, 0));
    assert_eq!(at(&square, 3), p(0, 2));
    assert_eq!(at(&square, 4), p(0, 0));
    assert_eq!(at(&square, 6), p(2, 2));
    assert_eq!(at(&square, -1), p(0, 2));
    assert_eq!(at(&square, -4), p(0, 0));
    assert_eq!(at(&square, -5), p(0, 2));
}

#[test]
fn at_on_a_single_vertex() {
    let one = pts(&[(7, 8)]);
    assert_eq!(at(&one, 0), p(7, 8));
    assert_eq!(at(&one, 5), p(7, 8));
    assert_eq!(at(&one, -5), p(7, 8));
}

#[test]
fn area_is_twice_the_signed_triangle_area() {
    assert_eq!(area(p(0, 0), p(4, 0), p(0, 3)), 12);
    assert_eq!(area(p(0, 0), p(0, 3), p(4, 0)), -12);
    assert_eq!(area(p(1, 1), p(2, 2), p(3, 3)), 0);
    assert_eq!(area(p(9, 10), p(10, 9), p(12, 9)), 2);
}

#[test]
fn area_of_the_largest_triangle_does_not_overflow() {
    let lo = i32::MIN;
    let hi = i32::MAX;
    let span = hi as i128 - lo as i128;
    assert_eq!(area(p(lo, lo), p(hi, lo), p(lo, hi)), span * span);
    assert_eq!(area(p(lo, lo), p(lo, hi), p(hi, lo)), -(span * span));
}

#[test]
fn strict_and_non_strict_turns() {
    let a = p(0, 0);
    let b = p(2, 0);
    let up = p(2, 2);
    let down = p(2, -2);
    let on = p(4, 0);
    assert!(left(a, b, up) && left_on(a, b, up));
    assert!(!right(a, b, up) && !right_on(a, b, up));
    assert!(right(a, b, down) && right_on(a, b, down));
    assert!(!left(a, b, down) && !left_on(a, b, down));
    assert!(!left(a, b, on) && !right(a, b, on));
    assert!(left_on(a, b, on) && right_on(a, b, on));
}

#[test]
fn signed_area_of_loops() {
    assert_eq!(signed_area2(&pts(&[])), 0);
    assert_eq!(signed_area2(&pts(&[(3, 4)])), 0);
    assert_eq!(signed_area2(&pts(&[(0, 0), (4, 0)])), 0);
    assert_eq!(signed_area2(&pts(&[(0, 0), (4, 0), (4, 4), (0, 4)])), 32);
    assert_eq!(signed_area2(&pts(&[(0, 0), (0, 4), (4, 4), (4, 0)])), -32);
    assert_eq!(signed_area2(&pts(&[(9, 10), (10, 9), (11, 10), (10, 11)])), 4);
    assert_eq!(signed_area2(&pts(&[(0, 0), (4, 0), (4, 2), (2, 2), (2, 4), (0, 4)])), 24);
}

#[test]
fn signed_area_does_not_depend_on_the_entry_vertex() {
    let a = pts(&[(0, 0), (4, 0), (4, 2), (2, 2), (2, 4), (0, 4)]);
    let b = pts(&[(2, 2), (2, 4), (0, 4), (0, 0), (4, 0), (4, 2)]);
    assert_eq!(signed_area2(&a), signed_area2(&b));
}
