use grid_colliders::classifier::Segment;
use grid_colliders::point::Point;
use grid_colliders::stitch::{find_start, stitch, StitchFailure};

fn p(x: i32, y: i32) -> Point {
    Point::new(x, y)
}

fn seg(ax: i32, ay: i32, bx: i32, by: i32) -> Segment {
    Segment::new(Point::new(ax, ay), Point::new(bx, by))
}

fn pts(raw: &[(i32, i32)]) -> Vec<Point> {
    raw.iter().map(|&(x, y)| Point::new(x, y)).collect()
}

fn rotated(l: &Vec<Point>, k: usize) -> Vec<Point> {
    let mut r = l[k..].to_vec();
    r.extend_from_slice(&l[..k]);
    r
}

#[test]
fn find_start_takes_the_first_in_bag_order() {
    let bag = vec![seg(0, 0, 1, 1), seg(5, 5, 6, 6), seg(0, 0, 2, 2), seg(5, 5, 7, 7)];
    assert_eq!(find_start(&bag, p(5, 5)), Some(1));
    assert_eq!(find_start(&bag, p(0, 0)), Some(0));
    assert_eq!(find_start(&bag, p(1, 1)), None);
    assert_eq!(find_start(&vec![], p(0, 0)), None);
}

#[test]
fn a_diamond_is_stitched_from_its_first_segment() {
    let bag = vec![seg(9, 10, 10, 9), seg(10, 11, 9, 10), seg(10, 9, 11, 10), seg(11, 10, 10, 11)];
    assert_eq!(stitch(&bag), Ok(pts(&[(9, 10), (10, 9), (11, 10), (10, 11)])));
}

#[test]
fn an_empty_bag_fails() {
    assert_eq!(stitch(&vec![]), Err(StitchFailure::Empty));
}

#[test]
fn a_segment_from_a_point_to_itself_is_a_loop_of_one() {
    assert_eq!(stitch(&vec![seg(3, 3, 3, 3)]), Ok(pts(&[(3, 3)])));
}

#[test]
fn a_single_open_segment_is_not_closed() {
    assert_eq!(
        stitch(&vec![seg(1, 0, 0, 1)]),
        Err(StitchFailure::NotClosed { first: p(1, 0), last: p(0, 1) })
    );
}

#[test]
fn an_open_chain_is_not_closed() {
    let bag = vec![seg(0, 0, 2, 0), seg(2, 0, 2, 2), seg(2, 2, 0, 2)];
    assert_eq!(stitch(&bag), Err(StitchFailure::NotClosed { first: p(0, 0), last: p(0, 2) }));
}

#[test]
fn an_open_chain_entered_in_the_middle_finds_no_match() {
    let bag = vec![seg(2, 0, 2, 2), seg(0, 0, 2, 0), seg(2, 2, 0, 2)];
    assert_eq!(stitch(&bag), Err(StitchFailure::NoMatch { tail: p(0, 2) }));
}

#[test]
fn two_separate_loops_find_no_match() {
    let bag = vec![seg(0, 0, 1, 1), seg(1, 1, 0, 0), seg(5, 5, 6, 6), seg(6, 6, 5, 5)];
    assert_eq!(stitch(&bag), Err(StitchFailure::NoMatch { tail: p(0, 0) }));
}

#[test]
fn reversed_segments_do_not_match() {
    let bag = vec![seg(0, 0, 2, 0), seg(2, 2, 2, 0), seg(2, 2, 0, 0)];
    assert_eq!(stitch(&bag), Err(StitchFailure::NoMatch { tail: p(2, 0) }));
}

#[test]
fn every_order_of_a_bag_gives_the_same_loop() {
    let a = vec![seg(9, 10, 10, 9), seg(10, 11, 9, 10), seg(10, 9, 11, 10), seg(11, 10, 10, 11)];
    let l = stitch(&a).unwrap();
    let orders: [[usize; 4]; 6] =
        [[1, 0, 2, 3], [2, 3, 0, 1], [3, 2, 1, 0], [0, 3, 2, 1], [1, 2, 3, 0], [2, 0, 3, 1]];
    for order in orders {
        let b: Vec<Segment> = order.iter().map(|&k| a[k]).collect();
        let m = stitch(&b).unwrap();
        assert_eq!(m.len(), l.len());
        let k = l.iter().position(|&q| q == m[0]).unwrap();
        assert_eq!(m, rotated(&l, k));
    }
}

#[test]
fn reordering_a_bag_that_fails_still_fails() {
    let a = vec![seg(0, 0, 1, 1), seg(1, 1, 0, 0), seg(5, 5, 6, 6), seg(6, 6, 5, 5)];
    let b = vec![seg(6, 6, 5, 5), seg(1, 1, 0, 0), seg(0, 0, 1, 1), seg(5, 5, 6, 6)];
    assert!(stitch(&a).is_err());
    assert!(stitch(&b).is_err());
}

#[test]
fn at_a_branch_point_the_first_segment_in_bag_order_is_taken() {
    // Two segments start at (2, 0): going on to (0, 0) first leaves the rest unreachable.
    let early = vec![seg(0, 0, 2, 0), seg(2, 0, 0, 0), seg(2, 0, 4, 0), seg(4, 0, 2, 0)];
    assert_eq!(stitch(&early), Err(StitchFailure::NoMatch { tail: p(0, 0) }));
    let late = vec![seg(0, 0, 2, 0), seg(2, 0, 4, 0), seg(2, 0, 0, 0), seg(4, 0, 2, 0)];
    assert_eq!(stitch(&late), Ok(pts(&[(0, 0), (2, 0), (4, 0), (2, 0)])));
}

#[test]
fn the_loop_has_one_vertex_for_each_segment() {
    let bag = vec![
        seg(9, 10, 10, 9),
        seg(10, 11, 9, 10),
        seg(10, 9, 12, 9),
        seg(12, 11, 10, 11),
        seg(12, 9, 13, 10),
        seg(13, 10, 12, 11),
    ];
    let l = stitch(&bag).unwrap();
    assert_eq!(l, pts(&[(9, 10), (10, 9), (12, 9), (13, 10), (12, 11), (10, 11)]));
    for k in 0..l.len() {
        let edge = Segment::new(l[k], l[(k + 1) % l.len()]);
        assert!(bag.contains(&edge));
    }
}
