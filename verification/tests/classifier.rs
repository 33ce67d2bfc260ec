use grid_colliders::classifier::{classify, index_to_vertices, ConfigurationDefect, Segment};
use grid_colliders::contour::corner_index;
use grid_colliders::point::{area, Point};

fn seg(ax: i32, ay: i32, bx: i32, by: i32) -> Segment {
    Segment::new(Point::new(ax, ay), Point::new(bx, by))
}

#[test]
fn empty_and_full_cells_have_no_boundary() {
    assert!(index_to_vertices(0).is_empty());
    assert!(index_to_vertices(15).is_empty());
}

#[test]
fn an_index_above_fifteen_contributes_nothing() {
    assert!(index_to_vertices(16).is_empty());
    assert!(index_to_vertices(100).is_empty());
    assert!(index_to_vertices(255).is_empty());
}

#[test]
fn bottom_left_corner_alone_goes_from_left_to_bottom() {
    assert_eq!(index_to_vertices(1), vec![seg(0, 1, 1, 0)]);
}

#[test]
fn the_table_of_single_segments() {
    assert_eq!(index_to_vertices(2), vec![seg(1, 0, 2, 1)]);
    assert_eq!(index_to_vertices(3), vec![seg(0, 1, 2, 1)]);
    assert_eq!(index_to_vertices(4), vec![seg(2, 1, 1, 2)]);
    assert_eq!(index_to_vertices(6), vec![seg(1, 0, 1, 2)]);
    assert_eq!(index_to_vertices(7), vec![seg(0, 1, 1, 2)]);
    assert_eq!(index_to_vertices(8), vec![seg(1, 2, 0, 1)]);
    assert_eq!(index_to_vertices(9), vec![seg(1, 2, 1, 0)]);
    assert_eq!(index_to_vertices(11), vec![seg(1, 2, 2, 1)]);
    assert_eq!(index_to_vertices(12), vec![seg(2, 1, 0, 1)]);
    assert_eq!(index_to_vertices(13), vec![seg(2, 1, 1, 0)]);
    assert_eq!(index_to_vertices(14), vec![seg(1, 0, 0, 1)]);
}

#[test]
fn the_saddles_give_two_segments_each() {
    assert_eq!(index_to_vertices(5), vec![seg(0, 1, 1, 2), seg(2, 1, 1, 0)]);
    assert_eq!(index_to_vertices(10), vec![seg(1, 2, 2, 1), seg(1, 0, 0, 1)]);
}

#[test]
fn solid_corners_lie_to_the_right_of_every_segment() {
    let corners = [Point::new(0, 0), Point::new(2, 0), Point::new(2, 2), Point::new(0, 2)];
    for index in 1u8..=14 {
        for s in index_to_vertices(index) {
            for bit in 0..4 {
                let side = area(s.start, s.end, corners[bit]);
                if index & (1 << bit) != 0 {
                    assert!(side < 0);
                } else if index != 5 && index != 10 {
                    assert!(side > 0);
                }
            }
        }
    }
}

#[test]
fn the_segments_of_a_saddle_share_no_endpoint() {
    for index in [5u8, 10u8] {
        let both = index_to_vertices(index);
        assert_eq!(both.len(), 2);
        let ends = [both[0].start, both[0].end, both[1].start, both[1].end];
        for a in 0..4 {
            for b in (a + 1)..4 {
                assert_ne!(ends[a], ends[b]);
            }
        }
    }
}

#[test]
fn every_other_index_gives_exactly_one_segment() {
    for index in 1u8..=14 {
        if index != 5 && index != 10 {
            assert_eq!(index_to_vertices(index).len(), 1);
        }
    }
}

#[test]
fn complementary_indices_give_reversed_segments() {
    for index in 1u8..=14 {
        if index != 5 && index != 10 {
            let s = index_to_vertices(index)[0];
            let t = index_to_vertices(15 - index)[0];
            assert_eq!(s.start, t.end);
            assert_eq!(s.end, t.start);
        }
    }
}

#[test]
fn corner_index_puts_each_corner_on_its_bit() {
    assert_eq!(corner_index(false, false, false, false), 0);
    assert_eq!(corner_index(true, false, false, false), 1);
    assert_eq!(corner_index(false, true, false, false), 2);
    assert_eq!(corner_index(false, false, true, false), 4);
    assert_eq!(corner_index(false, false, false, true), 8);
    assert_eq!(corner_index(true, false, true, false), 5);
    assert_eq!(corner_index(false, true, false, true), 10);
    assert_eq!(corner_index(true, true, true, true), 15);
}

#[test]
fn classify_agrees_with_the_table_up_to_fifteen() {
    for index in 0u8..=15 {
        assert_eq!(classify(index), Ok(index_to_vertices(index)));
    }
    assert_eq!(classify(1), Ok(vec![seg(0, 1, 1, 0)]));
}

#[test]
fn classify_reports_an_index_above_fifteen() {
    assert_eq!(classify(16), Err(ConfigurationDefect { index: 16 }));
    assert_eq!(classify(255), Err(ConfigurationDefect { index: 255 }));
}
