//! The cell classifier: from the 4-bit occupancy index of one 2x2
//! neighbourhood to the directed boundary segments that cross it.
//!
//! A neighbourhood is drawn as the square `[0,2] x [0,2]`, so the midpoints of
//! its four sides have integer coordinates: bottom `(1,0)`, left `(0,1)`,
//! right `(2,1)` and top `(1,2)`. Bit 0 of the index is the bottom-left
//! corner, bit 1 the bottom-right, bit 2 the top-right, bit 3 the top-left.

use vstd::prelude::*;
use crate::point::{left_spec, right_spec, Point};

verus! {

/// An index that four corners cannot give: it is above 15.
#[derive(Clone, Copy, Debug, PartialEq, Eq, Structural)]
pub struct ConfigurationDefect {
    pub index: u8,
}

/// A directed boundary segment between two lattice points.
#[derive(Clone, Copy, Debug, PartialEq, Eq, Structural)]
pub struct Segment {
    pub start: Point,
    pub end: Point,
}

impl Segment {
    pub fn new(start: Point, end: Point) -> (s: Segment)
        ensures
            s.start == start,
            s.end == end,
    {
        Segment { start, end }
    }
}

pub open spec fn bottom() -> Point {
    Point { x: 1, y: 0 }
}

pub open spec fn left_side() -> Point {
    Point { x: 0, y: 1 }
}

pub open spec fn right_side() -> Point {
    Point { x: 2, y: 1 }
}

pub open spec fn top() -> Point {
    Point { x: 1, y: 2 }
}

pub open spec fn is_midpoint(p: Point) -> bool {
    p == bottom() || p == left_side() || p == right_side() || p == top()
}

pub open spec fn seg(start: Point, end: Point) -> Segment {
    Segment { start, end }
}

/// Two segments with no endpoint in common.
pub open spec fn disjoint(s: Segment, t: Segment) -> bool {
    s.start != t.start && s.start != t.end && s.end != t.start && s.end != t.end
}

/// The lookup table. Every segment joins the midpoints of two sides of
/// the square, and is directed so that the solid corners lie to its right:
/// the corner at the bottom left alone gives the segment from the left
/// side to the bottom side. The two saddle indices, 5 and 10, where one
/// diagonal pair of corners is solid and the other empty, always resolve to
/// the same two segments: the neighbouring cells are not consulted.
pub open spec fn cell_segments(index: int) -> Seq<Segment> {
    if index == 1 {
        seq![seg(left_side(), bottom())]
    } else if index == 2 {
        seq![seg(bottom(), right_side())]
    } else if index == 3 {
        seq![seg(left_side(), right_side())]
    } else if index == 4 {
        seq![seg(right_side(), top())]
    } else if index == 5 {
        seq![seg(left_side(), top()), seg(right_side(), bottom())]
    } else if index == 6 {
        seq![seg(bottom(), top())]
    } else if index == 7 {
        seq![seg(left_side(), top())]
    } else if index == 8 {
        seq![seg(top(), left_side())]
    } else if index == 9 {
        seq![seg(top(), bottom())]
    } else if index == 10 {
        seq![seg(top(), right_side()), seg(bottom(), left_side())]
    } else if index == 11 {
        seq![seg(top(), right_side())]
    } else if index == 12 {
        seq![seg(right_side(), left_side())]
    } else if index == 13 {
        seq![seg(right_side(), bottom())]
    } else if index == 14 {
        seq![seg(bottom(), left_side())]
    } else {
        Seq::empty()
    }
}

/// The corner of the square that the bit `bit` of the index stands for.
pub open spec fn corner(bit: int) -> Point {
    if bit == 0 {
        Point { x: 0, y: 0 }
    } else if bit == 1 {
        Point { x: 2, y: 0 }
    } else if bit == 2 {
        Point { x: 2, y: 2 }
    } else {
        Point { x: 0, y: 2 }
    }
}

/// Whether the bit `bit` of the index is set.
pub open spec fn corner_solid(index: int, bit: int) -> bool {
    if bit == 0 {
        index % 2 == 1
    } else if bit == 1 {
        (index / 2) % 2 == 1
    } else if bit == 2 {
        (index / 4) % 2 == 1
    } else {
        (index / 8) % 2 == 1
    }
}

/// The product of `p` and `q` for `p` between -2 and 2, written without a
/// multiplication.
spec fn small_times(p: int, q: int) -> int {
    if p == 0 {
        0
    } else if p == 1 {
        q
    } else if p == 2 {
        2 * q
    } else if p == -1 {
        -q
    } else {
        -2 * q
    }
}

/// On which side of the segment from `a` to `b` the point `c` lies, for
/// points of the square: the doubled signed area of the three.
spec fn side(a: Point, b: Point, c: Point) -> int {
    small_times(b.x - a.x, c.y - a.y) - small_times(c.x - a.x, b.y - a.y)
}

proof fn lemma_side(a: Point, b: Point, c: Point)
    requires
        0 <= a.x <= 2 && 0 <= a.y <= 2,
        0 <= b.x <= 2 && 0 <= b.y <= 2,
        0 <= c.x <= 2 && 0 <= c.y <= 2,
    ensures
        crate::point::area_spec(a, b, c) == side(a, b, c),
{
    let p = b.x - a.x;
    let q = c.y - a.y;
    let u = c.x - a.x;
    let v = b.y - a.y;
    assert(p * q == small_times(p, q)) by (nonlinear_arith)
        requires
            -2 <= p <= 2,
    ;
    assert(u * v == small_times(u, v)) by (nonlinear_arith)
        requires
            -2 <= u <= 2,
    ;
}

/// The segments are directed consistently: every solid corner lies to the
/// right of every segment of its neighbourhood, and, but for the saddles,
/// every empty corner to the left.
pub proof fn lemma_solid_on_the_right(index: int, k: int, bit: int)
    requires
        0 <= index <= 15,
        0 <= k < cell_segments(index).len(),
        0 <= bit <= 3,
    ensures
        corner_solid(index, bit) ==> right_spec(
            cell_segments(index)[k].start,
            cell_segments(index)[k].end,
            corner(bit),
        ),
        !corner_solid(index, bit) && index != 5 && index != 10 ==> left_spec(
            cell_segments(index)[k].start,
            cell_segments(index)[k].end,
            corner(bit),
        ),
{
    let s = cell_segments(index)[k];
    let c = corner(bit);
    lemma_side(s.start, s.end, c);
    let solid = corner_solid(index, bit);
    let value = side(s.start, s.end, c);
    assert(bit == 0 || bit == 1 || bit == 2 || bit == 3);
    if index == 1 {
        assert(solid == (bit == 0));
        assert(s == seg(left_side(), bottom()));
        assert(solid ==> value < 0);
        assert(!solid ==> value > 0);
    } else if index == 2 {
        assert(solid == (bit == 1));
        assert(s == seg(bottom(), right_side()));
        assert(solid ==> value < 0);
        assert(!solid ==> value > 0);
    } else if index == 3 {
        assert(solid == (bit == 0 || bit == 1));
        assert(s == seg(left_side(), right_side()));
        assert(solid ==> value < 0);
        assert(!solid ==> value > 0);
    } else if index == 4 {
        assert(solid == (bit == 2));
        assert(s == seg(right_side(), top()));
        assert(solid ==> value < 0);
        assert(!solid ==> value > 0);
    } else if index == 5 {
        assert(solid == (bit == 0 || bit == 2));
        if k == 0 {
            assert(s == seg(left_side(), top()));
            assert(solid ==> value < 0);
        } else {
            assert(s == seg(right_side(), bottom()));
            assert(solid ==> value < 0);
        }
    } else if index == 6 {
        assert(solid == (bit == 1 || bit == 2));
        assert(s == seg(bottom(), top()));
        assert(solid ==> value < 0);
        assert(!solid ==> value > 0);
    } else if index == 7 {
        assert(solid == (bit == 0 || bit == 1 || bit == 2));
        assert(s == seg(left_side(), top()));
        assert(solid ==> value < 0);
        assert(!solid ==> value > 0);
    } else if index == 8 {
        assert(solid == (bit == 3));
        assert(s == seg(top(), left_side()));
        assert(solid ==> value < 0);
        assert(!solid ==> value > 0);
    } else if index == 9 {
        assert(solid == (bit == 0 || bit == 3));
        assert(s == seg(top(), bottom()));
        assert(solid ==> value < 0);
        assert(!solid ==> value > 0);
    } else if index == 10 {
        assert(solid == (bit == 1 || bit == 3));
        if k == 0 {
            assert(s == seg(top(), right_side()));
            assert(solid ==> value < 0);
        } else {
            assert(s == seg(bottom(), left_side()));
            assert(solid ==> value < 0);
        }
    } else if index == 11 {
        assert(solid == (bit == 0 || bit == 1 || bit == 3));
        assert(s == seg(top(), right_side()));
        assert(solid ==> value < 0);
        assert(!solid ==> value > 0);
    } else if index == 12 {
        assert(solid == (bit == 2 || bit == 3));
        assert(s == seg(right_side(), left_side()));
        assert(solid ==> value < 0);
        assert(!solid ==> value > 0);
    } else if index == 13 {
        assert(solid == (bit == 0 || bit == 2 || bit == 3));
        assert(s == seg(right_side(), bottom()));
        assert(solid ==> value < 0);
        assert(!solid ==> value > 0);
    } else if index == 14 {
        assert(solid == (bit == 1 || bit == 2 || bit == 3));
        assert(s == seg(bottom(), left_side()));
        assert(solid ==> value < 0);
        assert(!solid ==> value > 0);
    }
}

/// The boundary segments of one neighbourhood, in the square's own
/// coordinates, or the defect of an index above 15.
pub fn classify(index: u8) -> (classified: Result<Vec<Segment>, ConfigurationDefect>)
    ensures
        match classified {
            Ok(segments) => index <= 15 && segments@ == cell_segments(index as int),
            Err(defect) => index > 15 && defect.index == index,
        },
{
    if index > 15 {
        Err(ConfigurationDefect { index })
    } else {
        Ok(index_to_vertices(index))
    }
}

/// The boundary segments of one neighbourhood, in the square's own
/// coordinates. An index above 15 cannot come from four corners; it
/// contributes nothing.
pub fn index_to_vertices(index: u8) -> (segments: Vec<Segment>)
    ensures
        segments@ == cell_segments(index as int),
        index == 0 || index >= 15 ==> segments@.len() == 0,
        1 <= index <= 14 && index != 5 && index != 10 ==> segments@.len() == 1,
        index == 5 || index == 10 ==> segments@.len() == 2 && disjoint(segments@[0], segments@[1]),
        forall|k: int|
            0 <= k < segments@.len() ==> is_midpoint(#[trigger] segments@[k].start) && is_midpoint(
                segments@[k].end,
            ) && segments@[k].start != segments@[k].end,
{
    let b = Point::new(1, 0);
    let l = Point::new(0, 1);
    let r = Point::new(2, 1);
    let t = Point::new(1, 2);
    let mut segments: Vec<Segment> = Vec::new();
    if index == 1 {
        segments.push(Segment::new(l, b));
    } else if index == 2 {
        segments.push(Segment::new(b, r));
    } else if index == 3 {
        segments.push(Segment::new(l, r));
    } else if index == 4 {
        segments.push(Segment::new(r, t));
    } else if index == 5 {
        segments.push(Segment::new(l, t));
        segments.push(Segment::new(r, b));
    } else if index == 6 {
        segments.push(Segment::new(b, t));
    } else if index == 7 {
        segments.push(Segment::new(l, t));
    } else if index == 8 {
        segments.push(Segment::new(t, l));
    } else if index == 9 {
        segments.push(Segment::new(t, b));
    } else if index == 10 {
        segments.push(Segment::new(t, r));
        segments.push(Segment::new(b, l));
    } else if index == 11 {
        segments.push(Segment::new(t, r));
    } else if index == 12 {
        segments.push(Segment::new(r, l));
    } else if index == 13 {
        segments.push(Segment::new(r, b));
    } else if index == 14 {
        segments.push(Segment::new(b, l));
    }
    assert(segments@ =~= cell_segments(index as int));
    segments
}

} // verus!
