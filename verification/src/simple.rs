//! Simple polygons: loops of which no two edges touch but neighbours at
//! their common vertex. Cutting a simple polygon along a valid diagonal
//! gives two simple polygons, so every piece of its decomposition is simple.

use vstd::prelude::*;
use crate::decompose::{
    arc, best_partner, edge_clear, first_notch, lemma_arc_lengths, lemma_best_partner_upto,
    lemma_first_notch_from, pieces_spec, segments_touch, segments_touch_spec, valid_diagonal,
};
use crate::point::{succ, Point};

verus! {

/// Whether the edges that leave the positions `k` and `m` are the same or
/// neighbours on a loop of `n` vertices.
pub open spec fn adjacent(n: int, k: int, m: int) -> bool {
    k == m || succ(n, k) == m || succ(n, m) == k
}

/// Whether the edges that leave the positions `k` and `m` have a point in common.
pub open spec fn edges_touch(poly: Seq<Point>, k: int, m: int) -> bool {
    let n = poly.len() as int;
    segments_touch_spec(poly[k], poly[succ(n, k)], poly[m], poly[succ(n, m)])
}

/// A simple polygon: no two of its edges have a point in common, but for
/// neighbours.
pub open spec fn is_simple(poly: Seq<Point>) -> bool {
    forall|k: int, m: int|
        0 <= k < poly.len() && 0 <= m < poly.len() && !adjacent(poly.len() as int, k, m)
            ==> !#[trigger] edges_touch(poly, k, m)
}

/// The position in the polygon of the vertex at position `a` of the side
/// that starts at `i`.
pub open spec fn arc_index(n: int, i: int, a: int) -> int {
    if i + a < n {
        i + a
    } else {
        i + a - n
    }
}

/// Whether two segments touch does not depend on which is named first, nor
/// on the direction of either.
pub proof fn lemma_touch_symmetric(p: Point, q: Point, a: Point, b: Point)
    ensures
        segments_touch_spec(p, q, a, b) == segments_touch_spec(a, b, p, q),
        segments_touch_spec(p, q, a, b) == segments_touch_spec(q, p, a, b),
        segments_touch_spec(p, q, a, b) == segments_touch_spec(p, q, b, a),
{
    lemma_area_reversed(p, q, a);
    lemma_area_reversed(p, q, b);
    lemma_area_reversed(a, b, p);
    lemma_area_reversed(a, b, q);
}

/// Naming the first two points of a triangle in the other order changes
/// the sign of its area.
proof fn lemma_area_reversed(a: Point, b: Point, c: Point)
    ensures
        crate::point::area_spec(b, a, c) == -crate::point::area_spec(a, b, c),
{
    let ax = a.x as int;
    let ay = a.y as int;
    let bx = b.x as int;
    let by = b.y as int;
    let cx = c.x as int;
    let cy = c.y as int;
    assert((ax - bx) * (cy - by) - (cx - bx) * (ay - by) == -((bx - ax) * (cy - ay) - (cx - ax) * (
    by - ay))) by (nonlinear_arith);
}

/// Where the vertices of a side of the polygon stand in the polygon.
proof fn lemma_arc_vertex(poly: Seq<Point>, i: int, j: int, a: int)
    requires
        0 <= i < poly.len(),
        0 <= j < poly.len(),
        i != j,
        0 <= a < arc(poly, i, j).len(),
    ensures
        2 <= arc(poly, i, j).len() <= poly.len(),
        0 <= arc_index(poly.len() as int, i, a) < poly.len(),
        arc(poly, i, j)[a] == poly[arc_index(poly.len() as int, i, a)],
        a == arc(poly, i, j).len() - 1 <==> arc_index(poly.len() as int, i, a) == j,
        a == 0 <==> arc_index(poly.len() as int, i, a) == i,
        a + 1 < arc(poly, i, j).len() ==> arc_index(poly.len() as int, i, a + 1) == succ(
            poly.len() as int,
            arc_index(poly.len() as int, i, a),
        ),
{
}

/// The edges of a side of the polygon: its last edge is the cut, from `j`
/// back to `i`, and every other is the edge of the polygon that leaves
/// the same vertex.
proof fn lemma_arc_edge(poly: Seq<Point>, i: int, j: int, a: int)
    requires
        0 <= i < poly.len(),
        0 <= j < poly.len(),
        i != j,
        0 <= a < arc(poly, i, j).len(),
    ensures
        ({
            let side = arc(poly, i, j);
            let n = poly.len() as int;
            let k = arc_index(n, i, a);
            &&& side[a] == poly[k]
            &&& a + 1 < side.len() ==> side[succ(side.len() as int, a)] == poly[succ(n, k)]
            &&& a + 1 == side.len() ==> k == j && side[succ(side.len() as int, a)] == poly[i]
        }),
{
    lemma_arc_vertex(poly, i, j, a);
    if a + 1 < arc(poly, i, j).len() {
        lemma_arc_vertex(poly, i, j, a + 1);
    } else {
        lemma_arc_vertex(poly, i, j, 0);
    }
}

/// A side of a simple polygon, closed by a cut that touches no edge but
/// those that end where it ends, is simple.
proof fn lemma_side_simple(poly: Seq<Point>, i: int, j: int)
    requires
        is_simple(poly),
        0 <= i < poly.len(),
        0 <= j < poly.len(),
        i != j,
        forall|k: int| 0 <= k < poly.len() ==> #[trigger] edge_clear(poly, i, j, k),
    ensures
        is_simple(arc(poly, i, j)),
{
    let n = poly.len() as int;
    let side = arc(poly, i, j);
    let len = side.len() as int;
    assert forall|a: int, b: int|
        0 <= a < side.len() && 0 <= b < side.len() && !adjacent(len, a, b) implies !#[trigger] edges_touch(
        side,
        a,
        b,
    ) by {
        lemma_arc_vertex(poly, i, j, a);
        lemma_arc_vertex(poly, i, j, b);
        lemma_arc_edge(poly, i, j, a);
        lemma_arc_edge(poly, i, j, b);
        let ka = arc_index(n, i, a);
        let kb = arc_index(n, i, b);
        if a + 1 < len && b + 1 < len {
            assert(!adjacent(n, ka, kb));
            assert(!edges_touch(poly, ka, kb));
        } else if b + 1 == len {
            assert(edge_clear(poly, i, j, ka));
            lemma_touch_symmetric(poly[i], poly[j], poly[ka], poly[succ(n, ka)]);
            lemma_touch_symmetric(poly[ka], poly[succ(n, ka)], poly[i], poly[j]);
        } else {
            assert(edge_clear(poly, i, j, kb));
            lemma_touch_symmetric(poly[i], poly[j], poly[kb], poly[succ(n, kb)]);
        }
    }
}

/// Both sides of a valid cut of a simple polygon are simple.
pub proof fn lemma_cut_keeps_simple(poly: Seq<Point>, ccw: bool, i: int, j: int)
    requires
        is_simple(poly),
        0 <= i < poly.len(),
        valid_diagonal(poly, ccw, i, j),
    ensures
        is_simple(arc(poly, i, j)),
        is_simple(arc(poly, j, i)),
{
    let n = poly.len() as int;
    lemma_side_simple(poly, i, j);
    assert forall|k: int| 0 <= k < poly.len() implies #[trigger] edge_clear(poly, j, i, k) by {
        assert(edge_clear(poly, i, j, k));
        lemma_touch_symmetric(poly[i], poly[j], poly[k], poly[succ(n, k)]);
    }
    lemma_side_simple(poly, j, i);
}

/// Every piece of the decomposition of a simple polygon is simple.
pub proof fn lemma_pieces_simple(poly: Seq<Point>, ccw: bool)
    requires
        is_simple(poly),
    ensures
        pieces_spec(poly, ccw) matches Ok(pieces) ==> forall|k: int|
            0 <= k < pieces.len() ==> is_simple(#[trigger] pieces[k]),
    decreases poly.len(),
{
    if poly.len() >= 3 {
        lemma_first_notch_from(poly, ccw, 0);
        match first_notch(poly, ccw) {
            None => {},
            Some(i) => match best_partner(poly, ccw, i) {
                None => {},
                Some(j) => {
                    lemma_best_partner_upto(poly, ccw, i, poly.len() as int);
                    lemma_arc_lengths(poly, ccw, i, j);
                    lemma_cut_keeps_simple(poly, ccw, i, j);
                    lemma_pieces_simple(arc(poly, i, j), ccw);
                    lemma_pieces_simple(arc(poly, j, i), ccw);
                },
            },
        }
    }
}

/// Whether the polygon is simple.
pub fn simple_polygon(poly: &Vec<Point>) -> (simple: bool)
    ensures
        simple == is_simple(poly@),
{
    let n: usize = poly.len();
    let mut k: usize = 0;
    while k < n
        invariant
            n == poly@.len(),
            k <= n,
            forall|a: int, b: int|
                0 <= a < k && 0 <= b < n && !adjacent(n as int, a, b) ==> !#[trigger] edges_touch(
                    poly@,
                    a,
                    b,
                ),
        decreases n - k,
    {
        let after_k: usize = if k + 1 == n {
            0
        } else {
            k + 1
        };
        let mut m: usize = 0;
        while m < n
            invariant
                n == poly@.len(),
                k < n,
                m <= n,
                after_k == succ(n as int, k as int),
                forall|b: int|
                    0 <= b < m && !adjacent(n as int, k as int, b) ==> !#[trigger] edges_touch(
                        poly@,
                        k as int,
                        b,
                    ),
            decreases n - m,
        {
            let after_m: usize = if m + 1 == n {
                0
            } else {
                m + 1
            };
            if k != m && after_k != m && after_m != k {
                if segments_touch(poly[k], poly[after_k], poly[m], poly[after_m]) {
                    assert(edges_touch(poly@, k as int, m as int));
                    return false;
                }
            }
            m += 1;
        }
        k += 1;
    }
    true
}

} // verus!
