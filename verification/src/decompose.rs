//! The convex decomposer: splits a simple polygon into convex pieces by
//! cutting at reflex vertices along diagonals. The polygon may wind either
//! way; its pieces wind as it does.

use vstd::prelude::*;
use crate::error::DegenerateGeometry;
use crate::point::{area, area_spec, pred, succ, Point};
use crate::polygon::{
    area2, lemma_cut_preserves_area, lemma_total_area2_concat, signed_area2, total_area2,
};
use crate::simple::{is_simple, lemma_pieces_simple};

verus! {

/// The pieces of a decomposition, or why there are none.
pub type Pieces = Result<Seq<Seq<Point>>, DegenerateGeometry>;

/// Whether the loop winds counter-clockwise: its signed area is not negative.
pub open spec fn winds_left(poly: Seq<Point>) -> bool {
    area2(poly) >= 0
}

/// The doubled signed area of the triangle `a`, `b`, `c`, counted with the
/// winding: positive when the three points turn the way the polygon winds,
/// negative when they turn against it.
pub open spec fn turn(ccw: bool, a: Point, b: Point, c: Point) -> int {
    if ccw {
        area_spec(a, b, c)
    } else {
        -area_spec(a, b, c)
    }
}

/// Whether the vertex `i` is a notch: the boundary turns against the
/// winding there, so the inner angle is more than a straight angle.
pub open spec fn is_notch(poly: Seq<Point>, ccw: bool, i: int) -> bool {
    let n = poly.len() as int;
    turn(ccw, poly[pred(n, i)], poly[i], poly[succ(n, i)]) < 0
}

/// A polygon without a notch: at every vertex the boundary turns with the
/// winding or goes straight on. For a counter-clockwise winding every
/// turn is to the left or straight, for a clockwise one to the right or
/// straight.
pub open spec fn is_convex(poly: Seq<Point>, ccw: bool) -> bool {
    forall|i: int|
        0 <= i < poly.len() ==> turn(
            ccw,
            poly[pred(poly.len() as int, i)],
            #[trigger] poly[i],
            poly[succ(poly.len() as int, i)],
        ) >= 0
}

/// The first notch at or after position `from`.
pub open spec fn first_notch_from(poly: Seq<Point>, ccw: bool, from: int) -> Option<int>
    decreases poly.len() - from,
{
    if from < 0 || from >= poly.len() {
        None
    } else if is_notch(poly, ccw, from) {
        Some(from)
    } else {
        first_notch_from(poly, ccw, from + 1)
    }
}

/// The first notch in vertex order.
pub open spec fn first_notch(poly: Seq<Point>, ccw: bool) -> Option<int> {
    first_notch_from(poly, ccw, 0)
}

pub open spec fn between(lo: int, v: int, hi: int) -> bool {
    (lo <= v && v <= hi) || (hi <= v && v <= lo)
}

/// Whether `a` lies in the bounding box of `p` and `q`. For a point on the
/// line through `p` and `q` this says that it lies on the segment.
pub open spec fn in_box(p: Point, q: Point, a: Point) -> bool {
    between(p.x as int, a.x as int, q.x as int) && between(p.y as int, a.y as int, q.y as int)
}

pub open spec fn opposite(s: int, t: int) -> bool {
    (s > 0 && t < 0) || (s < 0 && t > 0)
}

/// Whether the closed segments `pq` and `ab` have a point in common: they
/// cross properly, or an endpoint of one lies on the other.
pub open spec fn segments_touch_spec(p: Point, q: Point, a: Point, b: Point) -> bool {
    let o1 = area_spec(p, q, a);
    let o2 = area_spec(p, q, b);
    let o3 = area_spec(a, b, p);
    let o4 = area_spec(a, b, q);
    ||| opposite(o1, o2) && opposite(o3, o4)
    ||| o1 == 0 && in_box(p, q, a)
    ||| o2 == 0 && in_box(p, q, b)
    ||| o3 == 0 && in_box(a, b, p)
    ||| o4 == 0 && in_box(a, b, q)
}

/// Whether the diagonal from vertex `j` to vertex `i` leaves `j` towards
/// the inside of the polygon.
pub open spec fn in_cone_spec(poly: Seq<Point>, ccw: bool, j: int, i: int) -> bool {
    let n = poly.len() as int;
    let before = poly[pred(n, j)];
    let after = poly[succ(n, j)];
    if turn(ccw, before, poly[j], after) >= 0 {
        turn(ccw, poly[j], poly[i], before) > 0 && turn(ccw, poly[i], poly[j], after) > 0
    } else {
        !(turn(ccw, poly[j], poly[i], after) >= 0 && turn(ccw, poly[i], poly[j], before) >= 0)
    }
}

/// Whether cutting from the notch `i` to `j` leaves no notch at `i`: both
/// angles that the diagonal makes there are at most a straight angle.
pub open spec fn resolves(poly: Seq<Point>, ccw: bool, i: int, j: int) -> bool {
    let n = poly.len() as int;
    turn(ccw, poly[pred(n, i)], poly[i], poly[j]) >= 0 && turn(
        ccw,
        poly[j],
        poly[i],
        poly[succ(n, i)],
    ) >= 0
}

/// Whether the edge from vertex `k` to the next one ends at `i` or `j`, or
/// else has no point in common with the diagonal from `i` to `j`.
pub open spec fn edge_clear(poly: Seq<Point>, i: int, j: int, k: int) -> bool {
    let n = poly.len() as int;
    k == i || k == j || succ(n, k) == i || succ(n, k) == j || !segments_touch_spec(
        poly[i],
        poly[j],
        poly[k],
        poly[succ(n, k)],
    )
}

/// Whether the polygon may be cut from the vertex `i` to the vertex `j`:
/// the two are not neighbours, the cut leaves both of them towards the
/// inside, and it meets no edge but the four that end at `i` or `j`.
pub open spec fn valid_diagonal(poly: Seq<Point>, ccw: bool, i: int, j: int) -> bool {
    let n = poly.len() as int;
    &&& 0 <= j < n
    &&& j != i
    &&& j != succ(n, i)
    &&& j != pred(n, i)
    &&& in_cone_spec(poly, ccw, i, j)
    &&& in_cone_spec(poly, ccw, j, i)
    &&& forall|k: int| 0 <= k < n ==> #[trigger] edge_clear(poly, i, j, k)
}

/// The square of the distance between two points.
pub open spec fn dist2(a: Point, b: Point) -> int {
    (a.x - b.x) * (a.x - b.x) + (a.y - b.y) * (a.y - b.y)
}

/// Whether `j` is a better partner for the notch `i` than `m`: a cut that
/// resolves the notch is better than one that does not, and of two alike
/// in this the shorter is better.
pub open spec fn better(poly: Seq<Point>, ccw: bool, i: int, j: int, m: int) -> bool {
    let here = resolves(poly, ccw, i, j);
    let there = resolves(poly, ccw, i, m);
    (here && !there) || (here == there && dist2(poly[i], poly[j]) < dist2(poly[i], poly[m]))
}

/// The best partner of the notch `i` among the vertices before `hi`: one
/// with a valid diagonal than which none is better, and of several such
/// the first.
pub open spec fn best_partner_upto(poly: Seq<Point>, ccw: bool, i: int, hi: int) -> Option<int>
    decreases hi,
{
    if hi <= 0 {
        None
    } else {
        let best = best_partner_upto(poly, ccw, i, hi - 1);
        let j = hi - 1;
        if valid_diagonal(poly, ccw, i, j) && (best is None || better(
            poly,
            ccw,
            i,
            j,
            best.unwrap(),
        )) {
            Some(j)
        } else {
            best
        }
    }
}

pub open spec fn best_partner(poly: Seq<Point>, ccw: bool, i: int) -> Option<int> {
    best_partner_upto(poly, ccw, i, poly.len() as int)
}

/// The vertices from `i` forward to `j`, both included, around the loop.
pub open spec fn arc(poly: Seq<Point>, i: int, j: int) -> Seq<Point> {
    if i <= j {
        poly.subrange(i, j + 1)
    } else {
        poly.subrange(i, poly.len() as int) + poly.subrange(0, j + 1)
    }
}

/// What `best_partner_upto` finds has a valid diagonal; no vertex before
/// `hi` with a valid diagonal is better, and every such vertex before the
/// one found is worse. It finds none only when no vertex before `hi` has
/// a valid diagonal.
pub proof fn lemma_best_partner_upto(poly: Seq<Point>, ccw: bool, i: int, hi: int)
    requires
        hi <= poly.len(),
    ensures
        match best_partner_upto(poly, ccw, i, hi) {
            Some(j) => 0 <= j < hi && valid_diagonal(poly, ccw, i, j) && forall|m: int|
                0 <= m < hi && #[trigger] valid_diagonal(poly, ccw, i, m) ==> !better(
                    poly,
                    ccw,
                    i,
                    m,
                    j,
                ) && (m < j ==> better(poly, ccw, i, j, m)),
            None => forall|m: int| 0 <= m < hi ==> !#[trigger] valid_diagonal(poly, ccw, i, m),
        },
    decreases hi,
{
    if hi > 0 {
        lemma_best_partner_upto(poly, ccw, i, hi - 1);
    }
}

/// What `first_notch_from` finds is the earliest notch from `from` on; it
/// finds none only when there is none.
pub proof fn lemma_first_notch_from(poly: Seq<Point>, ccw: bool, from: int)
    requires
        0 <= from,
    ensures
        match first_notch_from(poly, ccw, from) {
            Some(i) => from <= i < poly.len() && is_notch(poly, ccw, i) && forall|m: int|
                from <= m < i ==> !#[trigger] is_notch(poly, ccw, m),
            None => forall|m: int| from <= m < poly.len() ==> !#[trigger] is_notch(poly, ccw, m),
        },
    decreases poly.len() - from,
{
    if from < poly.len() && !is_notch(poly, ccw, from) {
        lemma_first_notch_from(poly, ccw, from + 1);
    }
}

/// Both sides of a valid diagonal have at least three vertices and fewer
/// than the polygon.
pub proof fn lemma_arc_lengths(poly: Seq<Point>, ccw: bool, i: int, j: int)
    requires
        0 <= i < poly.len(),
        valid_diagonal(poly, ccw, i, j),
    ensures
        3 <= arc(poly, i, j).len() < poly.len(),
        3 <= arc(poly, j, i).len() < poly.len(),
        arc(poly, i, j).len() + arc(poly, j, i).len() == poly.len() + 2,
{
}

/// The pieces of two parts one after the other, or the first failure.
pub open spec fn join(first: Pieces, second: Pieces) -> Pieces {
    match first {
        Err(e) => Err(e),
        Ok(a) => match second {
            Err(e) => Err(e),
            Ok(b) => Ok(a + b),
        },
    }
}

/// The convex pieces of a polygon that winds as `ccw` says, in the order
/// in which they are found: a polygon without a notch is its own single
/// piece; otherwise the first notch is cut to its best partner, and the
/// pieces of the side that runs from the notch to the partner come before
/// those of the other side.
pub open spec fn pieces_spec(poly: Seq<Point>, ccw: bool) -> Pieces
    decreases poly.len(),
{
    if poly.len() < 3 {
        Err(DegenerateGeometry::TooFewVertices { count: poly.len() as usize })
    } else {
        match first_notch(poly, ccw) {
            None => Ok(seq![poly]),
            Some(i) => match best_partner(poly, ccw, i) {
                None => Err(DegenerateGeometry::NoDiagonal { notch: poly[i] }),
                Some(j) => {
                    proof {
                        lemma_first_notch_from(poly, ccw, 0);
                        lemma_best_partner_upto(poly, ccw, i, poly.len() as int);
                        lemma_arc_lengths(poly, ccw, i, j);
                    }
                    join(pieces_spec(arc(poly, i, j), ccw), pieces_spec(arc(poly, j, i), ccw))
                },
            },
        }
    }
}

/// The convex pieces of a polygon. Which way the polygon winds is read
/// from the sign of its area.
pub open spec fn decompose_spec(poly: Seq<Point>) -> Pieces {
    pieces_spec(poly, winds_left(poly))
}

/// Every piece of a decomposition is convex and has at least three
/// vertices: when the polygon winds counter-clockwise every turn of every
/// piece is to the left or straight, otherwise every turn is to the
/// right or straight.
pub proof fn lemma_pieces_convex(poly: Seq<Point>, ccw: bool)
    ensures
        pieces_spec(poly, ccw) matches Ok(pieces) ==> forall|k: int|
            0 <= k < pieces.len() ==> is_convex(#[trigger] pieces[k], ccw) && pieces[k].len() >= 3,
    decreases poly.len(),
{
    if poly.len() >= 3 {
        lemma_first_notch_from(poly, ccw, 0);
        match first_notch(poly, ccw) {
            None => {
                assert forall|i: int| 0 <= i < poly.len() implies turn(
                    ccw,
                    poly[pred(poly.len() as int, i)],
                    #[trigger] poly[i],
                    poly[succ(poly.len() as int, i)],
                ) >= 0 by {
                    assert(!is_notch(poly, ccw, i));
                }
            },
            Some(i) => match best_partner(poly, ccw, i) {
                None => {},
                Some(j) => {
                    lemma_best_partner_upto(poly, ccw, i, poly.len() as int);
                    lemma_arc_lengths(poly, ccw, i, j);
                    lemma_pieces_convex(arc(poly, i, j), ccw);
                    lemma_pieces_convex(arc(poly, j, i), ccw);
                },
            },
        }
    }
}

/// A convex polygon is its own decomposition.
pub proof fn lemma_convex_is_one_piece(poly: Seq<Point>, ccw: bool)
    requires
        poly.len() >= 3,
        is_convex(poly, ccw),
    ensures
        pieces_spec(poly, ccw) == Ok::<Seq<Seq<Point>>, DegenerateGeometry>(seq![poly]),
{
    lemma_first_notch_from(poly, ccw, 0);
    if first_notch(poly, ccw) is Some {
        let i = first_notch(poly, ccw)->Some_0;
        assert(is_notch(poly, ccw, i));
        assert(turn(
            ccw,
            poly[pred(poly.len() as int, i)],
            poly[i],
            poly[succ(poly.len() as int, i)],
        ) >= 0);
    }
}

/// A polygon of `n` vertices is cut into at most `n - 2` pieces.
pub proof fn lemma_piece_count(poly: Seq<Point>, ccw: bool)
    ensures
        pieces_spec(poly, ccw) matches Ok(pieces) ==> 1 <= pieces.len() <= poly.len() - 2,
    decreases poly.len(),
{
    if poly.len() >= 3 {
        lemma_first_notch_from(poly, ccw, 0);
        match first_notch(poly, ccw) {
            None => {},
            Some(i) => match best_partner(poly, ccw, i) {
                None => {},
                Some(j) => {
                    lemma_best_partner_upto(poly, ccw, i, poly.len() as int);
                    lemma_arc_lengths(poly, ccw, i, j);
                    lemma_piece_count(arc(poly, i, j), ccw);
                    lemma_piece_count(arc(poly, j, i), ccw);
                },
            },
        }
    }
}

/// The doubled signed areas of the pieces of a decomposition add up to the
/// doubled signed area of the polygon.
pub proof fn lemma_pieces_preserve_area(poly: Seq<Point>, ccw: bool)
    ensures
        pieces_spec(poly, ccw) matches Ok(pieces) ==> total_area2(pieces) == area2(poly),
    decreases poly.len(),
{
    if poly.len() >= 3 {
        lemma_first_notch_from(poly, ccw, 0);
        match first_notch(poly, ccw) {
            None => {
                let pieces = seq![poly];
                assert(pieces.drop_last() =~= Seq::<Seq<Point>>::empty());
                assert(total_area2(pieces.drop_last()) == 0);
                assert(pieces.last() == poly);
            },
            Some(i) => match best_partner(poly, ccw, i) {
                None => {},
                Some(j) => {
                    lemma_best_partner_upto(poly, ccw, i, poly.len() as int);
                    lemma_arc_lengths(poly, ccw, i, j);
                    lemma_pieces_preserve_area(arc(poly, i, j), ccw);
                    lemma_pieces_preserve_area(arc(poly, j, i), ccw);
                    lemma_cut_preserves_area(poly, i, j);
                    match (pieces_spec(arc(poly, i, j), ccw), pieces_spec(arc(poly, j, i), ccw)) {
                        (Ok(near), Ok(far)) => {
                            lemma_total_area2_concat(near, far);
                        },
                        _ => {},
                    }
                },
            },
        }
    }
}

/// Every vertex of every piece of a decomposition is a vertex of the
/// polygon: no point is added.
pub proof fn lemma_pieces_use_vertices(poly: Seq<Point>, ccw: bool)
    ensures
        pieces_spec(poly, ccw) matches Ok(pieces) ==> forall|k: int, m: int|
            0 <= k < pieces.len() && 0 <= m < pieces[k].len() ==> poly.contains(
                #[trigger] pieces[k][m],
            ),
    decreases poly.len(),
{
    if poly.len() >= 3 {
        lemma_first_notch_from(poly, ccw, 0);
        match first_notch(poly, ccw) {
            None => {},
            Some(i) => match best_partner(poly, ccw, i) {
                None => {},
                Some(j) => {
                    lemma_best_partner_upto(poly, ccw, i, poly.len() as int);
                    lemma_arc_lengths(poly, ccw, i, j);
                    let near = arc(poly, i, j);
                    let far = arc(poly, j, i);
                    lemma_pieces_use_vertices(near, ccw);
                    lemma_pieces_use_vertices(far, ccw);
                    assert forall|p: Point|
                        near.contains(p) || far.contains(p) implies poly.contains(p) by {
                        if near.contains(p) {
                            let m = choose|m: int| 0 <= m < near.len() && near[m] == p;
                            if i <= j {
                                assert(poly[i + m] == p);
                            } else if m < poly.len() - i {
                                assert(poly[i + m] == p);
                            } else {
                                assert(poly[m - (poly.len() - i)] == p);
                            }
                        } else {
                            let m = choose|m: int| 0 <= m < far.len() && far[m] == p;
                            if j <= i {
                                assert(poly[j + m] == p);
                            } else if m < poly.len() - j {
                                assert(poly[j + m] == p);
                            } else {
                                assert(poly[m - (poly.len() - j)] == p);
                            }
                        }
                    }
                    match (pieces_spec(near, ccw), pieces_spec(far, ccw)) {
                        (Ok(a), Ok(b)) => {
                            let pieces = a + b;
                            assert forall|k: int, m: int|
                                0 <= k < pieces.len() && 0 <= m < pieces[k].len() implies poly.contains(
                                #[trigger] pieces[k][m],
                            ) by {
                                if k < a.len() {
                                    assert(near.contains(a[k][m]));
                                } else {
                                    assert(far.contains(b[k - a.len()][m]));
                                }
                            }
                        },
                        _ => {},
                    }
                },
            },
        }
    }
}

/// The polygons still to be decomposed, taken from the top of the stack
/// down, and their pieces in that order.
pub open spec fn pending(stack: Seq<Seq<Point>>, ccw: bool) -> Pieces
    decreases stack.len(),
{
    if stack.len() == 0 {
        Ok(Seq::empty())
    } else {
        join(pieces_spec(stack.last(), ccw), pending(stack.drop_last(), ccw))
    }
}

/// An upper bound on the number of steps that a polygon of `len` vertices
/// still needs: one for each piece and one for each cut.
pub open spec fn work_of(len: int) -> int {
    if len >= 3 {
        2 * len - 5
    } else {
        1
    }
}

/// An upper bound on the number of steps that the polygons on the stack
/// still need.
pub open spec fn work(stack: Seq<Seq<Point>>) -> int
    decreases stack.len(),
{
    if stack.len() == 0 {
        0
    } else {
        work(stack.drop_last()) + work_of(stack.last().len() as int)
    }
}

pub open spec fn views(polys: Seq<Vec<Point>>) -> Seq<Seq<Point>> {
    Seq::new(polys.len(), |k: int| polys[k]@)
}

proof fn lemma_work_nonnegative(stack: Seq<Seq<Point>>)
    ensures
        work(stack) >= 0,
    decreases stack.len(),
{
    if stack.len() > 0 {
        lemma_work_nonnegative(stack.drop_last());
    }
}

proof fn lemma_join_associative(a: Pieces, b: Pieces, c: Pieces)
    ensures
        join(join(a, b), c) == join(a, join(b, c)),
{
    match (a, b, c) {
        (Ok(x), Ok(y), Ok(z)) => {
            assert((x + y) + z =~= x + (y + z));
        },
        _ => {},
    }
}

/// What a polygon put on the stack adds to it.
proof fn lemma_pending_push(below: Seq<Seq<Point>>, top: Seq<Point>, ccw: bool)
    ensures
        pending(below.push(top), ccw) == join(pieces_spec(top, ccw), pending(below, ccw)),
        work(below.push(top)) == work(below) + work_of(top.len() as int),
{
    let stack = below.push(top);
    assert(stack.drop_last() =~= below);
    assert(stack.last() == top);
}

/// A polygon without a notch moves from the stack to the pieces found.
proof fn lemma_emit(found: Seq<Seq<Point>>, below: Seq<Seq<Point>>, current: Seq<Point>, ccw: bool)
    requires
        current.len() >= 3,
        first_notch(current, ccw) is None,
    ensures
        join(Ok(found.push(current)), pending(below, ccw)) == join(
            Ok(found),
            pending(below.push(current), ccw),
        ),
        0 <= work(below) < work(below.push(current)),
{
    lemma_pending_push(below, current, ccw);
    lemma_work_nonnegative(below);
    assert(pieces_spec(current, ccw) == Ok::<Seq<Seq<Point>>, DegenerateGeometry>(seq![current]));
    lemma_join_associative(Ok(found), Ok(seq![current]), pending(below, ccw));
    assert(found + seq![current] =~= found.push(current));
}

/// A polygon that is cut gives way to its two sides, the nearer on top.
proof fn lemma_split(below: Seq<Seq<Point>>, current: Seq<Point>, i: int, j: int, ccw: bool)
    requires
        current.len() >= 3,
        first_notch(current, ccw) == Some(i),
        best_partner(current, ccw, i) == Some(j),
    ensures
        arc(current, i, j).len() >= 3,
        arc(current, j, i).len() >= 3,
        pending(below.push(arc(current, j, i)).push(arc(current, i, j)), ccw) == pending(
            below.push(current),
            ccw,
        ),
        0 <= work(below.push(arc(current, j, i)).push(arc(current, i, j))) < work(
            below.push(current),
        ),
{
    let near = arc(current, i, j);
    let far = arc(current, j, i);
    lemma_first_notch_from(current, ccw, 0);
    lemma_best_partner_upto(current, ccw, i, current.len() as int);
    lemma_arc_lengths(current, ccw, i, j);
    lemma_pending_push(below, current, ccw);
    lemma_pending_push(below, far, ccw);
    lemma_pending_push(below.push(far), near, ccw);
    lemma_work_nonnegative(below);
    assert(pieces_spec(current, ccw) == join(pieces_spec(near, ccw), pieces_spec(far, ccw)));
    lemma_join_associative(pieces_spec(near, ccw), pieces_spec(far, ccw), pending(below, ccw));
}

/// A stack that holds only the polygon stands for its decomposition.
proof fn lemma_start(poly: Seq<Point>, ccw: bool)
    ensures
        join(Ok(Seq::empty()), pending(Seq::<Seq<Point>>::empty().push(poly), ccw)) == pieces_spec(
            poly,
            ccw,
        ),
{
    lemma_pending_push(Seq::empty(), poly, ccw);
    match pieces_spec(poly, ccw) {
        Ok(d) => {
            assert(Seq::<Seq<Point>>::empty() + d =~= d);
            assert(d + Seq::<Seq<Point>>::empty() =~= d);
            assert(Seq::<Seq<Point>>::empty() + (d + Seq::<Seq<Point>>::empty()) =~= d);
        },
        Err(_) => {},
    }
}

/// Once the stack is empty the pieces found are the decomposition.
proof fn lemma_finish(found: Seq<Seq<Point>>, poly: Seq<Point>, ccw: bool)
    requires
        join(Ok(found), pending(Seq::empty(), ccw)) == pieces_spec(poly, ccw),
    ensures
        pieces_spec(poly, ccw) == Ok::<Seq<Seq<Point>>, DegenerateGeometry>(found),
{
    assert(found + Seq::<Seq<Point>>::empty() =~= found);
}

/// A notch without a partner fails the whole decomposition.
proof fn lemma_stuck(
    found: Seq<Seq<Point>>,
    below: Seq<Seq<Point>>,
    current: Seq<Point>,
    i: int,
    ccw: bool,
)
    requires
        current.len() >= 3,
        first_notch(current, ccw) == Some(i),
        best_partner(current, ccw, i) is None,
    ensures
        join(Ok(found), pending(below.push(current), ccw)) == Err::<
            Seq<Seq<Point>>,
            DegenerateGeometry,
        >(DegenerateGeometry::NoDiagonal { notch: current[i] }),
{
    lemma_pending_push(below, current, ccw);
}

/// The doubled signed area of the triangle `a`, `b`, `c`, counted with the
/// winding.
pub fn oriented(ccw: bool, a: Point, b: Point, c: Point) -> (t: i128)
    ensures
        t == turn(ccw, a, b, c),
{
    let signed = area(a, b, c);
    if ccw {
        signed
    } else {
        -signed
    }
}

/// Whether the vertex `i` is a notch of a polygon that winds as `ccw` says.
pub fn is_reflex(poly: &Vec<Point>, ccw: bool, i: usize) -> (r: bool)
    requires
        i < poly@.len(),
    ensures
        r == is_notch(poly@, ccw, i as int),
{
    let n: usize = poly.len();
    let before = if i == 0 {
        poly[n - 1]
    } else {
        poly[i - 1]
    };
    let after = if i + 1 == n {
        poly[0]
    } else {
        poly[i + 1]
    };
    oriented(ccw, before, poly[i], after) < 0
}

/// The first notch of the polygon in vertex order.
pub fn find_notch(poly: &Vec<Point>, ccw: bool) -> (found: Option<usize>)
    ensures
        match found {
            Some(i) => first_notch(poly@, ccw) == Some(i as int) && i < poly@.len(),
            None => first_notch(poly@, ccw) is None,
        },
{
    let mut i: usize = 0;
    while i < poly.len()
        invariant
            i <= poly@.len(),
            first_notch(poly@, ccw) == first_notch_from(poly@, ccw, i as int),
        decreases poly@.len() - i,
    {
        if is_reflex(poly, ccw, i) {
            return Some(i);
        }
        i += 1;
    }
    None
}

fn inside_box(p: Point, q: Point, a: Point) -> (r: bool)
    ensures
        r == in_box(p, q, a),
{
    let in_x = (p.x <= a.x && a.x <= q.x) || (q.x <= a.x && a.x <= p.x);
    let in_y = (p.y <= a.y && a.y <= q.y) || (q.y <= a.y && a.y <= p.y);
    in_x && in_y
}

/// Whether the closed segments `pq` and `ab` have a point in common.
pub fn segments_touch(p: Point, q: Point, a: Point, b: Point) -> (r: bool)
    ensures
        r == segments_touch_spec(p, q, a, b),
{
    let o1 = area(p, q, a);
    let o2 = area(p, q, b);
    let o3 = area(a, b, p);
    let o4 = area(a, b, q);
    let cross_pq = (o1 > 0 && o2 < 0) || (o1 < 0 && o2 > 0);
    let cross_ab = (o3 > 0 && o4 < 0) || (o3 < 0 && o4 > 0);
    (cross_pq && cross_ab) || (o1 == 0 && inside_box(p, q, a)) || (o2 == 0 && inside_box(p, q, b))
        || (o3 == 0 && inside_box(a, b, p)) || (o4 == 0 && inside_box(a, b, q))
}

/// Whether the diagonal from vertex `j` to vertex `i` leaves `j` towards
/// the inside of the polygon.
pub fn in_cone(poly: &Vec<Point>, ccw: bool, j: usize, i: usize) -> (r: bool)
    requires
        i < poly@.len(),
        j < poly@.len(),
    ensures
        r == in_cone_spec(poly@, ccw, j as int, i as int),
{
    let n: usize = poly.len();
    let before = if j == 0 {
        poly[n - 1]
    } else {
        poly[j - 1]
    };
    let after = if j + 1 == n {
        poly[0]
    } else {
        poly[j + 1]
    };
    if oriented(ccw, before, poly[j], after) >= 0 {
        oriented(ccw, poly[j], poly[i], before) > 0 && oriented(ccw, poly[i], poly[j], after) > 0
    } else {
        !(oriented(ccw, poly[j], poly[i], after) >= 0 && oriented(ccw, poly[i], poly[j], before)
            >= 0)
    }
}

/// Whether cutting from the notch `i` to `j` leaves no notch at `i`.
pub fn resolves_notch(poly: &Vec<Point>, ccw: bool, i: usize, j: usize) -> (r: bool)
    requires
        i < poly@.len(),
        j < poly@.len(),
    ensures
        r == resolves(poly@, ccw, i as int, j as int),
{
    let n: usize = poly.len();
    let before = if i == 0 {
        poly[n - 1]
    } else {
        poly[i - 1]
    };
    let after = if i + 1 == n {
        poly[0]
    } else {
        poly[i + 1]
    };
    oriented(ccw, before, poly[i], poly[j]) >= 0 && oriented(ccw, poly[j], poly[i], after) >= 0
}

/// Whether the polygon may be cut from the vertex `i` to the vertex `j`.
pub fn can_split(poly: &Vec<Point>, ccw: bool, i: usize, j: usize) -> (r: bool)
    requires
        i < poly@.len(),
        j < poly@.len(),
    ensures
        r == valid_diagonal(poly@, ccw, i as int, j as int),
{
    let n: usize = poly.len();
    let before: usize = if i == 0 {
        n - 1
    } else {
        i - 1
    };
    let after: usize = if i + 1 == n {
        0
    } else {
        i + 1
    };
    if j == i || j == after || j == before {
        return false;
    }
    if !in_cone(poly, ccw, i, j) || !in_cone(poly, ccw, j, i) {
        return false;
    }
    let mut k: usize = 0;
    while k < n
        invariant
            n == poly@.len(),
            i < n,
            j < n,
            k <= n,
            forall|m: int| 0 <= m < k ==> #[trigger] edge_clear(poly@, i as int, j as int, m),
        decreases n - k,
    {
        let next: usize = if k + 1 == n {
            0
        } else {
            k + 1
        };
        if k != i && k != j && next != i && next != j {
            if segments_touch(poly[i], poly[j], poly[k], poly[next]) {
                assert(!edge_clear(poly@, i as int, j as int, k as int));
                return false;
            }
        }
        k += 1;
    }
    true
}

/// The square of the distance between two points.
pub fn distance_squared(a: Point, b: Point) -> (d: i128)
    ensures
        d == dist2(a, b),
{
    let dx: i128 = a.x as i128 - b.x as i128;
    let dy: i128 = a.y as i128 - b.y as i128;
    assert(0 <= dx * dx < 0x1_0000_0000_0000_0000) by (nonlinear_arith)
        requires
            -0x1_0000_0000 < dx < 0x1_0000_0000,
    ;
    assert(0 <= dy * dy < 0x1_0000_0000_0000_0000) by (nonlinear_arith)
        requires
            -0x1_0000_0000 < dy < 0x1_0000_0000,
    ;
    dx * dx + dy * dy
}

/// Whether `j` is a better partner for the notch `i` than `m`.
pub fn is_better(poly: &Vec<Point>, ccw: bool, i: usize, j: usize, m: usize) -> (r: bool)
    requires
        i < poly@.len(),
        j < poly@.len(),
        m < poly@.len(),
    ensures
        r == better(poly@, ccw, i as int, j as int, m as int),
{
    let here = resolves_notch(poly, ccw, i, j);
    let there = resolves_notch(poly, ccw, i, m);
    (here && !there) || (here == there && distance_squared(poly[i], poly[j]) < distance_squared(
        poly[i],
        poly[m],
    ))
}

/// The best partner of the notch `i`: a vertex with a valid diagonal,
/// first one whose cut resolves the notch if there is any, then the
/// nearest, and of several equally good the first.
pub fn find_partner(poly: &Vec<Point>, ccw: bool, i: usize) -> (found: Option<usize>)
    requires
        i < poly@.len(),
    ensures
        match found {
            Some(j) => best_partner(poly@, ccw, i as int) == Some(j as int) && j < poly@.len(),
            None => best_partner(poly@, ccw, i as int) is None,
        },
{
    let n: usize = poly.len();
    let mut best: Option<usize> = None;
    let mut j: usize = 0;
    while j < n
        invariant
            n == poly@.len(),
            i < n,
            j <= n,
            match best {
                Some(b) => best_partner_upto(poly@, ccw, i as int, j as int) == Some(b as int) && b
                    < j,
                None => best_partner_upto(poly@, ccw, i as int, j as int) is None,
            },
        decreases n - j,
    {
        if can_split(poly, ccw, i, j) {
            let wins = match best {
                None => true,
                Some(b) => is_better(poly, ccw, i, j, b),
            };
            if wins {
                best = Some(j);
            }
        }
        j += 1;
    }
    best
}

/// The vertices from `i` forward to `j`, both included, around the loop.
pub fn arc_of(poly: &Vec<Point>, i: usize, j: usize) -> (side: Vec<Point>)
    requires
        i < poly@.len(),
        j < poly@.len(),
    ensures
        side@ == arc(poly@, i as int, j as int),
{
    let n: usize = poly.len();
    let mut side: Vec<Point> = Vec::new();
    if i <= j {
        let mut k: usize = i;
        while k <= j
            invariant
                n == poly@.len(),
                i <= k <= j + 1,
                j < n,
                side@ == poly@.subrange(i as int, k as int),
            decreases j + 1 - k,
        {
            side.push(poly[k]);
            assert(side@ =~= poly@.subrange(i as int, k + 1));
            k += 1;
        }
    } else {
        let mut k: usize = i;
        while k < n
            invariant
                n == poly@.len(),
                i <= k <= n,
                side@ == poly@.subrange(i as int, k as int),
            decreases n - k,
        {
            side.push(poly[k]);
            assert(side@ =~= poly@.subrange(i as int, k + 1));
            k += 1;
        }
        let mut m: usize = 0;
        while m <= j
            invariant
                n == poly@.len(),
                m <= j + 1,
                j < n,
                side@ == poly@.subrange(i as int, n as int) + poly@.subrange(0, m as int),
            decreases j + 1 - m,
        {
            side.push(poly[m]);
            assert(side@ =~= poly@.subrange(i as int, n as int) + poly@.subrange(0, m + 1));
            m += 1;
        }
    }
    side
}

/// Splits the polygon into convex pieces. The polygons still to be split
/// wait on a stack; the side from the notch to its partner is taken first.
pub fn decompose_poly(poly: &Vec<Point>) -> (pieces: Result<Vec<Vec<Point>>, DegenerateGeometry>)
    ensures
        match pieces {
            Ok(found) => decompose_spec(poly@) == Ok::<Seq<Seq<Point>>, DegenerateGeometry>(
                views(found@),
            ),
            Err(e) => decompose_spec(poly@) == Err::<Seq<Seq<Point>>, DegenerateGeometry>(e),
        },
        pieces matches Ok(found) ==> forall|k: int|
            0 <= k < found@.len() ==> is_convex((#[trigger] found@[k])@, winds_left(poly@))
                && found@[k]@.len() >= 3,
        pieces matches Ok(found) ==> total_area2(views(found@)) == area2(poly@),
        pieces matches Ok(found) ==> 1 <= found@.len() <= poly@.len() - 2,
        pieces matches Ok(found) ==> is_simple(poly@) ==> forall|k: int|
            0 <= k < found@.len() ==> is_simple((#[trigger] found@[k])@),
{
    let ccw = signed_area2(poly) >= 0;
    proof {
        lemma_pieces_convex(poly@, ccw);
        lemma_pieces_preserve_area(poly@, ccw);
        lemma_piece_count(poly@, ccw);
        if is_simple(poly@) {
            lemma_pieces_simple(poly@, ccw);
        }
    }
    if poly.len() < 3 {
        return Err(DegenerateGeometry::TooFewVertices { count: poly.len() });
    }
    let mut found: Vec<Vec<Point>> = Vec::new();
    let mut stack: Vec<Vec<Point>> = Vec::new();
    let whole = arc_of(poly, 0, poly.len() - 1);
    assert(whole@ =~= poly@);
    stack.push(whole);
    proof {
        assert(views(stack@) =~= Seq::<Seq<Point>>::empty().push(poly@));
        assert(views(found@) =~= Seq::<Seq<Point>>::empty());
        lemma_start(poly@, ccw);
    }
    while stack.len() > 0
        invariant
            ccw == winds_left(poly@),
            forall|k: int| 0 <= k < stack@.len() ==> (#[trigger] stack@[k])@.len() >= 3,
            join(Ok(views(found@)), pending(views(stack@), ccw)) == pieces_spec(poly@, ccw),
        decreases work(views(stack@)),
    {
        let ghost old_found = views(found@);
        let ghost old_stack = views(stack@);
        let current = stack.pop().unwrap();
        let ghost below = views(stack@);
        assert(old_stack =~= below.push(current@));
        match find_notch(&current, ccw) {
            None => {
                proof {
                    lemma_emit(old_found, below, current@, ccw);
                }
                found.push(current);
                assert(views(found@) =~= old_found.push(current@));
            },
            Some(i) => {
                match find_partner(&current, ccw, i) {
                    None => {
                        proof {
                            lemma_stuck(old_found, below, current@, i as int, ccw);
                        }
                        return Err(DegenerateGeometry::NoDiagonal { notch: current[i] });
                    },
                    Some(j) => {
                        proof {
                            lemma_split(below, current@, i as int, j as int, ccw);
                        }
                        let near = arc_of(&current, i, j);
                        let far = arc_of(&current, j, i);
                        stack.push(far);
                        stack.push(near);
                        assert(views(stack@) =~= below.push(far@).push(near@));
                    },
                }
            },
        }
    }
    proof {
        assert(views(stack@) =~= Seq::<Seq<Point>>::empty());
        lemma_finish(views(found@), poly@, ccw);
        assert forall|k: int| 0 <= k < found@.len() implies is_convex(
            (#[trigger] found@[k])@,
            winds_left(poly@),
        ) && found@[k]@.len() >= 3 && (is_simple(poly@) ==> is_simple(found@[k]@)) by {
            assert(views(found@)[k] == found@[k]@);
        }
    }
    Ok(found)
}

} // verus!
