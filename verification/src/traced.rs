//! Contours traced on a grid: every segment belongs to one neighbourhood
//! that its start point alone determines, so the bag of a grid has no
//! branch point, and every step is one of eight.

use vstd::prelude::*;
use crate::classifier::{cell_segments, Segment};
use crate::contour::{cell_contour, cell_index, column_contour, contour_spec, contour_upto};
use crate::cycles::{distinct_starts, is_cycle_of, loop_edge};
use crate::grid::GridView;
use crate::point::{lemma_mod_turns, Point};
use crate::runs::{step_x, step_y};
use crate::simplify::{aligned, primitive_steps, same_direction};

verus! {

/// The neighbourhood that a segment starting at `p` belongs to. A start
/// point lies between two cells of which one is solid and one is empty;
/// which of the two is solid tells on which side of the point the
/// neighbourhood lies.
pub open spec fn home(g: GridView, p: Point) -> (int, int) {
    let x = p.x as int;
    let y = p.y as int;
    if x % 2 != 0 {
        // Between the cells (a, b) and (a + 1, b), on the bottom side of the
        // neighbourhood (a, b) and on the top side of the one below it.
        let a = (x - 1) / 2;
        let b = y / 2;
        if g.solid(a + 1, b) {
            (a, b)
        } else {
            (a, b - 1)
        }
    } else {
        // Between the cells (a, b) and (a, b + 1), on the left side of the
        // neighbourhood (a, b) and on the right side of the one before it.
        let a = x / 2;
        let b = (y - 1) / 2;
        if g.solid(a, b) {
            (a, b)
        } else {
            (a - 1, b)
        }
    }
}

/// Whether `(dx, dy)` is one of the eight steps of a traced contour: two
/// half-grid units along an axis, or one along each.
pub open spec fn unit_step(dx: int, dy: int) -> bool {
    ||| (dx == 2 || dx == -2) && dy == 0
    ||| dx == 0 && (dy == 2 || dy == -2)
    ||| (dx == 1 || dx == -1) && (dy == 1 || dy == -1)
}

pub open spec fn unit_segment(s: Segment) -> bool {
    unit_step(s.end.x - s.start.x, s.end.y - s.start.y)
}

/// Whether the neighbourhood `(i, j)` comes before `(before_i, before_j)`
/// in visiting order.
pub open spec fn visited(c: (int, int), before_i: int, before_j: int) -> bool {
    c.0 < before_i || (c.0 == before_i && c.1 < before_j)
}

/// What is known of a part of the contour: it has no branch point, its
/// segments belong to neighbourhoods visited before `(i, j)`, and each
/// is a unit step long.
pub open spec fn traced_before(g: GridView, bag: Seq<Segment>, i: int, j: int) -> bool {
    &&& distinct_starts(bag)
    &&& forall|a: int| 0 <= a < bag.len() ==> visited(home(g, (#[trigger] bag[a]).start), i, j)
    &&& forall|a: int| 0 <= a < bag.len() ==> unit_segment(#[trigger] bag[a])
}

/// The segments of one neighbourhood start at different points, belong to
/// that neighbourhood, and are unit steps.
pub proof fn lemma_cell_traced(g: GridView, i: int, j: int)
    requires
        g.wf(),
        0 <= i && i + 1 < g.width,
        0 <= j && j + 1 < g.height,
    ensures
        distinct_starts(cell_contour(g, i, j)),
        forall|k: int|
            0 <= k < cell_contour(g, i, j).len() ==> home(
                g,
                (#[trigger] cell_contour(g, i, j)[k]).start,
            ) == (i, j),
        forall|k: int|
            0 <= k < cell_contour(g, i, j).len() ==> unit_segment(
                #[trigger] cell_contour(g, i, j)[k],
            ),
{
    let index = cell_index(g, i, j);
    let local = cell_segments(index);
    let c = cell_contour(g, i, j);
    assert(0 <= index <= 15);
    assert(local.len() <= 2);
    assert forall|k: int| 0 <= k < c.len() implies home(g, (#[trigger] c[k]).start) == (i, j)
        && unit_segment(c[k]) by {
        let s = local[k];
        assert(c[k].start.x == s.start.x + 2 * i);
        assert(c[k].start.y == s.start.y + 2 * j);
        assert(c[k].end.x == s.end.x + 2 * i);
        assert(c[k].end.y == s.end.y + 2 * j);
    }
    assert forall|a: int, b: int| 0 <= a < c.len() && 0 <= b < c.len() && a != b implies (
    #[trigger] c[a]).start != (#[trigger] c[b]).start by {
        assert(c[a].start.x == local[a].start.x + 2 * i);
        assert(c[b].start.x == local[b].start.x + 2 * i);
        assert(c[a].start.y == local[a].start.y + 2 * j);
        assert(c[b].start.y == local[b].start.y + 2 * j);
    }
}

/// Segments of a neighbourhood not yet visited can be added to a part of
/// the contour.
proof fn lemma_add_cell(g: GridView, bag: Seq<Segment>, i: int, j: int)
    requires
        g.wf(),
        0 <= i && i + 1 < g.width,
        0 <= j && j + 1 < g.height,
        traced_before(g, bag, i, j),
    ensures
        traced_before(g, bag + cell_contour(g, i, j), i, j + 1),
{
    let c = cell_contour(g, i, j);
    let all = bag + c;
    lemma_cell_traced(g, i, j);
    assert forall|a: int| 0 <= a < all.len() implies visited(
        home(g, (#[trigger] all[a]).start),
        i,
        j + 1,
    ) && unit_segment(all[a]) by {
        if a < bag.len() {
            assert(all[a] == bag[a]);
        } else {
            assert(all[a] == c[a - bag.len()]);
        }
    }
    assert forall|a: int, b: int| 0 <= a < all.len() && 0 <= b < all.len() && a != b implies (
    #[trigger] all[a]).start != (#[trigger] all[b]).start by {
        if a < bag.len() {
            assert(all[a] == bag[a]);
        } else {
            assert(all[a] == c[a - bag.len()]);
        }
        if b < bag.len() {
            assert(all[b] == bag[b]);
        } else {
            assert(all[b] == c[b - bag.len()]);
        }
    }
}

/// A column of neighbourhoods can be added to the columns before it.
proof fn lemma_add_column(g: GridView, bag: Seq<Segment>, i: int, rows: int)
    requires
        g.wf(),
        0 <= i && i + 1 < g.width,
        0 <= rows <= g.height - 1,
        traced_before(g, bag, i, 0),
    ensures
        traced_before(g, bag + column_contour(g, i, rows), i, rows),
    decreases rows,
{
    if rows == 0 {
        assert(bag + column_contour(g, i, rows) =~= bag);
    } else {
        lemma_add_column(g, bag, i, rows - 1);
        lemma_add_cell(g, bag + column_contour(g, i, rows - 1), i, rows - 1);
        assert(bag + column_contour(g, i, rows) =~= (bag + column_contour(g, i, rows - 1))
            + cell_contour(g, i, rows - 1));
    }
}

proof fn lemma_contour_upto_traced(g: GridView, columns: int)
    requires
        g.wf(),
        0 <= columns <= g.width - 1,
    ensures
        traced_before(g, contour_upto(g, columns), columns, 0),
    decreases columns,
{
    if columns > 0 {
        lemma_contour_upto_traced(g, columns - 1);
        let bag = contour_upto(g, columns - 1);
        if g.height >= 1 {
            lemma_add_column(g, bag, columns - 1, g.height - 1);
        } else {
            assert(column_contour(g, columns - 1, g.height - 1) =~= Seq::<Segment>::empty());
            assert(bag + column_contour(g, columns - 1, g.height - 1) =~= bag);
        }
    }
}

/// The contour of a grid has no branch point, and each of its segments is
/// a unit step long.
pub proof fn lemma_contour_traced(g: GridView)
    requires
        g.wf(),
    ensures
        distinct_starts(contour_spec(g)),
        forall|a: int|
            0 <= a < contour_spec(g).len() ==> unit_segment(#[trigger] contour_spec(g)[a]),
{
    if g.width >= 1 {
        lemma_contour_upto_traced(g, g.width - 1);
    }
}

/// Two unit steps that point the same way are equal.
pub proof fn lemma_unit_steps_primitive(ux: int, uy: int, vx: int, vy: int, s: int, t: int)
    requires
        unit_step(ux, uy),
        unit_step(vx, vy),
        aligned(s, ux, uy, t, vx, vy),
    ensures
        ux == vx,
        uy == vy,
{
    assert(s * ux == t * vx && s * uy == t * vy);
    assert(s * 0 == 0 && t * 0 == 0);
    assert(s * 1 == s && t * 1 == t);
    assert(s * 2 == 2 * s && t * 2 == 2 * t);
    assert(s * (-1) == -s && t * (-1) == -t);
    assert(s * (-2) == -2 * s && t * (-2) == -2 * t);
}

/// A loop whose edges are unit steps has primitive steps.
pub proof fn lemma_unit_loop_primitive(l: Seq<Point>)
    requires
        l.len() > 0,
        forall|k: int| 0 <= k < l.len() ==> unit_segment(#[trigger] loop_edge(l, k)),
    ensures
        primitive_steps(l),
{
    let n = l.len() as int;
    assert forall|j: int, k: int|
        0 <= j < l.len() && 0 <= k < l.len() && #[trigger] same_direction(l, j, k) implies step_x(
        l,
        j,
    ) == step_x(l, k) && step_y(l, j) == step_y(l, k) by {
        lemma_loop_step(l, j);
        lemma_loop_step(l, k);
        let (s, t) = choose|s: int, t: int|
            #[trigger] aligned(s, step_x(l, j), step_y(l, j), t, step_x(l, k), step_y(l, k));
        lemma_unit_steps_primitive(
            step_x(l, j),
            step_y(l, j),
            step_x(l, k),
            step_y(l, k),
            s,
            t,
        );
    }
}

/// The step that leaves a position of the loop is the edge that leaves it.
proof fn lemma_loop_step(l: Seq<Point>, k: int)
    requires
        0 <= k < l.len(),
    ensures
        step_x(l, k) == loop_edge(l, k).end.x - loop_edge(l, k).start.x,
        step_y(l, k) == loop_edge(l, k).end.y - loop_edge(l, k).start.y,
{
    let n = l.len() as int;
    lemma_mod_turns(n, k, 0);
    if k + 1 < n {
        lemma_mod_turns(n, k + 1, 0);
    } else {
        lemma_mod_turns(n, 0, 1);
    }
}

/// A loop made of the segments of a bag of unit steps has primitive steps.
pub proof fn lemma_traced_loop_primitive(l: Seq<Point>, bag: Seq<Segment>)
    requires
        is_cycle_of(l, bag),
        forall|a: int| 0 <= a < bag.len() ==> unit_segment(#[trigger] bag[a]),
    ensures
        primitive_steps(l),
{
    assert forall|k: int| 0 <= k < l.len() implies unit_segment(#[trigger] loop_edge(l, k)) by {
        assert(bag.contains(loop_edge(l, k)));
        let a = choose|a: int| 0 <= a < bag.len() && bag[a] == loop_edge(l, k);
        assert(unit_segment(bag[a]));
    }
    lemma_unit_loop_primitive(l);
}

} // verus!
