//! The vertex simplifier: drops every vertex that continues the step of its
//! predecessor unchanged.

use vstd::prelude::*;
use crate::error::DegenerateGeometry;
use crate::point::{at_spec, cross, lemma_mod_turns, Point};
use crate::polygon::area2;
use crate::runs::{
    all_redundant, kept_indices, lemma_kept_range_empty, lemma_at_periodic, lemma_first_kept, lemma_kept_indices,
    lemma_path_sum, lemma_ring_sum_is_area, lemma_ring_sum_periodic, lemma_ring_sum_split,
    lemma_run, lemma_step_reduced, ring_sum, step_x, step_y,
};
use vstd::arithmetic::div_mod::{lemma_mod_add_multiples_vanish, lemma_small_mod};

verus! {

/// Whether the step from `a` to `b` equals the step from `b` to `c`.
pub open spec fn collinear_spec(a: Point, b: Point, c: Point) -> bool {
    b.x - a.x == c.x - b.x && b.y - a.y == c.y - b.y
}

/// Whether the vertex at circular position `k` repeats the step that led to it.
pub open spec fn redundant(l: Seq<Point>, k: int) -> bool {
    collinear_spec(at_spec(l, k - 1), at_spec(l, k), at_spec(l, k + 1))
}

/// The vertices at the circular positions `lo..hi` that are not redundant,
/// in order.
pub open spec fn kept_range(l: Seq<Point>, lo: int, hi: int) -> Seq<Point>
    decreases hi - lo,
{
    if hi <= lo {
        Seq::empty()
    } else if redundant(l, hi - 1) {
        kept_range(l, lo, hi - 1)
    } else {
        kept_range(l, lo, hi - 1).push(at_spec(l, hi - 1))
    }
}

/// The loop without its redundant vertices. Which vertices are redundant is
/// decided on the loop as given, before any of them is removed.
pub open spec fn minimal_spec(l: Seq<Point>) -> Seq<Point> {
    kept_range(l, 0, l.len() as int)
}

/// Simplification adds nothing: what is kept of the first `hi` vertices
/// are vertices of the loop, no more than `hi` of them.
pub proof fn lemma_kept_are_vertices(l: Seq<Point>, hi: int)
    requires
        0 <= hi <= l.len(),
    ensures
        kept_range(l, 0, hi).len() <= hi,
        forall|a: int|
            0 <= a < kept_range(l, 0, hi).len() ==> l.contains(#[trigger] kept_range(l, 0, hi)[a]),
    decreases hi,
{
    if hi > 0 {
        lemma_kept_are_vertices(l, hi - 1);
        lemma_small_mod((hi - 1) as nat, l.len());
        assert(at_spec(l, hi - 1) == l[hi - 1]);
    }
}

/// Simplification leaves the doubled signed area of the loop as it was.
pub proof fn lemma_minimal_preserves_area(l: Seq<Point>)
    ensures
        area2(minimal_spec(l)) == area2(l),
{
    let n = l.len() as int;
    if n == 0 {
    } else if minimal_spec(l).len() == 0 {
        // Every vertex is redundant: the loop is one straight run that ends
        // where it starts.
        lemma_kept_range_empty(l, 0, n);
        assert(all_redundant(l, 1, n));
        lemma_run(l, 0, n);
        lemma_at_periodic(l, 0);
        lemma_ring_sum_is_area(l);
        assert(cross(at_spec(l, 0), at_spec(l, 0)) == 0) by (nonlinear_arith);
    } else {
        let f = lemma_first_kept(l);
        let kept = kept_range(l, f, f + n);
        let j = kept_indices(l, f, f + n);
        let r = kept.len() as int;
        lemma_kept_indices(l, f, f + n);
        lemma_path_sum(l, f, f + n, r - 1);
        lemma_run(l, j[r - 1], f + n);
        lemma_at_periodic(l, f);
        lemma_ring_sum_split(l, f, j[r - 1], f + n);
        assert(area2(kept) == ring_sum(l, f, f + n));
        lemma_ring_sum_split(l, f, n, f + n);
        lemma_ring_sum_periodic(l, 0, f);
        lemma_ring_sum_split(l, 0, f, n);
        lemma_ring_sum_is_area(l);
    }
}

/// Whether `s` times the first vector equals `t` times the second, for
/// positive `s` and `t`.
pub open spec fn aligned(s: int, ax: int, ay: int, t: int, bx: int, by: int) -> bool {
    s >= 1 && t >= 1 && s * ax == t * bx && s * ay == t * by
}

/// Whether the steps that leave the positions `j` and `k` point the same
/// way: some positive multiple of one equals some positive multiple of the
/// other.
pub open spec fn same_direction(l: Seq<Point>, j: int, k: int) -> bool {
    exists|s: int, t: int|
        #[trigger] aligned(s, step_x(l, j), step_y(l, j), t, step_x(l, k), step_y(l, k))
}

/// A loop of which any two steps that point the same way are equal. The
/// loops traced on a grid are of this kind: each of their steps is one of
/// eight, two half-grid units along an axis or one unit along a diagonal.
pub open spec fn primitive_steps(l: Seq<Point>) -> bool {
    forall|j: int, k: int|
        0 <= j < l.len() && 0 <= k < l.len() && #[trigger] same_direction(l, j, k) ==> step_x(l, j)
            == step_x(l, k) && step_y(l, j) == step_y(l, k)
}

/// A loop without a redundant vertex is its own simplification.
pub proof fn lemma_nothing_to_remove(l: Seq<Point>, hi: int)
    requires
        0 <= hi <= l.len(),
        forall|a: int| 0 <= a < hi ==> !#[trigger] redundant(l, a),
    ensures
        kept_range(l, 0, hi) == l.subrange(0, hi),
    decreases hi,
{
    if hi > 0 {
        lemma_nothing_to_remove(l, hi - 1);
        lemma_small_mod((hi - 1) as nat, l.len());
        assert(!redundant(l, hi - 1));
        assert(kept_range(l, 0, hi) =~= l.subrange(0, hi));
    } else {
        assert(kept_range(l, 0, hi) =~= l.subrange(0, hi));
    }
}

/// Where a vertex is redundant, fewer vertices are kept than there are.
proof fn lemma_something_to_remove(l: Seq<Point>, a: int, hi: int)
    requires
        0 <= a < hi <= l.len(),
        redundant(l, a),
    ensures
        kept_range(l, 0, hi).len() < hi,
    decreases hi,
{
    lemma_kept_are_vertices(l, hi - 1);
    if a < hi - 1 {
        lemma_something_to_remove(l, a, hi - 1);
    }
}

/// The loops that simplification leaves as they are, are those without a
/// redundant vertex.
pub proof fn lemma_fixed_point(l: Seq<Point>)
    ensures
        minimal_spec(l) == l <==> forall|a: int| 0 <= a < l.len() ==> !#[trigger] redundant(l, a),
{
    let n = l.len() as int;
    if forall|a: int| 0 <= a < l.len() ==> !#[trigger] redundant(l, a) {
        lemma_nothing_to_remove(l, n);
        assert(l.subrange(0, n) =~= l);
    } else {
        let a = choose|a: int| 0 <= a < l.len() && #[trigger] redundant(l, a);
        lemma_something_to_remove(l, a, n);
    }
}

/// In the simplification of a loop with primitive steps no vertex is
/// redundant.
proof fn lemma_minimal_vertex_stays(l: Seq<Point>, a: int)
    requires
        primitive_steps(l),
        minimal_spec(l).len() >= 2,
        0 <= a < minimal_spec(l).len(),
    ensures
        !redundant(minimal_spec(l), a),
{
    let n = l.len() as int;
    let f = lemma_first_kept(l);
    let kept = minimal_spec(l);
    let j = kept_indices(l, f, f + n);
    let r = kept.len() as int;
    lemma_kept_indices(l, f, f + n);
    let m = j[a];
    // The vertex after `a`, and how far it lies along the step that leaves `m`.
    let t = if a + 1 < r {
        j[a + 1] - m
    } else {
        f + n - m
    };
    if a + 1 < r {
        lemma_run(l, m, j[a + 1]);
        lemma_small_mod((a + 1) as nat, r as nat);
    } else {
        lemma_run(l, m, f + n);
        lemma_at_periodic(l, f);
        lemma_mod_add_multiples_vanish(0, r);
        lemma_small_mod(0, r as nat);
        assert(r + 0 == a + 1);
    }
    let next = at_spec(kept, a + 1);
    assert(next.x == kept[a].x + t * step_x(l, m));
    assert(next.y == kept[a].y + t * step_y(l, m));
    // The vertex before `a`, and how far back it lies along the step that leads to `m`.
    let s = if a >= 1 {
        m - j[a - 1]
    } else {
        f + n - j[r - 1]
    };
    if a >= 1 {
        assert(j[a - 1] < j[a - 1 + 1]);
        lemma_run(l, j[a - 1], m);
        lemma_small_mod((a - 1) as nat, r as nat);
    } else {
        lemma_run(l, j[r - 1], f + n);
        lemma_at_periodic(l, f);
        lemma_at_periodic(l, f - 1);
        lemma_mod_add_multiples_vanish(-1, r);
        lemma_small_mod((r - 1) as nat, r as nat);
        assert(r + (-1) == r - 1);
        assert(f + n - 1 == f - 1 + n);
    }
    let prev = at_spec(kept, a - 1);
    assert(kept[a].x == prev.x + s * step_x(l, m - 1));
    assert(kept[a].y == prev.y + s * step_y(l, m - 1));
    lemma_small_mod(a as nat, r as nat);
    if redundant(kept, a) {
        assert(aligned(s, step_x(l, m - 1), step_y(l, m - 1), t, step_x(l, m), step_y(l, m)));
        lemma_step_reduced(l, m - 1);
        lemma_step_reduced(l, m);
        let j0 = (m - 1) % n;
        let k0 = m % n;
        assert(aligned(s, step_x(l, j0), step_y(l, j0), t, step_x(l, k0), step_y(l, k0)));
        assert(same_direction(l, j0, k0));
        assert(redundant(l, m));
    }
}

/// Simplification never keeps exactly one vertex: the only vertex at
/// which the step changes would change it back to itself.
proof fn lemma_never_one_kept(l: Seq<Point>)
    ensures
        minimal_spec(l).len() != 1,
{
    let n = l.len() as int;
    if minimal_spec(l).len() == 1 {
        let f = lemma_first_kept(l);
        lemma_kept_indices(l, f, f + n);
        lemma_run(l, f, f + n);
        lemma_at_periodic(l, f - 1);
        lemma_at_periodic(l, f);
        assert(f + n - 1 == f - 1 + n);
        assert(redundant(l, f));
    }
}

/// Simplification is idempotent on loops with primitive steps: simplifying
/// what it leaves changes nothing more.
pub proof fn lemma_minimal_idempotent(l: Seq<Point>)
    requires
        primitive_steps(l),
    ensures
        minimal_spec(minimal_spec(l)) == minimal_spec(l),
{
    let kept = minimal_spec(l);
    lemma_never_one_kept(l);
    if kept.len() >= 2 {
        assert forall|a: int| 0 <= a < kept.len() implies !#[trigger] redundant(kept, a) by {
            lemma_minimal_vertex_stays(l, a);
        }
    }
    lemma_fixed_point(kept);
}

/// Whether the step from `a` to `b` equals the step from `b` to `c`.
pub fn collinear(a: Point, b: Point, c: Point) -> (r: bool)
    ensures
        r == collinear_spec(a, b, c),
{
    let abx: i64 = b.x as i64 - a.x as i64;
    let aby: i64 = b.y as i64 - a.y as i64;
    let bcx: i64 = c.x as i64 - b.x as i64;
    let bcy: i64 = c.y as i64 - b.y as i64;
    abx == bcx && aby == bcy
}

/// The loop without its redundant vertices, or `TooFewVertices` when fewer
/// than three vertices are left.
pub fn minimal_vertices(v: &Vec<Point>) -> (minimal: Result<Vec<Point>, DegenerateGeometry>)
    ensures
        match minimal {
            Ok(m) => m@ == minimal_spec(v@) && 3 <= m@.len() <= v@.len() && area2(m@) == area2(
                v@,
            ),
            Err(e) => minimal_spec(v@).len() < 3 && e == (DegenerateGeometry::TooFewVertices {
                count: minimal_spec(v@).len() as usize,
            }),
        },
{
    let n: usize = v.len();
    let mut kept: Vec<Point> = Vec::new();
    let mut i: usize = 0;
    while i < n
        invariant
            n == v@.len(),
            i <= n,
            kept@ == kept_range(v@, 0, i as int),
            kept@.len() <= i,
        decreases n - i,
    {
        let before = if i == 0 {
            v[n - 1]
        } else {
            v[i - 1]
        };
        let after = if i + 1 == n {
            v[0]
        } else {
            v[i + 1]
        };
        proof {
            lemma_mod_turns(n as int, i as int, 0);
            if i == 0 {
                lemma_mod_turns(n as int, n - 1, -1);
            } else {
                lemma_mod_turns(n as int, i - 1, 0);
            }
            if i + 1 == n {
                lemma_mod_turns(n as int, 0, 1);
            } else {
                lemma_mod_turns(n as int, i + 1, 0);
            }
        }
        if !collinear(before, v[i], after) {
            kept.push(v[i]);
        }
        i += 1;
    }
    if kept.len() < 3 {
        return Err(DegenerateGeometry::TooFewVertices { count: kept.len() });
    }
    proof {
        lemma_minimal_preserves_area(v@);
        lemma_kept_are_vertices(v@, v@.len() as int);
    }
    Ok(kept)
}

} // verus!
