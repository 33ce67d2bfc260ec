//! Straight runs of a closed loop: what the redundant vertices between two
//! kept ones have in common. The positions of a loop are taken circularly,
//! so a run may pass the end of the vertex sequence.

use vstd::prelude::*;
use vstd::arithmetic::div_mod::{
    lemma_fundamental_div_mod, lemma_mod_add_multiples_vanish, lemma_mod_multiples_vanish,
    lemma_mod_twice, lemma_small_mod,
};
use crate::point::{at_spec, cross, Point};
use crate::polygon::{area2, edge_sum};
use crate::simplify::{kept_range, redundant};

verus! {

/// The x-component of the step that leaves the circular position `k`.
pub open spec fn step_x(l: Seq<Point>, k: int) -> int {
    at_spec(l, k + 1).x - at_spec(l, k).x
}

/// The y-component of the step that leaves the circular position `k`.
pub open spec fn step_y(l: Seq<Point>, k: int) -> int {
    at_spec(l, k + 1).y - at_spec(l, k).y
}

/// The shoelace terms of the edges that leave the circular positions `lo..hi`.
pub open spec fn ring_sum(l: Seq<Point>, lo: int, hi: int) -> int
    decreases hi - lo,
{
    if hi <= lo {
        0
    } else {
        ring_sum(l, lo, hi - 1) + cross(at_spec(l, hi - 1), at_spec(l, hi))
    }
}

/// Whether every vertex at the circular positions `lo..hi` is redundant.
pub open spec fn all_redundant(l: Seq<Point>, lo: int, hi: int) -> bool {
    forall|k: int| lo <= k < hi ==> #[trigger] redundant(l, k)
}

/// The circular positions in `lo..hi` whose vertices are not redundant.
pub open spec fn kept_indices(l: Seq<Point>, lo: int, hi: int) -> Seq<int>
    decreases hi - lo,
{
    if hi <= lo {
        Seq::empty()
    } else if redundant(l, hi - 1) {
        kept_indices(l, lo, hi - 1)
    } else {
        kept_indices(l, lo, hi - 1).push(hi - 1)
    }
}

/// One turn around the loop leads back to the same vertex.
pub proof fn lemma_at_periodic(l: Seq<Point>, k: int)
    requires
        l.len() > 0,
    ensures
        at_spec(l, k + l.len()) == at_spec(l, k),
        at_spec(l, k - l.len()) == at_spec(l, k),
{
    let n = l.len() as int;
    lemma_mod_add_multiples_vanish(k, n);
    lemma_mod_add_multiples_vanish(k - n, n);
    assert(n + k == k + n);
    assert(n + (k - n) == k);
}

/// One turn around the loop does not change which vertices are redundant.
pub proof fn lemma_redundant_periodic(l: Seq<Point>, k: int)
    requires
        l.len() > 0,
    ensures
        redundant(l, k + l.len()) == redundant(l, k),
{
    let n = l.len() as int;
    lemma_at_periodic(l, k - 1);
    lemma_at_periodic(l, k);
    lemma_at_periodic(l, k + 1);
    assert(k + n - 1 == k - 1 + n);
    assert(k + n + 1 == k + 1 + n);
}

pub proof fn lemma_ring_sum_split(l: Seq<Point>, lo: int, mid: int, hi: int)
    requires
        lo <= mid <= hi,
    ensures
        ring_sum(l, lo, hi) == ring_sum(l, lo, mid) + ring_sum(l, mid, hi),
    decreases hi - mid,
{
    if mid < hi {
        lemma_ring_sum_split(l, lo, mid, hi - 1);
    }
}

pub proof fn lemma_ring_sum_periodic(l: Seq<Point>, lo: int, hi: int)
    requires
        l.len() > 0,
    ensures
        ring_sum(l, lo + l.len(), hi + l.len()) == ring_sum(l, lo, hi),
    decreases hi - lo,
{
    let n = l.len() as int;
    if lo < hi {
        lemma_ring_sum_periodic(l, lo, hi - 1);
        lemma_at_periodic(l, hi - 1);
        lemma_at_periodic(l, hi);
        assert(hi + n - 1 == hi - 1 + n);
    }
}

pub proof fn lemma_kept_range_split(l: Seq<Point>, lo: int, mid: int, hi: int)
    requires
        lo <= mid <= hi,
    ensures
        kept_range(l, lo, hi) == kept_range(l, lo, mid) + kept_range(l, mid, hi),
    decreases hi - mid,
{
    if mid < hi {
        lemma_kept_range_split(l, lo, mid, hi - 1);
        assert(kept_range(l, lo, hi) =~= kept_range(l, lo, mid) + kept_range(l, mid, hi));
    } else {
        assert(kept_range(l, lo, hi) =~= kept_range(l, lo, mid) + kept_range(l, mid, hi));
    }
}

pub proof fn lemma_kept_range_periodic(l: Seq<Point>, lo: int, hi: int)
    requires
        l.len() > 0,
    ensures
        kept_range(l, lo + l.len(), hi + l.len()) == kept_range(l, lo, hi),
    decreases hi - lo,
{
    let n = l.len() as int;
    if lo < hi {
        lemma_kept_range_periodic(l, lo, hi - 1);
        lemma_redundant_periodic(l, hi - 1);
        lemma_at_periodic(l, hi - 1);
        assert(hi + n - 1 == hi - 1 + n);
    }
}

/// Over positions that are all redundant nothing is kept, and the other
/// way round.
pub proof fn lemma_kept_range_empty(l: Seq<Point>, lo: int, hi: int)
    ensures
        kept_range(l, lo, hi).len() == 0 <==> all_redundant(l, lo, hi),
    decreases hi - lo,
{
    if lo < hi {
        lemma_kept_range_empty(l, lo, hi - 1);
        if all_redundant(l, lo, hi) {
            assert(redundant(l, hi - 1));
            assert(all_redundant(l, lo, hi - 1));
        }
        if kept_range(l, lo, hi).len() == 0 {
            assert forall|k: int| lo <= k < hi implies #[trigger] redundant(l, k) by {
                if k < hi - 1 {
                    assert(all_redundant(l, lo, hi - 1));
                }
            }
        }
    }
}

/// The doubled signed area of a loop is the sum of the shoelace terms of
/// one turn.
pub proof fn lemma_ring_sum_is_area(l: Seq<Point>)
    requires
        l.len() > 0,
    ensures
        ring_sum(l, 0, l.len() as int) == area2(l),
{
    let n = l.len() as int;
    lemma_ring_sum_prefix(l, n - 1);
    lemma_small_mod((n - 1) as nat, n as nat);
    lemma_mod_add_multiples_vanish(0, n);
    lemma_small_mod(0, n as nat);
    assert(at_spec(l, n) == l[0]);
    assert(at_spec(l, n - 1) == l[n - 1]);
}

proof fn lemma_ring_sum_prefix(l: Seq<Point>, count: int)
    requires
        0 <= count < l.len(),
    ensures
        ring_sum(l, 0, count) == edge_sum(l, 0, count),
    decreases count,
{
    if count > 0 {
        lemma_ring_sum_prefix(l, count - 1);
        lemma_small_mod((count - 1) as nat, l.len());
        lemma_small_mod(count as nat, l.len());
    }
}

/// The shoelace terms along a straight run add up to the term of the
/// single edge that replaces it: for `b` at `t` steps `s` from `a`, and `c`
/// one step further, the terms of `a` to `b` and of `b` to `c` add up to
/// the term of `a` to `c`.
proof fn lemma_straight_sum(a: Point, b: Point, c: Point, sx: int, sy: int, t: int)
    requires
        b.x == a.x + t * sx,
        b.y == a.y + t * sy,
        c.x == b.x + sx,
        c.y == b.y + sy,
    ensures
        cross(a, c) == cross(a, b) + cross(b, c),
{
    let ax = a.x as int;
    let ay = a.y as int;
    let bx = b.x as int;
    let by = b.y as int;
    assert(ax * (by + sy) - ay * (bx + sx) == (ax * by - ay * bx) + (ax * sy - ay * sx))
        by (nonlinear_arith);
    assert(bx * (by + sy) - by * (bx + sx) == bx * sy - by * sx) by (nonlinear_arith);
    let tx = t * sx;
    let ty = t * sy;
    assert(tx * sy == ty * sx) by (nonlinear_arith)
        requires
            tx == t * sx,
            ty == t * sy,
    ;
    assert((ax + tx) * sy - (ay + ty) * sx == ax * sy - ay * sx) by (nonlinear_arith)
        requires
            tx * sy == ty * sx,
    ;
}

/// A run: from the position `from` to the position `to`, with only
/// redundant vertices between them. All its steps are equal, so its end
/// lies `to - from` steps from its start, and its shoelace terms add up to
/// the single term from its start to its end.
pub proof fn lemma_run(l: Seq<Point>, from: int, to: int)
    requires
        l.len() > 0,
        from < to,
        all_redundant(l, from + 1, to),
    ensures
        at_spec(l, to).x == at_spec(l, from).x + (to - from) * step_x(l, from),
        at_spec(l, to).y == at_spec(l, from).y + (to - from) * step_y(l, from),
        step_x(l, to - 1) == step_x(l, from),
        step_y(l, to - 1) == step_y(l, from),
        ring_sum(l, from, to) == cross(at_spec(l, from), at_spec(l, to)),
    decreases to - from,
{
    let a = at_spec(l, from);
    let sx = step_x(l, from);
    let sy = step_y(l, from);
    if to == from + 1 {
        assert(ring_sum(l, from, from) == 0);
        assert((to - from) * sx == sx) by (nonlinear_arith)
            requires
                to - from == 1,
        ;
        assert((to - from) * sy == sy) by (nonlinear_arith)
            requires
                to - from == 1,
        ;
    } else {
        assert(all_redundant(l, from + 1, to - 1));
        lemma_run(l, from, to - 1);
        assert(redundant(l, to - 1));
        let t = to - 1 - from;
        let b = at_spec(l, to - 1);
        let c = at_spec(l, to);
        assert(step_x(l, to - 2) == sx && step_y(l, to - 2) == sy);
        assert(c.x - b.x == sx && c.y - b.y == sy);
        assert(b.x == a.x + t * sx && b.y == a.y + t * sy);
        assert((t + 1) * sx == t * sx + sx) by (nonlinear_arith);
        assert((t + 1) * sy == t * sy + sy) by (nonlinear_arith);
        assert(c.x == a.x + (t + 1) * sx && c.y == a.y + (t + 1) * sy);
        lemma_straight_sum(a, b, c, sx, sy, t);
        assert(cross(a, c) == cross(a, b) + cross(b, c));
    }
}

/// What `kept_indices` lists: the positions of the kept vertices, in
/// rising order, with only redundant vertices before, between and after them.
pub proof fn lemma_kept_indices(l: Seq<Point>, lo: int, hi: int)
    requires
        lo <= hi,
    ensures
        kept_indices(l, lo, hi).len() == kept_range(l, lo, hi).len(),
        forall|a: int|
            0 <= a < kept_indices(l, lo, hi).len() ==> lo <= (#[trigger] kept_indices(l, lo, hi)[a])
                < hi && !redundant(l, kept_indices(l, lo, hi)[a]) && kept_range(l, lo, hi)[a]
                == at_spec(l, kept_indices(l, lo, hi)[a]),
        forall|a: int|
            0 <= a && a + 1 < kept_indices(l, lo, hi).len() ==> (#[trigger] kept_indices(
                l,
                lo,
                hi,
            )[a]) < kept_indices(l, lo, hi)[a + 1] && all_redundant(
                l,
                kept_indices(l, lo, hi)[a] + 1,
                kept_indices(l, lo, hi)[a + 1],
            ),
        kept_indices(l, lo, hi).len() == 0 ==> all_redundant(l, lo, hi),
        kept_indices(l, lo, hi).len() > 0 ==> all_redundant(l, lo, kept_indices(l, lo, hi)[0])
            && all_redundant(l, kept_indices(l, lo, hi).last() + 1, hi),
    decreases hi - lo,
{
    if lo < hi {
        lemma_kept_indices(l, lo, hi - 1);
        let before = kept_indices(l, lo, hi - 1);
        let now = kept_indices(l, lo, hi);
        if redundant(l, hi - 1) {
            assert(now == before);
            if now.len() == 0 {
                assert forall|k: int| lo <= k < hi implies #[trigger] redundant(l, k) by {
                    if k < hi - 1 {
                        assert(all_redundant(l, lo, hi - 1));
                    }
                }
            } else {
                assert forall|k: int| now.last() + 1 <= k < hi implies #[trigger] redundant(
                    l,
                    k,
                ) by {
                    if k < hi - 1 {
                        assert(all_redundant(l, before.last() + 1, hi - 1));
                    }
                }
            }
        } else {
            assert(now == before.push(hi - 1));
            assert forall|a: int| 0 <= a && a + 1 < now.len() implies (#[trigger] now[a]) < now[a
                + 1] && all_redundant(l, now[a] + 1, now[a + 1]) by {
                if a + 1 < before.len() {
                    assert(now[a] == before[a]);
                    assert(now[a + 1] == before[a + 1]);
                } else {
                    assert(now[a] == before.last());
                    assert(now[a + 1] == hi - 1);
                }
            }
            if before.len() == 0 {
                assert(now[0] == hi - 1);
            } else {
                assert(now[0] == before[0]);
            }
        }
    }
}

/// The step that leaves a position is the step that leaves the vertex it
/// stands for.
pub proof fn lemma_step_reduced(l: Seq<Point>, k: int)
    requires
        l.len() > 0,
    ensures
        0 <= k % (l.len() as int) < l.len(),
        step_x(l, k) == step_x(l, k % (l.len() as int)),
        step_y(l, k) == step_y(l, k % (l.len() as int)),
{
    let n = l.len() as int;
    lemma_mod_twice(k, n);
    lemma_fundamental_div_mod(k, n);
    lemma_mod_multiples_vanish(k / n, k % n + 1, n);
    assert(n * (k / n) + (k % n + 1) == k + 1);
}

/// The first kept position of a loop of which something is kept. One turn
/// from there on keeps the same vertices in the same order as the turn
/// from position 0.
pub proof fn lemma_first_kept(l: Seq<Point>) -> (f: int)
    requires
        kept_range(l, 0, l.len() as int).len() > 0,
    ensures
        0 <= f < l.len(),
        !redundant(l, f),
        all_redundant(l, 0, f),
        kept_range(l, f, f + l.len()) == kept_range(l, 0, l.len() as int),
        kept_indices(l, f, f + l.len()).len() > 0,
        kept_indices(l, f, f + l.len())[0] == f,
{
    let n = l.len() as int;
    lemma_kept_indices(l, 0, n);
    let f = kept_indices(l, 0, n)[0];
    lemma_kept_range_split(l, 0, f, n);
    lemma_kept_range_empty(l, 0, f);
    lemma_kept_range_split(l, f, n, f + n);
    lemma_kept_range_periodic(l, 0, f);
    lemma_kept_range_empty(l, n, f + n);
    assert(kept_range(l, 0, f) =~= Seq::<Point>::empty());
    assert(kept_range(l, n, f + n) =~= Seq::<Point>::empty());
    assert(kept_range(l, f, f + n) =~= kept_range(l, 0, n));
    lemma_kept_indices(l, f, f + n);
    let first = kept_indices(l, f, f + n)[0];
    if f < first {
        assert(all_redundant(l, f, first));
        assert(redundant(l, f));
    }
    f
}

/// The shoelace terms between the kept vertices add up to those of the
/// runs that they replace.
pub proof fn lemma_path_sum(l: Seq<Point>, lo: int, hi: int, a: int)
    requires
        l.len() > 0,
        lo <= hi,
        0 <= a < kept_indices(l, lo, hi).len(),
    ensures
        kept_indices(l, lo, hi)[0] <= kept_indices(l, lo, hi)[a],
        edge_sum(kept_range(l, lo, hi), 0, a) == ring_sum(
            l,
            kept_indices(l, lo, hi)[0],
            kept_indices(l, lo, hi)[a],
        ),
    decreases a,
{
    lemma_kept_indices(l, lo, hi);
    let j = kept_indices(l, lo, hi);
    if a > 0 {
        lemma_path_sum(l, lo, hi, a - 1);
        assert(j[a - 1] < j[a - 1 + 1]);
        lemma_run(l, j[a - 1], j[a]);
        lemma_ring_sum_split(l, j[0], j[a - 1], j[a]);
    }
}

} // verus!
