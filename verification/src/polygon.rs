//! The signed area of a closed loop, by the shoelace formula, and how it
//! behaves when a loop is cut along a diagonal.

use vstd::prelude::*;
use crate::decompose::arc;
use crate::point::{cross, Point};

verus! {

/// The shoelace terms of the edges that start at the positions `lo..hi`.
pub open spec fn edge_sum(s: Seq<Point>, lo: int, hi: int) -> int
    decreases hi - lo,
{
    if hi <= lo {
        0
    } else {
        edge_sum(s, lo, hi - 1) + cross(s[hi - 1], s[hi])
    }
}

/// Twice the signed area that the closed loop encloses: positive for a loop
/// that runs counter-clockwise.
pub open spec fn area2(s: Seq<Point>) -> int {
    if s.len() == 0 {
        0
    } else {
        edge_sum(s, 0, s.len() - 1) + cross(s.last(), s[0])
    }
}

/// The sum of the doubled signed areas of several loops.
pub open spec fn total_area2(polys: Seq<Seq<Point>>) -> int
    decreases polys.len(),
{
    if polys.len() == 0 {
        0
    } else {
        total_area2(polys.drop_last()) + area2(polys.last())
    }
}

pub proof fn lemma_total_area2_concat(a: Seq<Seq<Point>>, b: Seq<Seq<Point>>)
    ensures
        total_area2(a + b) == total_area2(a) + total_area2(b),
    decreases b.len(),
{
    if b.len() == 0 {
        assert(a + b =~= a);
    } else {
        lemma_total_area2_concat(a, b.drop_last());
        assert((a + b).drop_last() =~= a + b.drop_last());
        assert((a + b).last() == b.last());
    }
}

/// A run of edges can be summed in two parts.
pub proof fn lemma_edge_sum_split(s: Seq<Point>, lo: int, mid: int, hi: int)
    requires
        lo <= mid <= hi,
    ensures
        edge_sum(s, lo, hi) == edge_sum(s, lo, mid) + edge_sum(s, mid, hi),
    decreases hi - mid,
{
    if mid < hi {
        lemma_edge_sum_split(s, lo, mid, hi - 1);
    }
}

/// The edges of a part of a loop are edges of the loop.
pub proof fn lemma_edge_sum_subrange(s: Seq<Point>, from: int, to: int, count: int)
    requires
        0 <= from <= to <= s.len(),
        0 <= count < to - from,
    ensures
        edge_sum(s.subrange(from, to), 0, count) == edge_sum(s, from, from + count),
    decreases count,
{
    if count > 0 {
        lemma_edge_sum_subrange(s, from, to, count - 1);
    }
}

/// Where two runs of vertices are joined, one edge is added between them.
pub proof fn lemma_edge_sum_concat(x: Seq<Point>, y: Seq<Point>, count: int)
    requires
        x.len() > 0,
        0 <= count < y.len(),
    ensures
        edge_sum(x + y, 0, x.len() + count) == edge_sum(x, 0, x.len() - 1) + cross(x.last(), y[0])
            + edge_sum(y, 0, count),
    decreases count,
{
    let z = x + y;
    let nx = x.len() as int;
    if count == 0 {
        lemma_edge_sum_prefix(x, y, nx - 1);
        assert(z[nx - 1] == x.last());
        assert(z[nx] == y[0]);
    } else {
        lemma_edge_sum_concat(x, y, count - 1);
        assert(z[nx + count - 1] == y[count - 1]);
        assert(z[nx + count] == y[count]);
    }
}

proof fn lemma_edge_sum_prefix(x: Seq<Point>, y: Seq<Point>, count: int)
    requires
        0 <= count < x.len(),
    ensures
        edge_sum(x + y, 0, count) == edge_sum(x, 0, count),
    decreases count,
{
    if count > 0 {
        lemma_edge_sum_prefix(x, y, count - 1);
        assert((x + y)[count - 1] == x[count - 1]);
        assert((x + y)[count] == x[count]);
    }
}

/// The doubled area of the side of a loop from `i` forward to `j`, closed
/// by the diagonal from `j` back to `i`.
proof fn lemma_arc_area(s: Seq<Point>, i: int, j: int)
    requires
        0 <= i < s.len(),
        0 <= j < s.len(),
        i != j,
    ensures
        i < j ==> area2(arc(s, i, j)) == edge_sum(s, i, j) + cross(s[j], s[i]),
        i > j ==> area2(arc(s, i, j)) == edge_sum(s, i, s.len() - 1) + cross(s.last(), s[0])
            + edge_sum(s, 0, j) + cross(s[j], s[i]),
{
    let n = s.len() as int;
    if i < j {
        lemma_edge_sum_subrange(s, i, j + 1, j - i);
    } else {
        let x = s.subrange(i, n);
        let y = s.subrange(0, j + 1);
        lemma_edge_sum_concat(x, y, j);
        lemma_edge_sum_subrange(s, i, n, n - 1 - i);
        lemma_edge_sum_subrange(s, 0, j + 1, j);
        assert((x + y).len() == n - i + j + 1);
        assert((x + y).last() == s[j]);
        assert((x + y)[0] == s[i]);
    }
}

/// Cutting a loop along the diagonal between two of its vertices gives two
/// loops whose doubled signed areas add up to that of the loop.
pub proof fn lemma_cut_preserves_area(s: Seq<Point>, i: int, j: int)
    requires
        0 <= i < s.len(),
        0 <= j < s.len(),
        i != j,
    ensures
        area2(arc(s, i, j)) + area2(arc(s, j, i)) == area2(s),
{
    let n = s.len() as int;
    lemma_arc_area(s, i, j);
    lemma_arc_area(s, j, i);
    assert(cross(s[i], s[j]) + cross(s[j], s[i]) == 0) by (nonlinear_arith);
    if i < j {
        lemma_edge_sum_split(s, 0, i, n - 1);
        lemma_edge_sum_split(s, i, j, n - 1);
    } else {
        lemma_edge_sum_split(s, 0, j, n - 1);
        lemma_edge_sum_split(s, j, i, n - 1);
    }
}

/// The product of two `i32` values fits in 63 bits.
proof fn lemma_coordinate_product(p: int, q: int)
    requires
        -0x8000_0000 <= p < 0x8000_0000,
        -0x8000_0000 <= q < 0x8000_0000,
    ensures
        -0x4000_0000_0000_0000 <= p * q <= 0x4000_0000_0000_0000,
{
    assert(-0x4000_0000_0000_0000 <= p * q <= 0x4000_0000_0000_0000) by (nonlinear_arith)
        requires
            -0x8000_0000 <= p < 0x8000_0000,
            -0x8000_0000 <= q < 0x8000_0000,
    ;
}

fn cross_product(a: Point, b: Point) -> (c: i128)
    ensures
        c == cross(a, b),
        -0x8000_0000_0000_0000 <= c <= 0x8000_0000_0000_0000,
{
    proof {
        lemma_coordinate_product(a.x as int, b.y as int);
        lemma_coordinate_product(a.y as int, b.x as int);
    }
    (a.x as i128) * (b.y as i128) - (a.y as i128) * (b.x as i128)
}

/// Twice the signed area that the closed loop encloses.
pub fn signed_area2(poly: &Vec<Point>) -> (a: i128)
    ensures
        a == area2(poly@),
{
    let n: usize = poly.len();
    if n == 0 {
        return 0;
    }
    let mut sum: i128 = 0;
    let mut k: usize = 0;
    while k + 1 < n
        invariant
            n == poly@.len(),
            k + 1 <= n,
            sum == edge_sum(poly@, 0, k as int),
            -0x8000_0000_0000_0000 * k <= sum <= 0x8000_0000_0000_0000 * k,
        decreases n - k,
    {
        sum = sum + cross_product(poly[k], poly[k + 1]);
        k += 1;
    }
    sum + cross_product(poly[n - 1], poly[0])
}

} // verus!
