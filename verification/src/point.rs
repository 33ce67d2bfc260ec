//! Lattice points and the orientation predicates built on the doubled
//! signed area of a triangle.

use vstd::prelude::*;
use vstd::arithmetic::div_mod::{lemma_fundamental_div_mod, lemma_fundamental_div_mod_converse};

verus! {

/// A point with integer coordinates, in half-grid units.
#[derive(Clone, Copy, Debug, PartialEq, Eq, Structural)]
pub struct Point {
    pub x: i32,
    pub y: i32,
}

impl Point {
    pub fn new(x: i32, y: i32) -> (p: Point)
        ensures
            p.x == x,
            p.y == y,
    {
        Point { x, y }
    }
}

/// The z-component of the cross product of the position vectors of `a` and `b`.
pub open spec fn cross(a: Point, b: Point) -> int {
    a.x * b.y - a.y * b.x
}

/// Twice the signed area of the triangle `a`, `b`, `c`: positive when the
/// three points turn counter-clockwise, negative when they turn clockwise,
/// zero when they lie on one line.
pub open spec fn area_spec(a: Point, b: Point, c: Point) -> int {
    (b.x - a.x) * (c.y - a.y) - (c.x - a.x) * (b.y - a.y)
}

pub open spec fn left_spec(a: Point, b: Point, c: Point) -> bool {
    area_spec(a, b, c) > 0
}

pub open spec fn left_on_spec(a: Point, b: Point, c: Point) -> bool {
    area_spec(a, b, c) >= 0
}

pub open spec fn right_spec(a: Point, b: Point, c: Point) -> bool {
    area_spec(a, b, c) < 0
}

pub open spec fn right_on_spec(a: Point, b: Point, c: Point) -> bool {
    area_spec(a, b, c) <= 0
}

/// The vertex of `poly` at circular position `index`: positions wrap around
/// at both ends, so `-1` is the last vertex and `poly.len()` is the first.
pub open spec fn at_spec(poly: Seq<Point>, index: int) -> Point {
    poly[index % (poly.len() as int)]
}

/// The position after `i` on a loop of `n` vertices.
pub open spec fn succ(n: int, i: int) -> int {
    if i + 1 >= n {
        0
    } else {
        i + 1
    }
}

/// The position before `i` on a loop of `n` vertices.
pub open spec fn pred(n: int, i: int) -> int {
    if i <= 0 {
        n - 1
    } else {
        i - 1
    }
}

/// Adding whole turns to a position inside the sequence does not move it.
pub proof fn lemma_mod_turns(n: int, i: int, turns: int)
    requires
        n > 0,
        0 <= i < n,
    ensures
        (i + turns * n) % n == i,
{
    lemma_fundamental_div_mod_converse(i + turns * n, n, turns, i);
}

/// The product of two differences of `i32` values fits in 65 bits.
proof fn lemma_product_bound(p: int, q: int)
    requires
        -0x1_0000_0000 < p < 0x1_0000_0000,
        -0x1_0000_0000 < q < 0x1_0000_0000,
    ensures
        -0x1_0000_0000_0000_0000 < p * q < 0x1_0000_0000_0000_0000,
{
    assert(-0x1_0000_0000_0000_0000 < p * q < 0x1_0000_0000_0000_0000) by (nonlinear_arith)
        requires
            -0x1_0000_0000 < p < 0x1_0000_0000,
            -0x1_0000_0000 < q < 0x1_0000_0000,
    ;
}

/// The remainder of `a` modulo `b`, always in `0..b`.
pub fn wrap(a: i32, b: i32) -> (r: usize)
    requires
        b > 0,
    ensures
        r == (a as int) % (b as int),
        r < b,
{
    if a < 0 {
        // -(a + 1) is in 0..=i32::MAX, and a == -(m + 1).
        let m: i32 = -(a + 1);
        let k: i32 = m % b;
        proof {
            let q = (m as int) / (b as int);
            lemma_fundamental_div_mod(m as int, b as int);
            assert(a == (-q - 1) * b + (b - 1 - k)) by (nonlinear_arith)
                requires
                    m == b * q + k,
                    a == -(m + 1),
            ;
            lemma_fundamental_div_mod_converse(a as int, b as int, -q - 1, b - 1 - k);
        }
        (b - 1 - k) as usize
    } else {
        (a % b) as usize
    }
}

/// Circular indexing into a vertex sequence.
pub fn at(poly: &Vec<Point>, index: i32) -> (p: Point)
    requires
        poly.len() > 0,
    ensures
        p == at_spec(poly@, index as int),
{
    let n: usize = poly.len();
    if n <= i32::MAX as usize {
        poly[wrap(index, n as i32)]
    } else if index >= 0 {
        proof {
            lemma_fundamental_div_mod_converse(index as int, n as int, 0, index as int);
        }
        poly[index as usize]
    } else {
        // Fewer than `n` steps back from the first vertex.
        let back: usize = (-(index + 1)) as usize;
        proof {
            lemma_fundamental_div_mod_converse(index as int, n as int, -1, n + index);
        }
        poly[n - 1 - back]
    }
}

/// Twice the signed area of the triangle `a`, `b`, `c`.
pub fn area(a: Point, b: Point, c: Point) -> (r: i128)
    ensures
        r == area_spec(a, b, c),
        -0x2_0000_0000_0000_0000 < r < 0x2_0000_0000_0000_0000,
{
    let abx: i128 = b.x as i128 - a.x as i128;
    let aby: i128 = b.y as i128 - a.y as i128;
    let acx: i128 = c.x as i128 - a.x as i128;
    let acy: i128 = c.y as i128 - a.y as i128;
    proof {
        lemma_product_bound(abx as int, acy as int);
        lemma_product_bound(acx as int, aby as int);
    }
    abx * acy - acx * aby
}

/// Whether `a`, `b`, `c` make a strict counter-clockwise turn.
pub fn left(a: Point, b: Point, c: Point) -> (r: bool)
    ensures
        r == left_spec(a, b, c),
{
    area(a, b, c) > 0
}

/// Whether `a`, `b`, `c` turn counter-clockwise or lie on one line.
pub fn left_on(a: Point, b: Point, c: Point) -> (r: bool)
    ensures
        r == left_on_spec(a, b, c),
{
    area(a, b, c) >= 0
}

/// Whether `a`, `b`, `c` make a strict clockwise turn.
pub fn right(a: Point, b: Point, c: Point) -> (r: bool)
    ensures
        r == right_spec(a, b, c),
{
    area(a, b, c) < 0
}

/// Whether `a`, `b`, `c` turn clockwise or lie on one line.
pub fn right_on(a: Point, b: Point, c: Point) -> (r: bool)
    ensures
        r == right_on_spec(a, b, c),
{
    area(a, b, c) <= 0
}

} // verus!
