//! Contour extraction: every 2x2 neighbourhood of the grid is classified,
//! and the segments of all neighbourhoods are collected in grid coordinates.

use vstd::prelude::*;
use crate::classifier::{cell_segments, corner_solid, index_to_vertices, Segment};
use crate::grid::{Grid, GridView};
use crate::point::Point;

verus! {

pub open spec fn bit(b: bool) -> int {
    if b {
        1
    } else {
        0
    }
}

/// The 4-bit index of a neighbourhood from its four corners: bit 0 is the
/// bottom-left corner, bit 1 the bottom-right, bit 2 the top-right and
/// bit 3 the top-left.
pub open spec fn corner_index_spec(bl: bool, br: bool, tr: bool, tl: bool) -> int {
    bit(bl) + 2 * bit(br) + 4 * bit(tr) + 8 * bit(tl)
}

/// The index of the neighbourhood whose bottom-left cell is `(i, j)`.
pub open spec fn cell_index(g: GridView, i: int, j: int) -> int {
    corner_index_spec(g.solid(i, j), g.solid(i + 1, j), g.solid(i + 1, j + 1), g.solid(i, j + 1))
}

/// A point of the neighbourhood `(i, j)` moved from the square's own
/// coordinates to grid coordinates, which are doubled.
pub open spec fn shift_point(p: Point, i: int, j: int) -> Point {
    Point { x: (p.x + 2 * i) as i32, y: (p.y + 2 * j) as i32 }
}

pub open spec fn shift(s: Segment, i: int, j: int) -> Segment {
    Segment { start: shift_point(s.start, i, j), end: shift_point(s.end, i, j) }
}

/// The segments of the neighbourhood `(i, j)`, in grid coordinates.
pub open spec fn cell_contour(g: GridView, i: int, j: int) -> Seq<Segment> {
    let local = cell_segments(cell_index(g, i, j));
    Seq::new(local.len(), |k: int| shift(local[k], i, j))
}

/// The segments of the neighbourhoods `(i, 0)` to `(i, rows - 1)`, bottom to top.
pub open spec fn column_contour(g: GridView, i: int, rows: int) -> Seq<Segment>
    decreases rows,
{
    if rows <= 0 {
        Seq::empty()
    } else {
        column_contour(g, i, rows - 1) + cell_contour(g, i, rows - 1)
    }
}

/// The segments of the first `columns` columns of neighbourhoods, left to right.
pub open spec fn contour_upto(g: GridView, columns: int) -> Seq<Segment>
    decreases columns,
{
    if columns <= 0 {
        Seq::empty()
    } else {
        contour_upto(g, columns - 1) + column_contour(g, columns - 1, g.height - 1)
    }
}

/// The bag of boundary segments of a grid. A grid of `width` by `height`
/// cells has `width - 1` by `height - 1` neighbourhoods; they are visited
/// column by column, each column from the bottom up.
pub open spec fn contour_spec(g: GridView) -> Seq<Segment> {
    contour_upto(g, g.width - 1)
}

/// The 4-bit index of a neighbourhood from the occupancy of its corners.
/// It is never above 15, and each corner can be read back from its bit.
pub fn corner_index(bl: bool, br: bool, tr: bool, tl: bool) -> (index: u8)
    ensures
        index == corner_index_spec(bl, br, tr, tl),
        index <= 15,
        corner_solid(index as int, 0) == bl,
        corner_solid(index as int, 1) == br,
        corner_solid(index as int, 2) == tr,
        corner_solid(index as int, 3) == tl,
{
    let mut index: u8 = 0;
    if bl {
        index = index + 1;
    }
    if br {
        index = index + 2;
    }
    if tr {
        index = index + 4;
    }
    if tl {
        index = index + 8;
    }
    index
}

/// A segment of the neighbourhood `(i, j)` moved to grid coordinates.
fn shift_to_cell(s: Segment, i: usize, j: usize) -> (t: Segment)
    requires
        0 <= s.start.x <= 2 && 0 <= s.start.y <= 2,
        0 <= s.end.x <= 2 && 0 <= s.end.y <= 2,
        i + 1 < crate::grid::MAX_EXTENT,
        j + 1 < crate::grid::MAX_EXTENT,
    ensures
        t == shift(s, i as int, j as int),
{
    let dx: i32 = 2 * (i as i32);
    let dy: i32 = 2 * (j as i32);
    Segment {
        start: Point { x: s.start.x + dx, y: s.start.y + dy },
        end: Point { x: s.end.x + dx, y: s.end.y + dy },
    }
}

/// All boundary segments of the grid.
pub fn contour_segments(grid: &Grid) -> (bag: Vec<Segment>)
    requires
        grid@.wf(),
    ensures
        bag@ == contour_spec(grid@),
{
    let table = grid.occupancy();
    let width: usize = grid.width();
    let height: usize = grid.height();
    let ghost g = grid@;
    let mut bag: Vec<Segment> = Vec::new();
    let mut i: usize = 0;
    while i + 1 < width
        invariant
            g == grid@,
            g.wf(),
            width == g.width,
            height == g.height,
            table@.len() == width,
            forall|x: int| 0 <= x < table@.len() ==> (#[trigger] table@[x])@.len() == height,
            forall|x: int, y: int|
                0 <= x < width && 0 <= y < height ==> table@[x]@[y] == g.solid(x, y),
            i + 1 <= width || (i == 0 && width == 0),
            bag@ == contour_upto(g, i as int),
        decreases width - i,
    {
        let ghost before = bag@;
        let mut j: usize = 0;
        while j + 1 < height
            invariant
                g.wf(),
                width == g.width,
                height == g.height,
                i + 1 < width,
                table@.len() == width,
                forall|x: int| 0 <= x < table@.len() ==> (#[trigger] table@[x])@.len() == height,
                forall|x: int, y: int|
                    0 <= x < width && 0 <= y < height ==> table@[x]@[y] == g.solid(x, y),
                j + 1 <= height || (j == 0 && height == 0),
                bag@ == before + column_contour(g, i as int, j as int),
            decreases height - j,
        {
            let index = corner_index(
                table[i][j],
                table[i + 1][j],
                table[i + 1][j + 1],
                table[i][j + 1],
            );
            assert(index == cell_index(g, i as int, j as int));
            let local = index_to_vertices(index);
            let ghost column = bag@;
            let mut k: usize = 0;
            while k < local.len()
                invariant
                    k <= local@.len(),
                    i + 1 < crate::grid::MAX_EXTENT,
                    j + 1 < crate::grid::MAX_EXTENT,
                    forall|m: int|
                        0 <= m < local@.len() ==> crate::classifier::is_midpoint(
                            #[trigger] local@[m].start,
                        ) && crate::classifier::is_midpoint(local@[m].end),
                    bag@ == column + Seq::new(
                        k as nat,
                        |m: int| shift(local@[m], i as int, j as int),
                    ),
                decreases local@.len() - k,
            {
                let s = local[k];
                assert(crate::classifier::is_midpoint(local@[k as int].start));
                bag.push(shift_to_cell(s, i, j));
                assert(bag@ =~= column + Seq::new(
                    (k + 1) as nat,
                    |m: int| shift(local@[m], i as int, j as int),
                ));
                k += 1;
            }
            assert(bag@ =~= before + column_contour(g, i as int, (j + 1) as int));
            j += 1;
        }
        assert(j == height - 1 || height == 0);
        assert(column_contour(g, i as int, j as int) =~= column_contour(g, i as int, g.height - 1))
            by {
            if height == 0 {
                assert(column_contour(g, i as int, -1) =~= Seq::<Segment>::empty());
            }
        }
        i += 1;
    }
    assert(contour_upto(g, i as int) =~= contour_spec(g)) by {
        if width == 0 {
            assert(contour_upto(g, -1) =~= Seq::<Segment>::empty());
        }
    }
    bag
}

} // verus!
