//! The occupancy grid: a fixed extent and the cells inside it that are solid.

use vstd::prelude::*;
use crate::point::Point;

verus! {

/// The largest width or height of a grid. A contour vertex has twice the
/// coordinate of its cell, and must still fit in an `i32`.
pub const MAX_EXTENT: usize = 0x4000_0000;

/// What a grid is, mathematically: its extent and the set of its solid cells.
pub struct GridView {
    pub width: nat,
    pub height: nat,
    pub occupied: Set<(int, int)>,
}

/// A grid of `width` by `height` cells, some of them solid.
pub struct Grid {
    width: usize,
    height: usize,
    positions: Vec<Point>,
}

impl View for Grid {
    type V = GridView;

    closed spec fn view(&self) -> GridView {
        GridView {
            width: self.width as nat,
            height: self.height as nat,
            occupied: Set::new(
                |c: (int, int)|
                    exists|k: int|
                        0 <= k < self.positions@.len() && (#[trigger] self.positions@[k]).x == c.0
                            && self.positions@[k].y == c.1,
            ),
        }
    }
}

impl GridView {
    /// Every solid cell lies inside the extent, and the extent is within the limit.
    pub open spec fn wf(self) -> bool {
        &&& self.width <= MAX_EXTENT
        &&& self.height <= MAX_EXTENT
        &&& forall|x: int, y: int| #[trigger]
            self.occupied.contains((x, y)) ==> 0 <= x < self.width && 0 <= y < self.height
    }

    pub open spec fn solid(self, x: int, y: int) -> bool {
        self.occupied.contains((x, y))
    }
}

impl Grid {
    /// What `wf` of the view says of the stored cells.
    proof fn lemma_positions_in_range(&self)
        requires
            self@.wf(),
        ensures
            self.width <= MAX_EXTENT,
            self.height <= MAX_EXTENT,
            forall|k: int|
                0 <= k < self.positions@.len() ==> 0 <= (#[trigger] self.positions@[k]).x
                    < self.width && 0 <= self.positions@[k].y < self.height,
    {
        assert forall|k: int| 0 <= k < self.positions@.len() implies 0 <= (
        #[trigger] self.positions@[k]).x < self.width && 0 <= self.positions@[k].y
            < self.height by {
            let p = self.positions@[k];
            assert(self@.occupied.contains((p.x as int, p.y as int)));
        }
    }

    /// An empty grid, or `None` when the extent is over `MAX_EXTENT`.
    pub fn new(width: usize, height: usize) -> (grid: Option<Grid>)
        ensures
            grid is Some <==> width <= MAX_EXTENT && height <= MAX_EXTENT,
            grid matches Some(g) ==> g@.width == width && g@.height == height && g@.occupied
                == Set::<(int, int)>::empty() && g@.wf(),
    {
        if width > MAX_EXTENT || height > MAX_EXTENT {
            return None;
        }
        let g = Grid { width, height, positions: Vec::new() };
        assert(g@.occupied =~= Set::<(int, int)>::empty());
        Some(g)
    }

    pub fn width(&self) -> (w: usize)
        ensures
            w == self@.width,
    {
        self.width
    }

    pub fn height(&self) -> (h: usize)
        ensures
            h == self@.height,
    {
        self.height
    }

    /// Marks the cell `(x, y)` solid. A cell outside the extent is refused
    /// and the grid stays as it was.
    pub fn add_cell(&mut self, x: i32, y: i32) -> (accepted: bool)
        requires
            old(self)@.wf(),
        ensures
            final(self)@.wf(),
            accepted <==> 0 <= x < old(self)@.width && 0 <= y < old(self)@.height,
            final(self)@.width == old(self)@.width,
            final(self)@.height == old(self)@.height,
            accepted ==> final(self)@.occupied == old(self)@.occupied.insert((x as int, y as int)),
            !accepted ==> final(self)@.occupied == old(self)@.occupied,
    {
        if x < 0 || y < 0 || x as usize >= self.width || y as usize >= self.height {
            return false;
        }
        let ghost before = self.positions@;
        self.positions.push(Point::new(x, y));
        proof {
            let after = self.positions@;
            assert forall|c: (int, int)|
                final(self)@.occupied.contains(c) <==> old(self)@.occupied.insert(
                    (x as int, y as int),
                ).contains(c) by {
                if old(self)@.occupied.contains(c) {
                    let k = choose|k: int|
                        0 <= k < before.len() && (#[trigger] before[k]).x == c.0 && before[k].y
                            == c.1;
                    assert(after[k] == before[k]);
                }
                if c == (x as int, y as int) {
                    assert(after[before.len() as int].x == x);
                }
            }
            assert(final(self)@.occupied =~= old(self)@.occupied.insert((x as int, y as int)));
        }
        true
    }

    /// Whether the cell `(x, y)` is solid.
    pub fn is_solid(&self, x: i32, y: i32) -> (solid: bool)
        ensures
            solid == self@.solid(x as int, y as int),
    {
        let mut k: usize = 0;
        while k < self.positions.len()
            invariant
                k <= self.positions@.len(),
                forall|m: int|
                    0 <= m < k ==> !((#[trigger] self.positions@[m]).x == x && self.positions@[m].y
                        == y),
            decreases self.positions@.len() - k,
        {
            let p = self.positions[k];
            if p.x == x && p.y == y {
                return true;
            }
            k += 1;
        }
        false
    }

    /// The solid cells as a dense table: `table[x][y]` tells whether `(x, y)` is solid.
    pub fn occupancy(&self) -> (table: Vec<Vec<bool>>)
        requires
            self@.wf(),
        ensures
            table@.len() == self@.width,
            forall|x: int| 0 <= x < table@.len() ==> (#[trigger] table@[x])@.len() == self@.height,
            forall|x: int, y: int|
                0 <= x < self@.width && 0 <= y < self@.height ==> table@[x]@[y] == self@.solid(
                    x,
                    y,
                ),
    {
        proof {
            self.lemma_positions_in_range();
        }
        let mut table: Vec<Vec<bool>> = Vec::new();
        let mut x: usize = 0;
        while x < self.width
            invariant
                x <= self.width,
                table@.len() == x,
                forall|i: int| 0 <= i < x ==> (#[trigger] table@[i])@.len() == self.height,
                forall|i: int, j: int|
                    0 <= i < x && 0 <= j < self.height ==> !(#[trigger] table@[i]@[j]),
            decreases self.width - x,
        {
            let mut column: Vec<bool> = Vec::new();
            let mut y: usize = 0;
            while y < self.height
                invariant
                    y <= self.height,
                    column@.len() == y,
                    forall|j: int| 0 <= j < y ==> !(#[trigger] column@[j]),
                decreases self.height - y,
            {
                column.push(false);
                y += 1;
            }
            table.push(column);
            x += 1;
        }
        let mut k: usize = 0;
        while k < self.positions.len()
            invariant
                k <= self.positions@.len(),
                table@.len() == self.width,
                forall|i: int| 0 <= i < self.width ==> (#[trigger] table@[i])@.len() == self.height,
                forall|m: int|
                    0 <= m < self.positions@.len() ==> 0 <= (#[trigger] self.positions@[m]).x
                        < self.width && 0 <= self.positions@[m].y < self.height,
                forall|i: int, j: int|
                    0 <= i < self.width && 0 <= j < self.height ==> (#[trigger] table@[i]@[j]
                        <==> exists|m: int|
                        0 <= m < k && (#[trigger] self.positions@[m]).x == i
                            && self.positions@[m].y == j),
            decreases self.positions@.len() - k,
        {
            let p = self.positions[k];
            let px: usize = p.x as usize;
            let py: usize = p.y as usize;
            let ghost prev = table@;
            let mut column: Vec<bool> = Vec::new();
            std::mem::swap(&mut column, &mut table[px]);
            column.set(py, true);
            table.set(px, column);
            proof {
                assert forall|i: int, j: int| 0 <= i < self.width && 0 <= j < self.height implies (
                #[trigger] table@[i]@[j] <==> exists|m: int|
                    0 <= m < k + 1 && (#[trigger] self.positions@[m]).x == i
                        && self.positions@[m].y == j) by {
                    if i == px && j == py {
                        assert(self.positions@[k as int].x == i);
                    } else {
                        assert(table@[i]@[j] == prev[i]@[j]);
                        if prev[i]@[j] {
                            let m = choose|m: int|
                                0 <= m < k && (#[trigger] self.positions@[m]).x == i
                                    && self.positions@[m].y == j;
                            assert(0 <= m < k + 1);
                        }
                    }
                }
            }
            k += 1;
        }
        table
    }
}

impl Default for Grid {
    /// An empty grid of 32 by 32 cells.
    fn default() -> (grid: Grid)
        ensures
            grid@.width == 32,
            grid@.height == 32,
            grid@.occupied == Set::<(int, int)>::empty(),
            grid@.wf(),
    {
        let g = Grid { width: 32, height: 32, positions: Vec::new() };
        assert(g@.occupied =~= Set::<(int, int)>::empty());
        g
    }
}

} // verus!
