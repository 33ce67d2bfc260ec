//! The whole pipeline, from the occupancy grid to the convex pieces, and the
//! wireframe of a loop.

use vstd::prelude::*;
use crate::contour::{contour_segments, contour_spec};
use crate::decompose::{decompose_poly, decompose_spec, is_convex, views, winds_left};
use crate::error::DegenerateGeometry;
use crate::grid::{Grid, GridView};
use crate::point::{succ, Point};
use crate::classifier::Segment;
use crate::cycles::{is_rotation, lemma_stitch_order_independent, lemma_stitch_sound};
use crate::polygon::{area2, total_area2};
use crate::simplify::{lemma_minimal_idempotent, minimal_spec, minimal_vertices};
use crate::stitch::{stitch, stitch_spec, StitchFailure};
use crate::traced::{lemma_contour_traced, lemma_traced_loop_primitive};

verus! {

/// Why no collision polygons could be made of a grid.
#[derive(Clone, Copy, Debug, PartialEq, Eq, Structural)]
pub enum PipelineError {
    /// The boundary segments of the grid do not form one closed loop.
    Stitch(StitchFailure),
    /// The loop encloses nothing, or a piece of it could not be split.
    Degenerate(DegenerateGeometry),
}

/// The simplified outline of the solid region of a grid.
pub open spec fn outline_spec(g: GridView) -> Result<Seq<Point>, PipelineError> {
    match stitch_spec(contour_spec(g)) {
        Err(e) => Err(PipelineError::Stitch(e)),
        Ok(l) => if minimal_spec(l).len() < 3 {
            Err(
                PipelineError::Degenerate(
                    DegenerateGeometry::TooFewVertices { count: minimal_spec(l).len() as usize },
                ),
            )
        } else {
            Ok(minimal_spec(l))
        },
    }
}

/// The convex collision polygons of a grid: its boundary segments are
/// stitched into one loop, the loop is simplified, and the simplified loop
/// is decomposed.
pub open spec fn colliders_spec(g: GridView) -> Result<Seq<Seq<Point>>, PipelineError> {
    match outline_spec(g) {
        Err(e) => Err(e),
        Ok(l) => match decompose_spec(l) {
            Err(e) => Err(PipelineError::Degenerate(e)),
            Ok(pieces) => Ok(pieces),
        },
    }
}

/// The outline of a grid does not depend on the order in which its
/// boundary segments are collected: any other order of them stitches to a
/// loop exactly when the order of the grid does, and then to the same
/// loop, entered at another vertex.
pub proof fn lemma_outline_order_independent(g: GridView, bag: Seq<Segment>)
    requires
        g.wf(),
        bag.to_multiset() == contour_spec(g).to_multiset(),
    ensures
        stitch_spec(contour_spec(g)) is Ok <==> stitch_spec(bag) is Ok,
        stitch_spec(contour_spec(g)) is Ok ==> is_rotation(
            stitch_spec(contour_spec(g))->Ok_0,
            stitch_spec(bag)->Ok_0,
        ),
{
    lemma_contour_traced(g);
    lemma_stitch_order_independent(contour_spec(g), bag);
}

/// The outline of a grid cannot be simplified further: none of its
/// vertices is redundant.
pub proof fn lemma_outline_is_minimal(g: GridView)
    requires
        g.wf(),
    ensures
        outline_spec(g) matches Ok(outline) ==> minimal_spec(outline) == outline,
{
    if outline_spec(g) is Ok {
        let bag = contour_spec(g);
        let l = stitch_spec(bag)->Ok_0;
        lemma_contour_traced(g);
        lemma_stitch_sound(bag);
        lemma_traced_loop_primitive(l, bag);
        lemma_minimal_idempotent(l);
    }
}

/// The simplified outline of the solid region of a grid.
pub fn grid_outline(grid: &Grid) -> (outline: Result<Vec<Point>, PipelineError>)
    requires
        grid@.wf(),
    ensures
        match outline {
            Ok(l) => outline_spec(grid@) == Ok::<Seq<Point>, PipelineError>(l@),
            Err(e) => outline_spec(grid@) == Err::<Seq<Point>, PipelineError>(e),
        },
        outline matches Ok(l) ==> l@.len() >= 3 && minimal_spec(l@) == l@,
{
    proof {
        lemma_outline_is_minimal(grid@);
    }
    let bag = contour_segments(grid);
    let stitched = match stitch(&bag) {
        Ok(l) => l,
        Err(e) => {
            return Err(PipelineError::Stitch(e));
        },
    };
    match minimal_vertices(&stitched) {
        Ok(m) => Ok(m),
        Err(e) => Err(PipelineError::Degenerate(e)),
    }
}

/// The convex collision polygons of a grid.
pub fn collider_polygons(grid: &Grid) -> (pieces: Result<Vec<Vec<Point>>, PipelineError>)
    requires
        grid@.wf(),
    ensures
        match pieces {
            Ok(found) => colliders_spec(grid@) == Ok::<Seq<Seq<Point>>, PipelineError>(
                views(found@),
            ),
            Err(e) => colliders_spec(grid@) == Err::<Seq<Seq<Point>>, PipelineError>(e),
        },
        pieces matches Ok(found) ==> outline_spec(grid@) matches Ok(outline) && forall|k: int|
            0 <= k < found@.len() ==> is_convex((#[trigger] found@[k])@, winds_left(outline)),
        pieces matches Ok(found) ==> outline_spec(grid@) matches Ok(outline) && total_area2(
            views(found@),
        ) == area2(outline),
{
    let outline = match grid_outline(grid) {
        Ok(l) => l,
        Err(e) => {
            return Err(e);
        },
    };
    match decompose_poly(&outline) {
        Ok(found) => Ok(found),
        Err(e) => Err(PipelineError::Degenerate(e)),
    }
}

/// The wireframe of a closed loop of `count` vertices: edge `k` joins the
/// vertex `k` to the next one, and the last edge leads back to vertex 0.
pub fn outline_edges(count: usize) -> (edges: Vec<[u32; 2]>)
    requires
        count <= 0x1_0000_0000,
    ensures
        edges@.len() == count,
        forall|k: int|
            0 <= k < count ==> (#[trigger] edges@[k])@[0] == k && edges@[k]@[1] == succ(
                count as int,
                k,
            ),
{
    let mut edges: Vec<[u32; 2]> = Vec::new();
    let mut k: usize = 0;
    while k < count
        invariant
            count <= 0x1_0000_0000,
            k <= count,
            edges@.len() == k,
            forall|m: int|
                0 <= m < k ==> (#[trigger] edges@[m])@[0] == m && edges@[m]@[1] == succ(
                    count as int,
                    m,
                ),
        decreases count - k,
    {
        let next: usize = if k + 1 == count {
            0
        } else {
            k + 1
        };
        let edge: [u32; 2] = [k as u32, next as u32];
        edges.push(edge);
        k += 1;
    }
    edges
}

} // verus!
