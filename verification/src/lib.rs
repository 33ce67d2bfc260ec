//! Convex collision polygons from a binary occupancy grid.
//!
//! The pipeline runs in four stages, each a pure function of its input:
//! the cell classifier turns every 2x2 neighbourhood of the grid into
//! directed boundary segments, the stitcher joins the segments into one
//! closed loop, the simplifier drops the vertices that lie in the middle of
//! a straight run, and the decomposer splits the loop into convex pieces.
//! All coordinates are integers in half-grid units, so every orientation
//! test is exact.
//!
//! - `point`: lattice points, the signed area of a triangle, circular
//!   indexing.
//! - `grid`, `classifier`, `contour`: the occupancy grid, the lookup table
//!   of one neighbourhood, and the bag of boundary segments of a grid.
//! - `stitch`, `cycles`: the stitcher, and what a stitched loop has to do
//!   with its bag.
//! - `simplify`, `runs`: the simplifier, and the straight runs it removes.
//! - `decompose`, `polygon`, `simple`: the decomposer, the area of a loop,
//!   and loops whose edges do not touch.
//! - `traced`: what holds of every contour traced on a grid.
//! - `pipeline`, `error`: the stages in a row, and their failures.

pub mod point;
pub mod classifier;
pub mod grid;
pub mod contour;
pub mod stitch;
pub mod cycles;
pub mod traced;
pub mod error;
pub mod simplify;
pub mod runs;
pub mod decompose;
pub mod polygon;
pub mod simple;
pub mod pipeline;
