//! The failures of the later pipeline stages.

use vstd::prelude::*;
use crate::point::Point;

verus! {

/// A loop or polygon that encloses no usable region.
#[derive(Clone, Copy, Debug, PartialEq, Eq, Structural)]
pub enum DegenerateGeometry {
    /// Fewer than three vertices are left; `count` says how many.
    TooFewVertices { count: usize },
    /// The reflex vertex `notch` has no diagonal that resolves it.
    NoDiagonal { notch: Point },
}

} // verus!
