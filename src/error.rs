//! What can go wrong when building a grid or generating a cave.

use vstd::prelude::*;

verus! {

#[derive(Debug, Clone, Copy, PartialEq, Eq, Structural)]
pub enum GenError {
    /// A flat sequence of cells whose length is not `width * height`.
    DimensionMismatch,
    /// Seeding and smoothing left no floor at all.
    EmptyRegionSet,
    /// Fewer than two floor cells to place a start and an end on.
    InsufficientFloorCells,
}

} // verus!
