//! The ways in which the engine fails.

use vstd::prelude::*;

verus! {

/// A wave has no state left: all its weights are 0.
#[derive(Clone, Copy, Debug, PartialEq, Eq, Structural)]
pub struct Contradiction {}

/// Why a collapse did not complete.
#[derive(Clone, Copy, Debug, PartialEq, Eq, Structural)]
pub enum CollapseError {
    /// The grid has more cells than can be addressed.
    TooLarge,
    /// The waves handed in do not fit the grid or the catalog.
    Mismatch,
    /// No state is left for the cell with this index.
    Contradiction { cell: usize },
}

/// Why no picture can be made of a model.
#[derive(Clone, Copy, Debug, PartialEq, Eq, Structural)]
pub enum RenderError {
    /// The last collapse met a contradiction at the cell with this index.
    Contradiction { cell: usize },
    /// The side of the tile is 0, or a payload has fewer colours than the tile has pixels.
    Catalog,
}

} // verus!
