//! A sliding-tile picture puzzle engine: an image is cut into a square grid
//! of tiles, the tiles are shuffled, and players restore the picture by
//! swapping pairs of cells. Every operation here is verified.
use vstd::prelude::*;

pub mod raster;
pub mod permutation;
pub mod tiles;
pub mod compositor;
pub mod engine;

verus! {

/// The ways an engine operation can be refused.
#[derive(Clone, Copy, Debug, PartialEq, Eq, Structural)]
pub enum PuzzleError {
    /// The image is too small to give every tile at least one pixel.
    InvalidImage,
    /// A cell position lies outside the grid.
    IndexOutOfRange,
    /// A move was made while no puzzle is in progress.
    InvalidState,
}

} // verus!
