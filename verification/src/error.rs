//! The ways in which an operation of this library can refuse its input.

use vstd::prelude::*;

verus! {

/// Why an operation refused its input.
#[derive(Clone, Copy, Debug, PartialEq, Eq)]
pub enum FractalError {
    /// A requested rectangle is empty or reaches past the matrix.
    OutOfBounds,
    /// Two matrices that must have the same width and height do not.
    DimensionMismatch,
    /// A size is not a whole multiple of the block size asked for.
    NotDivisible,
    /// A least-squares fit was asked of a block whose samples are all equal.
    DegenerateFit,
    /// No candidate block is left to search.
    EmptyCandidatePool,
}

} // verus!
