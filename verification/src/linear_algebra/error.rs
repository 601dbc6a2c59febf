//! Error kinds reported by matrix operations.

use vstd::prelude::*;

verus! {

/// Everything that can go wrong in a matrix operation.
///
/// Shape and bounds violations carry the numbers a caller needs to see what
/// was wrong: `ShapeError` reports the expected and the actual size, and
/// `IndexOutOfBounds` reports the maximal valid index of the axis that was
/// exceeded (not the offending index).
#[derive(Clone, Copy, Debug, PartialEq, Eq, Structural)]
pub enum MatrixError {
    /// A row, vector or matrix length differs from the expected one.
    ShapeError { expected: usize, got: usize },
    /// A row or column index lies outside the matrix; `max` is the largest
    /// valid index on the violated axis (0 when that axis is empty).
    IndexOutOfBounds { max: usize },
    /// The operation is only defined for square matrices.
    NotSquare,
    /// A determinant was requested of a 1-by-1 matrix, for which no
    /// meaningful scalar determinant is defined here.
    DegenerateMatrix,
    /// Inversion was requested of a matrix whose determinant is zero.
    SingularMatrix,
    /// The operation is declared but intentionally not implemented.
    NotImplemented,
}

} // verus!
