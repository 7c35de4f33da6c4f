use vstd::prelude::*;

verus! {

/// The failure conditions that operations of this crate can report.
#[derive(Clone, Copy, Debug, PartialEq, Eq, Structural)]
pub enum GridError {
    /// Matrix addition or subtraction with unequal shapes.
    DimensionMismatch,
    /// Matrix access past the row or column bound.
    IndexOutOfBounds,
    /// Edge access on a single node (no self-loops).
    InvalidEdge,
    /// Node index beyond the node count of a network.
    NodeOutOfRange,
    /// Determinant of a non-square matrix.
    NonSquareMatrix,
    /// Division by the additive identity.
    DivisionByZero,
}

} // verus!
