use vstd::prelude::*;

verus! {

/// The failure cases of matrix construction and reduction.
#[derive(Clone, Copy, Debug, PartialEq, Eq, Structural)]
pub enum MatrixError {
    /// Construction was given rows of unequal length.
    RaggedRows,
    /// A row operation was asked to divide (or scale) by the scalar zero.
    DivisionByZero,
    /// A square-only operation was given a non-square matrix.
    NotSquare,
    /// A zero pivot was met on the diagonal while inverting.
    NotInvertible,
}

impl MatrixError {
    /// A human-readable description of the failure.
    pub fn message(&self) -> (r: &'static str)
        ensures
            *self == MatrixError::RaggedRows ==> r@ == "Matrix rows must all have the same length"@,
            *self == MatrixError::DivisionByZero ==> r@ == "Division by zero in row operation"@,
            *self == MatrixError::NotSquare ==> r@ == "Matrix must be square to have an inverse"@,
            *self == MatrixError::NotInvertible ==> r@ == "Matrix is not invertible"@,
    {
        match self {
            MatrixError::RaggedRows => "Matrix rows must all have the same length",
            MatrixError::DivisionByZero => "Division by zero in row operation",
            MatrixError::NotSquare => "Matrix must be square to have an inverse",
            MatrixError::NotInvertible => "Matrix is not invertible",
        }
    }
}

} // verus!
