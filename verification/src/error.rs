use vstd::prelude::*;

verus! {

/// The ways a `Field` operation can be refused. Every refused operation
/// leaves the field unchanged.
#[derive(Clone, Copy, Debug, PartialEq, Eq, Structural)]
pub enum FieldError {
    /// The grid was asked for with zero rows or zero columns.
    InvalidDimensions,
    /// At least as many mines were requested as the grid has cells.
    InvalidMineCount,
    /// A coordinate outside `[0, rows) x [0, cols)` was passed.
    OutOfBounds,
}

} // verus!
