use vstd::prelude::*;

verus! {

/// Why a board could not be built or a query could not be answered.
#[derive(Clone, Copy, Debug, PartialEq, Eq, Structural)]
pub enum BoardError {
    /// The side length is zero.
    InvalidDimension,
    /// The tiles do not cover the grid: there are not exactly `dim * dim` of them.
    UnpopulatedGrid,
    /// A cell index is not below `dim * dim`.
    IndexOutOfRange,
    /// The sequence of cells is no path: a cell is out of range or occurs
    /// twice, or two consecutive cells are not neighbours.
    InvalidPath,
}

} // verus!
