//! The ways in which an operation of this library fails.
use vstd::prelude::*;

verus! {

/// Why an operation was refused. Every failure is decided by the input alone, and no
/// operation returns a partial result.
#[derive(Clone, Copy, Debug, PartialEq, Eq, Structural)]
pub enum Error {
    /// A point whose latitude or longitude was refused: not a finite number, or
    /// outside the range of a latitude.
    InvalidCoordinate,
    /// A resolution beyond the finest one.
    InvalidResolution,
    /// Rings that do not form a polygon.
    InvalidGeometry,
    /// An integer that is not the index of a cell, or, in what the grid listed for a
    /// cover, not of a cell of the resolution of the cover.
    InvalidCellIndex,
    /// A cell set in which a complete group of siblings meets its own parent.
    CompactionError,
}

} // verus!
