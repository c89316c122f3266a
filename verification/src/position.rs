//! Zero-based (column, row) cell coordinates.

use vstd::prelude::*;

verus! {

/// A cell's place in the grid: column first, then row, both zero-based.
#[derive(Clone, Copy, Debug, PartialEq, Eq, Structural)]
pub struct Position(pub usize, pub usize);

/// Two distinct cells whose coordinates differ by at most one on each axis.
pub open spec fn spec_is_neighbor(a: Position, b: Position) -> bool {
    &&& !(a.0 == b.0 && a.1 == b.1)
    &&& -1 <= a.0 - b.0 <= 1
    &&& -1 <= a.1 - b.1 <= 1
}

impl Position {
    /// Whether `other` is one of the up to eight cells adjacent to `self`.
    pub fn is_neighbor(&self, other: &Self) -> (r: bool)
        ensures
            r == spec_is_neighbor(*self, *other),
    {
        let col_near: bool = if self.0 <= other.0 {
            other.0 - self.0 <= 1
        } else {
            self.0 - other.0 <= 1
        };
        let row_near: bool = if self.1 <= other.1 {
            other.1 - self.1 <= 1
        } else {
            self.1 - other.1 <= 1
        };
        let same: bool = self.0 == other.0 && self.1 == other.1;
        !same && col_near && row_near
    }
}

} // verus!
