//! Grid positions and the distance between them.

use vstd::prelude::*;

verus! {

/// One cell of a grid: its column first, then its row, both counted from the
/// top left corner.
///
/// Coordinates are signed: the position to the left of column 0 is
/// `(-1, y)`, which lies outside every grid, and no step from an edge wraps
/// round to a large coordinate.
#[derive(Clone, Copy, Debug, PartialEq, Eq, Structural, PartialOrd, Ord, Hash)]
pub struct Pos(pub i32, pub i32);

/// The Manhattan distance: the sum of the absolute coordinate differences.
pub open spec fn manhattan(a: Pos, b: Pos) -> nat {
    vstd::math::abs(a.0 - b.0) + vstd::math::abs(a.1 - b.1)
}

/// Two positions are adjacent when they differ by exactly one unit in exactly
/// one coordinate.
pub open spec fn adjacent(a: Pos, b: Pos) -> bool {
    ||| a.1 == b.1 && (b.0 == a.0 + 1 || b.0 == a.0 - 1)
    ||| a.0 == b.0 && (b.1 == a.1 + 1 || b.1 == a.1 - 1)
}

impl Pos {
    /// The Manhattan distance from `self` to `other`.
    pub fn distance(&self, other: &Pos) -> (d: u64)
        ensures
            d == manhattan(*self, *other),
    {
        let dx: i64 = self.0 as i64 - other.0 as i64;
        let dy: i64 = self.1 as i64 - other.1 as i64;
        let ax: i64 = if dx < 0 { -dx } else { dx };
        let ay: i64 = if dy < 0 { -dy } else { dy };
        (ax + ay) as u64
    }
}

} // verus!
