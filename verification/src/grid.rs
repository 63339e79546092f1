//! The integer grid on which all geometry is carried out.
//!
//! One grid step is the tolerance of the library: two positions that fall
//! into the same cell are the same position.

use vstd::prelude::*;

verus! {

/// Grid steps per model unit: the tolerance is a millionth of a model unit.
pub const GRID_PER_UNIT: i64 = 1_000_000;

/// The largest magnitude of a grid coordinate, a million model units.
pub const COORD_LIMIT: i64 = 1_000_000_000_000;

/// How far, in grid steps, a vertex may lie from a plane and still count as
/// lying on it.
pub const PLANE_EPSILON: i64 = 1;

/// A position in space, in grid steps.
#[derive(Clone, Copy, PartialEq, Eq, Structural, Debug)]
pub struct GridPoint {
    pub x: i64,
    pub y: i64,
    pub z: i64,
}

/// A position within a cutting plane, in grid steps.
#[derive(Clone, Copy, PartialEq, Eq, Structural, Debug)]
pub struct PlanePoint {
    pub x: i64,
    pub y: i64,
}

/// A straight piece of a cross-section's outline.
#[derive(Clone, Copy, PartialEq, Eq, Structural, Debug)]
pub struct Segment {
    pub start: PlanePoint,
    pub end: PlanePoint,
}

/// A coordinate within the range that the library computes on.
pub open spec fn coord_in_range(c: int) -> bool {
    -COORD_LIMIT <= c <= COORD_LIMIT
}

impl GridPoint {
    /// All three coordinates are within range.
    pub open spec fn in_range(self) -> bool {
        coord_in_range(self.x as int) && coord_in_range(self.y as int) && coord_in_range(
            self.z as int,
        )
    }

    /// The point's place in the plane, its height dropped.
    pub open spec fn flat(self) -> PlanePoint {
        PlanePoint { x: self.x, y: self.y }
    }

    /// The point's place in the plane, its height dropped.
    pub fn project(&self) -> (p: PlanePoint)
        ensures
            p == self.flat(),
    {
        PlanePoint { x: self.x, y: self.y }
    }
}

impl PlanePoint {
    /// Both coordinates are within range.
    pub open spec fn in_range(self) -> bool {
        coord_in_range(self.x as int) && coord_in_range(self.y as int)
    }

    /// The number that stands for this point where points are looked up:
    /// different points have different numbers.
    pub open spec fn key(self) -> u128 {
        ((self.x + 0x8000_0000_0000_0000) * 0x1_0000_0000_0000_0000 + (self.y
            + 0x8000_0000_0000_0000)) as u128
    }

    /// Computes `key`.
    pub fn lookup_key(&self) -> (k: u128)
        ensures
            k == self.key(),
    {
        let high: u128 = (self.x as i128 + 0x8000_0000_0000_0000i128) as u128;
        let low: u128 = (self.y as i128 + 0x8000_0000_0000_0000i128) as u128;
        high * 0x1_0000_0000_0000_0000u128 + low
    }

    /// Points with one key are one point.
    pub proof fn lemma_key_injective(self, other: PlanePoint)
        requires
            self.key() == other.key(),
        ensures
            self == other,
    {
    }
}

} // verus!
