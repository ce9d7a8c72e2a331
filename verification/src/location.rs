//! Grid cell coordinates: a pair of signed integers with component-wise
//! arithmetic and 4-neighborhood enumeration.

use vstd::prelude::*;

verus! {

/// An absolute grid cell coordinate. Grids are addressed by absolute
/// coordinate; out-of-range cells are treated as walls by convention at
/// call sites.
#[derive(Debug, PartialEq, Eq, Clone, Copy, Default, Hash, Structural)]
pub struct Location {
    pub x: i32,
    pub y: i32,
}

/// Two locations are 4-neighbors: they differ by exactly one step along
/// exactly one axis.
pub open spec fn spec_adjacent(a: Location, b: Location) -> bool {
    (a.x == b.x && (a.y - b.y == 1 || b.y - a.y == 1)) || (a.y == b.y && (a.x - b.x == 1 || b.x
        - a.x == 1))
}

impl Location {
    /// The four 4-neighbors of this location, in the fixed order east,
    /// west, north, south.
    pub fn neighbors(&self) -> (r: [Location; 4])
        requires
            i32::MIN < self.x < i32::MAX,
            i32::MIN < self.y < i32::MAX,
        ensures
            r[0].x == self.x + 1 && r[0].y == self.y,
            r[1].x == self.x - 1 && r[1].y == self.y,
            r[2].x == self.x && r[2].y == self.y + 1,
            r[3].x == self.x && r[3].y == self.y - 1,
            forall|i: int| 0 <= i < 4 ==> spec_adjacent(#[trigger] r[i], *self),
            forall|c: Location| spec_adjacent(c, *self) ==> exists|i: int|
                0 <= i < 4 && r[i] == c,
    {
        [
            Location { x: self.x + 1, y: self.y },
            Location { x: self.x - 1, y: self.y },
            Location { x: self.x, y: self.y + 1 },
            Location { x: self.x, y: self.y - 1 },
        ]
    }

    /// Component-wise sum of two coordinates.
    pub fn plus(self, other: Location) -> (r: Location)
        requires
            i32::MIN <= self.x + other.x <= i32::MAX,
            i32::MIN <= self.y + other.y <= i32::MAX,
        ensures
            r.x == self.x + other.x,
            r.y == self.y + other.y,
    {
        Location { x: self.x + other.x, y: self.y + other.y }
    }

    /// Component-wise difference of two coordinates.
    pub fn minus(self, other: Location) -> (r: Location)
        requires
            i32::MIN <= self.x - other.x <= i32::MAX,
            i32::MIN <= self.y - other.y <= i32::MAX,
        ensures
            r.x == self.x - other.x,
            r.y == self.y - other.y,
    {
        Location { x: self.x - other.x, y: self.y - other.y }
    }
}

} // verus!
