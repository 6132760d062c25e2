//! Grid coordinates and the four unit steps of the mover.

use vstd::prelude::*;

verus! {

/// A grid coordinate or an offset: row first, column second.
pub type Vector = (i16, i16);

/// A list of coordinates.
pub type Vectors = Vec<Vector>;

/// The component-wise sum of two vectors, over the integers.
pub open spec fn plus(a: (int, int), b: (int, int)) -> (int, int) {
    (a.0 + b.0, a.1 + b.1)
}

/// The mathematical value of a machine vector.
pub open spec fn point(v: Vector) -> (int, int) {
    (v.0 as int, v.1 as int)
}

/// Row-major order on coordinates: `a` is scanned strictly before `b`.
pub open spec fn precedes(a: (int, int), b: (int, int)) -> bool {
    a.0 < b.0 || (a.0 == b.0 && a.1 < b.1)
}

/// Adds two vectors component by component.
pub fn vec_plus(v1: Vector, v2: Vector) -> (sum: Vector)
    requires
        i16::MIN <= v1.0 + v2.0 <= i16::MAX,
        i16::MIN <= v1.1 + v2.1 <= i16::MAX,
    ensures
        point(sum) == plus(point(v1), point(v2)),
{
    (v1.0 + v2.0, v1.1 + v2.1)
}

/// One of the four unit steps the mover can take.
#[derive(Clone, Copy, Debug, PartialEq, Eq, Structural)]
pub enum Direction {
    Up,
    Down,
    Left,
    Right,
}

impl Direction {
    /// The offset that one step in this direction adds to a coordinate.
    pub open spec fn offset(self) -> (int, int) {
        match self {
            Direction::Up => (-1, 0),
            Direction::Down => (1, 0),
            Direction::Left => (0, -1),
            Direction::Right => (0, 1),
        }
    }

    /// The offset of this direction as a machine vector.
    pub fn delta(self) -> (d: Vector)
        ensures
            point(d) == self.offset(),
    {
        match self {
            Direction::Up => (-1, 0),
            Direction::Down => (1, 0),
            Direction::Left => (0, -1),
            Direction::Right => (0, 1),
        }
    }
}

} // verus!
