use vstd::prelude::*;

verus! {

/// Largest magnitude this subsystem accepts for a stored chunk origin or a
/// queried coordinate component. Keeping both within this bound means any
/// sum or difference of up to four components still fits in `i64`.
pub const COORD_LIMIT: i64 = 0x1000_0000_0000_0000;

/// An integer 2D vector; chunk-local unless stated otherwise.
#[derive(Clone, Copy, PartialEq, Eq, Structural, Debug)]
pub struct Coordinate {
    pub x: i64,
    pub y: i64,
}

/// Both components within the magnitude bound this subsystem works in.
pub open spec fn in_range(c: Coordinate) -> bool {
    &&& -COORD_LIMIT <= c.x <= COORD_LIMIT
    &&& -COORD_LIMIT <= c.y <= COORD_LIMIT
}

impl Coordinate {
    pub fn new(x: i64, y: i64) -> (r: Coordinate)
        ensures
            r.x == x,
            r.y == y,
    {
        Coordinate { x, y }
    }

    /// Component-wise sum.
    pub fn plus(self, other: Coordinate) -> (r: Coordinate)
        requires
            i64::MIN <= self.x + other.x <= i64::MAX,
            i64::MIN <= self.y + other.y <= i64::MAX,
        ensures
            r.x == self.x + other.x,
            r.y == self.y + other.y,
    {
        Coordinate { x: self.x + other.x, y: self.y + other.y }
    }

    /// Component-wise difference.
    pub fn minus(self, other: Coordinate) -> (r: Coordinate)
        requires
            i64::MIN <= self.x - other.x <= i64::MAX,
            i64::MIN <= self.y - other.y <= i64::MAX,
        ensures
            r.x == self.x - other.x,
            r.y == self.y - other.y,
    {
        Coordinate { x: self.x - other.x, y: self.y - other.y }
    }
}

/// An actor's coordinate frame: the origin of the chunk it stands in
/// (`global`) plus a chunk-local offset (`local`).
#[derive(Clone, Copy, PartialEq, Eq, Structural, Debug)]
pub struct GlobalPosition {
    pub global: Coordinate,
    pub local: Coordinate,
}

impl GlobalPosition {
    pub open spec fn absolute_x(self) -> int {
        self.global.x + self.local.x
    }

    pub open spec fn absolute_y(self) -> int {
        self.global.y + self.local.y
    }

    /// The position comparable across chunks: global origin plus local offset.
    pub fn absolute(&self) -> (r: Coordinate)
        requires
            i64::MIN <= self.absolute_x() <= i64::MAX,
            i64::MIN <= self.absolute_y() <= i64::MAX,
        ensures
            r.x == self.absolute_x(),
            r.y == self.absolute_y(),
    {
        self.global.plus(self.local)
    }
}

} // verus!
