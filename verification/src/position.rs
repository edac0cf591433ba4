//! Integer grid coordinates.

use vstd::prelude::*;
use crate::maze::maze_direction::MazeDirection;
use vstd::std_specs::ops::AddSpecImpl;
use vstd::std_specs::ops::SubSpecImpl;
use vstd::std_specs::ops::MulSpecImpl;

verus! {

/// A point of the integer grid. Coordinates are signed so that the neighbour
/// of a border cell can be named before it is tested against the bounds.
#[derive(Debug, Clone, Copy, PartialEq, Eq, Hash, Structural)]
pub struct Position {
    pub x: i32,
    pub y: i32,
}

impl Position {
    pub fn new(x: i32, y: i32) -> (p: Self)
        ensures
            p.x == x,
            p.y == y,
    {
        Position { x, y }
    }

    pub fn new_from_i32(x: i32, y: i32) -> (p: Self)
        ensures
            p.x == x,
            p.y == y,
    {
        Position { x, y }
    }

    pub fn new_from_usize(x: usize, y: usize) -> (p: Self)
        requires
            x <= i32::MAX,
            y <= i32::MAX,
        ensures
            p.x == x,
            p.y == y,
    {
        Position { x: x as i32, y: y as i32 }
    }

    pub fn get_as_tuple(&self) -> (pair: (i32, i32))
        ensures
            pair == (self.x, self.y),
    {
        (self.x, self.y)
    }

    pub open spec fn spec_in_bounds(self, width: int, height: int) -> bool {
        0 <= self.x < width && 0 <= self.y < height
    }

    /// Whether the position lies on a grid of the given size.
    pub fn in_bounds(&self, width: i32, height: i32) -> (inside: bool)
        ensures
            inside == self.spec_in_bounds(width as int, height as int),
    {
        self.x >= 0 && self.x < width && self.y >= 0 && self.y < height
    }

    /// The neighbour of the position in a direction. The result is not
    /// tested against any bounds.
    pub fn offset(&self, direction: &MazeDirection) -> (neighbor: Position)
        requires
            i32::MIN < self.x < i32::MAX,
            i32::MIN < self.y < i32::MAX,
        ensures
            direction.leads(*self, neighbor),
    {
        direction.get_position(self)
    }

    /// The Manhattan distance between two positions.
    pub open spec fn spec_distance(self, other: Position) -> int {
        (if self.x >= other.x { self.x - other.x } else { other.x - self.x })
            + (if self.y >= other.y { self.y - other.y } else { other.y - self.y })
    }

    pub fn get_distance_to_position(&self, position: Position) -> (d: u64)
        ensures
            d == self.spec_distance(position),
    {
        let dx: u64 = if self.x >= position.x {
            (self.x as i64 - position.x as i64) as u64
        } else {
            (position.x as i64 - self.x as i64) as u64
        };
        let dy: u64 = if self.y >= position.y {
            (self.y as i64 - position.y as i64) as u64
        } else {
            (position.y as i64 - self.y as i64) as u64
        };
        dx + dy
    }
}

impl core::ops::Add<Position> for Position {
    type Output = Position;

    fn add(self, other: Position) -> (sum: Position) {
        Position { x: self.x + other.x, y: self.y + other.y }
    }
}

impl AddSpecImpl<Position> for Position {
    open spec fn obeys_add_spec() -> bool {
        true
    }

    open spec fn add_req(self, other: Position) -> bool {
        &&& i32::MIN <= self.x + other.x <= i32::MAX
        &&& i32::MIN <= self.y + other.y <= i32::MAX
    }

    open spec fn add_spec(self, other: Position) -> Position {
        Position { x: (self.x + other.x) as i32, y: (self.y + other.y) as i32 }
    }
}

impl core::ops::Sub<Position> for Position {
    type Output = Position;

    fn sub(self, other: Position) -> (difference: Position) {
        Position { x: self.x - other.x, y: self.y - other.y }
    }
}

impl SubSpecImpl<Position> for Position {
    open spec fn obeys_sub_spec() -> bool {
        true
    }

    open spec fn sub_req(self, other: Position) -> bool {
        &&& i32::MIN <= self.x - other.x <= i32::MAX
        &&& i32::MIN <= self.y - other.y <= i32::MAX
    }

    open spec fn sub_spec(self, other: Position) -> Position {
        Position { x: (self.x - other.x) as i32, y: (self.y - other.y) as i32 }
    }
}

impl core::ops::Mul<i32> for Position {
    type Output = Position;

    fn mul(self, mult: i32) -> (product: Position) {
        Position { x: self.x * mult, y: self.y * mult }
    }
}

impl MulSpecImpl<i32> for Position {
    open spec fn obeys_mul_spec() -> bool {
        true
    }

    open spec fn mul_req(self, mult: i32) -> bool {
        &&& i32::MIN <= self.x * mult <= i32::MAX
        &&& i32::MIN <= self.y * mult <= i32::MAX
    }

    open spec fn mul_spec(self, mult: i32) -> Position {
        Position { x: (self.x * mult) as i32, y: (self.y * mult) as i32 }
    }
}

} // verus!
