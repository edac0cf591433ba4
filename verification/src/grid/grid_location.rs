//! A place of the entity grid.

use vstd::prelude::*;
use vstd::std_specs::ops::AddSpecImpl;
use vstd::std_specs::ops::MulSpecImpl;
use vstd::std_specs::ops::SubSpecImpl;

verus! {

#[derive(Debug, Clone, Copy, PartialEq, Eq, Hash, Structural)]
pub struct GridLocation {
    pub x: i32,
    pub y: i32,
}

impl GridLocation {
    pub fn new(x: u32, y: u32) -> (location: Self)
        requires
            x <= i32::MAX,
            y <= i32::MAX,
        ensures
            location.x == x,
            location.y == y,
    {
        GridLocation { x: x as i32, y: y as i32 }
    }
}

impl core::ops::Add<GridLocation> for GridLocation {
    type Output = GridLocation;

    fn add(self, other: GridLocation) -> (sum: GridLocation) {
        GridLocation { x: self.x + other.x, y: self.y + other.y }
    }
}

impl AddSpecImpl<GridLocation> for GridLocation {
    open spec fn obeys_add_spec() -> bool {
        true
    }

    open spec fn add_req(self, other: GridLocation) -> bool {
        &&& i32::MIN <= self.x + other.x <= i32::MAX
        &&& i32::MIN <= self.y + other.y <= i32::MAX
    }

    open spec fn add_spec(self, other: GridLocation) -> GridLocation {
        GridLocation { x: (self.x + other.x) as i32, y: (self.y + other.y) as i32 }
    }
}

impl core::ops::Sub<GridLocation> for GridLocation {
    type Output = GridLocation;

    fn sub(self, other: GridLocation) -> (difference: GridLocation) {
        GridLocation { x: self.x - other.x, y: self.y - other.y }
    }
}

impl SubSpecImpl<GridLocation> for GridLocation {
    open spec fn obeys_sub_spec() -> bool {
        true
    }

    open spec fn sub_req(self, other: GridLocation) -> bool {
        &&& i32::MIN <= self.x - other.x <= i32::MAX
        &&& i32::MIN <= self.y - other.y <= i32::MAX
    }

    open spec fn sub_spec(self, other: GridLocation) -> GridLocation {
        GridLocation { x: (self.x - other.x) as i32, y: (self.y - other.y) as i32 }
    }
}

impl core::ops::Mul<i32> for GridLocation {
    type Output = GridLocation;

    fn mul(self, mult: i32) -> (product: GridLocation) {
        GridLocation { x: self.x * mult, y: self.y * mult }
    }
}

impl MulSpecImpl<i32> for GridLocation {
    open spec fn obeys_mul_spec() -> bool {
        true
    }

    open spec fn mul_req(self, mult: i32) -> bool {
        &&& i32::MIN <= self.x * mult <= i32::MAX
        &&& i32::MIN <= self.y * mult <= i32::MAX
    }

    open spec fn mul_spec(self, mult: i32) -> GridLocation {
        GridLocation { x: (self.x * mult) as i32, y: (self.y * mult) as i32 }
    }
}

} // verus!
