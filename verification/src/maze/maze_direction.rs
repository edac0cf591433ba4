//! The four compass directions of the grid.

use vstd::prelude::*;
use crate::position::Position;
use crate::random::Random;
use crate::random::gen_range;

verus! {

/// A compass direction. The enumeration order North, East, South, West is
/// fixed: it is the order in which a cell's undecided directions are counted.
///
/// North is towards smaller `y`, East towards larger `x`.
#[derive(Debug, Copy, Clone, PartialEq, Eq, Hash, Structural)]
pub enum MazeDirection {
    NORTH,
    EAST,
    SOUTH,
    WEST,
}

impl MazeDirection {
    /// The position of the direction in the fixed enumeration order.
    pub open spec fn spec_index(self) -> int {
        match self {
            MazeDirection::NORTH => 0,
            MazeDirection::EAST => 1,
            MazeDirection::SOUTH => 2,
            MazeDirection::WEST => 3,
        }
    }

    /// The direction at a position of the enumeration order.
    pub open spec fn spec_from_index(index: int) -> MazeDirection {
        if index == 0 {
            MazeDirection::NORTH
        } else if index == 1 {
            MazeDirection::EAST
        } else if index == 2 {
            MazeDirection::SOUTH
        } else {
            MazeDirection::WEST
        }
    }

    /// The step along the x axis.
    pub open spec fn dx(self) -> int {
        match self {
            MazeDirection::NORTH => 0,
            MazeDirection::EAST => 1,
            MazeDirection::SOUTH => 0,
            MazeDirection::WEST => -1,
        }
    }

    /// The step along the y axis.
    pub open spec fn dy(self) -> int {
        match self {
            MazeDirection::NORTH => -1,
            MazeDirection::EAST => 0,
            MazeDirection::SOUTH => 1,
            MazeDirection::WEST => 0,
        }
    }

    pub open spec fn spec_opposite(self) -> MazeDirection {
        match self {
            MazeDirection::NORTH => MazeDirection::SOUTH,
            MazeDirection::EAST => MazeDirection::WEST,
            MazeDirection::SOUTH => MazeDirection::NORTH,
            MazeDirection::WEST => MazeDirection::EAST,
        }
    }

    /// Whether `to` is the neighbour of `from` in this direction.
    pub open spec fn leads(self, from: Position, to: Position) -> bool {
        to.x == from.x + self.dx() && to.y == from.y + self.dy()
    }

    /// The direction that leads from a position to a neighbour of it.
    pub open spec fn between(from: Position, to: Position) -> MazeDirection {
        if MazeDirection::NORTH.leads(from, to) {
            MazeDirection::NORTH
        } else if MazeDirection::EAST.leads(from, to) {
            MazeDirection::EAST
        } else if MazeDirection::SOUTH.leads(from, to) {
            MazeDirection::SOUTH
        } else {
            MazeDirection::WEST
        }
    }

    pub fn get_direction_from_index(index: u32) -> (direction: MazeDirection)
        requires
            index < 4,
        ensures
            direction == Self::spec_from_index(index as int),
            direction.spec_index() == index,
    {
        if index == 0 {
            MazeDirection::NORTH
        } else if index == 1 {
            MazeDirection::EAST
        } else if index == 2 {
            MazeDirection::SOUTH
        } else {
            MazeDirection::WEST
        }
    }

    pub fn get_index(&self) -> (index: u32)
        ensures
            index == self.spec_index(),
            Self::spec_from_index(index as int) == *self,
    {
        match self {
            MazeDirection::NORTH => 0,
            MazeDirection::EAST => 1,
            MazeDirection::SOUTH => 2,
            MazeDirection::WEST => 3,
        }
    }

    /// Draws one of the four directions.
    pub fn get_random_direction(rand: &mut Random) -> (direction: MazeDirection) {
        let index: usize = gen_range(rand, 0, 4);
        Self::direction_for_draw(index)
    }

    /// The direction that a draw below four selects.
    pub fn direction_for_draw(draw: usize) -> (direction: MazeDirection)
        requires
            draw < 4,
        ensures
            direction == Self::spec_from_index(draw as int),
    {
        Self::get_direction_from_index(draw as u32)
    }

    /// The neighbour of `position` in this direction. The result is not
    /// tested against any bounds.
    pub fn get_position(&self, position: &Position) -> (neighbor: Position)
        requires
            i32::MIN < position.x < i32::MAX,
            i32::MIN < position.y < i32::MAX,
        ensures
            self.leads(*position, neighbor),
    {
        match self {
            MazeDirection::NORTH => Position::new(position.x, position.y - 1),
            MazeDirection::EAST => Position::new(position.x + 1, position.y),
            MazeDirection::SOUTH => Position::new(position.x, position.y + 1),
            MazeDirection::WEST => Position::new(position.x - 1, position.y),
        }
    }

    pub fn get_opposite_direction(&self) -> (opposite: MazeDirection)
        ensures
            opposite == self.spec_opposite(),
    {
        match self {
            MazeDirection::NORTH => MazeDirection::SOUTH,
            MazeDirection::EAST => MazeDirection::WEST,
            MazeDirection::SOUTH => MazeDirection::NORTH,
            MazeDirection::WEST => MazeDirection::EAST,
        }
    }

    /// The unit step of the direction, as a position relative to the origin.
    pub fn to_position_modifier(&self) -> (step: Position)
        ensures
            step.x == self.dx(),
            step.y == self.dy(),
    {
        match self {
            MazeDirection::NORTH => Position::new(0, -1),
            MazeDirection::EAST => Position::new(1, 0),
            MazeDirection::SOUTH => Position::new(0, 1),
            MazeDirection::WEST => Position::new(-1, 0),
        }
    }

    /// The direction that leads from `position1` to its neighbour
    /// `position2`.
    pub fn get_direction_position_from_positions(position1: &Position, position2: &Position) -> (direction: MazeDirection)
        requires
            exists|d: MazeDirection| d.leads(*position1, *position2),
        ensures
            direction.leads(*position1, *position2),
            direction == Self::between(*position1, *position2),
    {
        let x: i64 = position2.x as i64 - position1.x as i64;
        let y: i64 = position2.y as i64 - position1.y as i64;
        if x == 0 && y == -1 {
            MazeDirection::NORTH
        } else if x == 1 && y == 0 {
            MazeDirection::EAST
        } else if x == 0 && y == 1 {
            MazeDirection::SOUTH
        } else {
            MazeDirection::WEST
        }
    }

    /// Turning around twice gives the direction back, and the opposite
    /// direction steps the opposite way.
    pub proof fn lemma_opposite(self)
        ensures
            self.spec_opposite().spec_opposite() == self,
            self.spec_opposite() != self,
            self.spec_opposite().dx() == -self.dx(),
            self.spec_opposite().dy() == -self.dy(),
    {
    }

    /// At most one direction leads from a position to another.
    pub proof fn lemma_leads_unique(self, from: Position, to: Position)
        requires
            self.leads(from, to),
        ensures
            Self::between(from, to) == self,
            forall|other: MazeDirection| other.leads(from, to) ==> other == self,
    {
    }

    /// Index and direction determine each other.
    pub proof fn lemma_index_round_trip(self, index: int)
        ensures
            Self::spec_from_index(self.spec_index()) == self,
            0 <= self.spec_index() < 4,
            0 <= index < 4 ==> Self::spec_from_index(index).spec_index() == index,
    {
    }
}

} // verus!
