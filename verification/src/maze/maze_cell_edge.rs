//! The boundary between a cell and its neighbour in one direction.

use vstd::prelude::*;
use crate::consts::wall_light_probability;
use crate::maze::maze_direction::MazeDirection;
use crate::maze::paintings::Painting;
use crate::random::Probability;
use crate::random::Random;

verus! {

/// What stands on a boundary.
#[derive(Debug, Copy, Clone, PartialEq, Eq, Structural)]
pub enum EdgeType {
    Wall,
    Passage,
    Door { open: bool },
}

/// One side of a boundary, as seen from the cell that stores it. The type is
/// shared with the other side; the decorations belong to this side alone.
#[derive(Debug, Copy, Clone, PartialEq, Eq, Structural)]
pub struct MazeCellEdge {
    pub maze_direction: MazeDirection,
    pub edge_type: EdgeType,
    pub painting: Option<Painting>,
    pub wall_light: bool,
}

impl MazeCellEdge {
    /// The undecorated edge of a type.
    pub open spec fn plain(maze_direction: MazeDirection, edge_type: EdgeType) -> MazeCellEdge {
        MazeCellEdge { maze_direction, edge_type, painting: None, wall_light: false }
    }

    /// The edge after a draw for a wall light: only a wall takes one.
    pub open spec fn furnished(self, light: bool) -> MazeCellEdge {
        if self.edge_type == EdgeType::Wall && light {
            MazeCellEdge { wall_light: true, ..self }
        } else {
            self
        }
    }

    /// The edge with its door opened or closed; an edge that is no door is
    /// left as it is.
    pub open spec fn with_door_open(self, open: bool) -> MazeCellEdge {
        if self.edge_type is Door {
            MazeCellEdge { edge_type: EdgeType::Door { open }, ..self }
        } else {
            self
        }
    }

    pub open spec fn spec_is_passable(self) -> bool {
        self.edge_type == EdgeType::Passage || self.edge_type == (EdgeType::Door { open: true })
    }

    pub fn new(maze_direction: &MazeDirection, edge_type: EdgeType) -> (edge: MazeCellEdge)
        ensures
            edge == Self::plain(*maze_direction, edge_type),
    {
        MazeCellEdge { maze_direction: *maze_direction, edge_type, painting: None, wall_light: false }
    }

    pub fn get_edge_type(&self) -> (edge_type: EdgeType)
        ensures
            edge_type == self.edge_type,
    {
        self.edge_type
    }

    pub fn get_maze_direction(&self) -> (maze_direction: MazeDirection)
        ensures
            maze_direction == self.maze_direction,
    {
        self.maze_direction
    }

    /// Decorates the edge after a draw for a wall light.
    pub fn furnish(&mut self, light: bool)
        ensures
            *final(self) == old(self).furnished(light),
    {
        if self.is_wall() && light {
            self.wall_light = true;
        }
    }

    /// Draws the decoration of a wall with the default chance of a light;
    /// another edge is left as it is, and nothing is drawn for it.
    pub fn generate_furniture(&mut self, rand: &mut Random)
        ensures
            *final(self) == *old(self) || *final(self) == old(self).furnished(true),
    {
        let chance = wall_light_probability();
        self.generate_furniture_with(rand, &chance);
    }

    /// Draws the decoration of a wall with a given chance of a light.
    pub fn generate_furniture_with(&mut self, rand: &mut Random, chance: &Probability)
        ensures
            *final(self) == *old(self) || *final(self) == old(self).furnished(true),
            chance.is_never() ==> *final(self) == *old(self),
            chance.is_always() ==> *final(self) == old(self).furnished(true),
    {
        if self.is_wall() {
            let light = chance.sample(rand);
            self.furnish(light);
        }
    }

    /// Opens or closes the door of the edge; an edge that is no door is left
    /// as it is.
    pub fn set_door_open(&mut self, open: bool)
        ensures
            *final(self) == old(self).with_door_open(open),
    {
        if self.is_door() {
            self.edge_type = EdgeType::Door { open };
        }
    }

    pub fn is_wall(&self) -> (wall: bool)
        ensures
            wall == (self.edge_type == EdgeType::Wall),
    {
        match self.edge_type {
            EdgeType::Wall => true,
            _ => false,
        }
    }

    pub fn is_door(&self) -> (door: bool)
        ensures
            door == (self.edge_type is Door),
    {
        match self.edge_type {
            EdgeType::Door { open: _ } => true,
            _ => false,
        }
    }

    pub fn is_passable(&self) -> (passable: bool)
        ensures
            passable == self.spec_is_passable(),
    {
        match self.edge_type {
            EdgeType::Passage => true,
            EdgeType::Door { open } => open,
            EdgeType::Wall => false,
        }
    }
}

} // verus!
