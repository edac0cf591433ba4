//! A door leaf and the way it swings open.
//!
//! A door is closed until somebody steps up to it. It then swings away from
//! the visitor, forward or backward, and stays open.

use vstd::prelude::*;
use crate::maze::maze_direction::MazeDirection;
use crate::position::Position;

verus! {

#[derive(Debug, Copy, Clone, PartialEq, Eq, Structural)]
pub enum DoorState {
    Closed,
    OpeningForward,
    OpeningBackward,
    Open,
}

impl DoorState {
    /// The state after the door was asked to open: an open door stays open,
    /// any other door swings the way it is asked to.
    pub open spec fn asked_to_open(self, swing_forward: bool) -> DoorState {
        if self == DoorState::Open {
            DoorState::Open
        } else if swing_forward {
            DoorState::OpeningForward
        } else {
            DoorState::OpeningBackward
        }
    }

    /// The state after a swing has reached its end: a door that was opening
    /// is open, any other door is as it was.
    pub open spec fn swung_out(self) -> DoorState {
        match self {
            DoorState::OpeningForward => DoorState::Open,
            DoorState::OpeningBackward => DoorState::Open,
            other => other,
        }
    }
}

/// What a door holds: the direction in which it leaves its cell, and its
/// state.
pub struct DoorView {
    pub maze_direction: MazeDirection,
    pub state: DoorState,
}

impl DoorView {
    /// The door after a player arrived at a position, for a door on the cell
    /// at `door_position`: a player on that cell swings it forward, a player
    /// on the cell behind it swings it backward, any other player leaves it
    /// as it is.
    pub open spec fn met_by(self, door_position: Position, player_position: Position) -> DoorView {
        if player_position == door_position {
            DoorView { state: self.state.asked_to_open(true), ..self }
        } else if self.maze_direction.leads(door_position, player_position) {
            DoorView { state: self.state.asked_to_open(false), ..self }
        } else {
            self
        }
    }
}

pub struct MazeDoor {
    maze_direction: MazeDirection,
    state: DoorState,
}

impl View for MazeDoor {
    type V = DoorView;

    closed spec fn view(&self) -> DoorView {
        DoorView { maze_direction: self.maze_direction, state: self.state }
    }
}

impl MazeDoor {
    /// A closed door.
    pub fn new(maze_direction: MazeDirection) -> (door: Self)
        ensures
            door@ == (DoorView { maze_direction, state: DoorState::Closed }),
    {
        MazeDoor { maze_direction, state: DoorState::Closed }
    }

    pub fn get_maze_direction(&self) -> (maze_direction: &MazeDirection)
        ensures
            *maze_direction == self@.maze_direction,
    {
        &self.maze_direction
    }

    pub fn get_state(&self) -> (state: DoorState)
        ensures
            state == self@.state,
    {
        self.state
    }

    pub fn is_open(&self) -> (open: bool)
        ensures
            open == (self@.state == DoorState::Open),
    {
        match self.state {
            DoorState::Open => true,
            _ => false,
        }
    }

    /// Asks the door to open, forward or backward.
    pub fn open_door(&mut self, swing_forward: bool)
        ensures
            final(self)@ == (DoorView {
                state: old(self)@.state.asked_to_open(swing_forward),
                ..old(self)@
            }),
    {
        if self.is_open() {
            return;
        }
        if swing_forward {
            self.state = DoorState::OpeningForward
        } else {
            self.state = DoorState::OpeningBackward
        }
    }

    /// Tells the door that its swing has reached the end.
    pub fn finish_opening(&mut self)
        ensures
            final(self)@ == (DoorView { state: old(self)@.state.swung_out(), ..old(self)@ }),
    {
        match self.state {
            DoorState::OpeningForward => {
                self.state = DoorState::Open;
            },
            DoorState::OpeningBackward => {
                self.state = DoorState::Open;
            },
            _ => {},
        }
    }

    /// Lets the door react to a player who arrived at a position.
    pub fn meet_player(&mut self, door_position: Position, player_position: Position)
        ensures
            final(self)@ == old(self)@.met_by(door_position, player_position),
    {
        let step = self.maze_direction.to_position_modifier();
        let dx: i64 = player_position.x as i64 - door_position.x as i64;
        let dy: i64 = player_position.y as i64 - door_position.y as i64;
        if dx == 0 && dy == 0 {
            self.open_door(true);
        } else if dx == step.x as i64 && dy == step.y as i64 {
            self.open_door(false);
        }
    }
}

} // verus!
