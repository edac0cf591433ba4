//! Grid maze generation with themed rooms.
//!
//! A maze is a rectangular grid of cells. Neighbouring cells are separated by
//! a wall, joined by an open passage, or joined by a door. Cells are grouped
//! into rooms that share a decor theme; a door and a wall between two cells
//! always separate different themes, and a passage always stays within one
//! room.

pub mod consts;
pub mod game_states;
pub mod grid;
pub mod monster;
pub mod pathfinding_node;
pub mod position;
pub mod random;
pub mod maze;
