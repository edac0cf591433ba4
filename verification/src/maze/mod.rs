//! The maze: directions, edges, cells, rooms and the generator.

pub mod maze_direction;
pub mod paintings;
pub mod maze_cell_edge;
pub mod maze_cell;
pub mod maze_error;
pub mod maze_room;
pub mod maze_view;
pub mod maze;
pub mod maze_door;
pub mod room_links;
