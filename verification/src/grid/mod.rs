//! A fixed square grid that keeps track of which entity stands where.

pub mod grid;
pub mod grid_location;
