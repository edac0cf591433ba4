//! Why a maze cannot be generated.

use vstd::prelude::*;

verus! {

#[derive(Debug, Clone, Copy, PartialEq, Eq, Structural)]
pub enum MazeError {
    /// The width or the height is zero or negative.
    InvalidSize,
    /// There are no room settings to choose from.
    EmptySettings,
    /// A room needs settings other than the excluded ones, and there are none.
    NoOtherSettings,
}

} // verus!
