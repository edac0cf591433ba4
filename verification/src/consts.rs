//! The default configuration.

use vstd::prelude::*;
use crate::random::Probability;

verus! {

pub const MAZE_X: i32 = 5;

pub const MAZE_Y: i32 = 5;

pub const DOOR_PROBABILITY_NUMERATOR: u32 = 3;

pub const DOOR_PROBABILITY_DENOMINATOR: u32 = 10;

pub const WALL_LIGHT_PROBABILITY_NUMERATOR: u32 = 1;

pub const WALL_LIGHT_PROBABILITY_DENOMINATOR: u32 = 4;

pub const PROBABILITY_PAINTING_NUMERATOR: u32 = 1;

pub const PROBABILITY_PAINTING_DENOMINATOR: u32 = 4;

/// The chance that a connection to a new cell is a door: three in ten.
pub fn door_probability() -> (chance: Probability)
    ensures
        chance.spec_numerator() == DOOR_PROBABILITY_NUMERATOR,
        chance.spec_denominator() == DOOR_PROBABILITY_DENOMINATOR,
{
    Probability::ratio(DOOR_PROBABILITY_NUMERATOR, DOOR_PROBABILITY_DENOMINATOR)
}

/// The chance that a wall carries a light: one in four.
pub fn wall_light_probability() -> (chance: Probability)
    ensures
        chance.spec_numerator() == WALL_LIGHT_PROBABILITY_NUMERATOR,
        chance.spec_denominator() == WALL_LIGHT_PROBABILITY_DENOMINATOR,
{
    Probability::ratio(WALL_LIGHT_PROBABILITY_NUMERATOR, WALL_LIGHT_PROBABILITY_DENOMINATOR)
}

/// The chance that a wall carries a painting: one in four.
pub fn painting_probability() -> (chance: Probability)
    ensures
        chance.spec_numerator() == PROBABILITY_PAINTING_NUMERATOR,
        chance.spec_denominator() == PROBABILITY_PAINTING_DENOMINATOR,
{
    Probability::ratio(PROBABILITY_PAINTING_NUMERATOR, PROBABILITY_PAINTING_DENOMINATOR)
}

} // verus!
