//! Paintings that decorate walls.

use vstd::prelude::*;
use crate::consts::painting_probability;
use crate::random::Random;
use crate::random::gen_range;
use crate::random::gen_ratio;

verus! {

#[derive(Debug, Copy, Clone, PartialEq, Eq, Structural)]
pub enum PaintingType {
    Square,
    LongHorizontal,
    Portrait,
}

impl PaintingType {
    pub open spec fn spec_from_index(index: int) -> PaintingType {
        if index == 0 {
            PaintingType::Square
        } else if index == 1 {
            PaintingType::LongHorizontal
        } else {
            PaintingType::Portrait
        }
    }

    /// Width and height of the canvas, in wall units.
    pub fn get_dimensions(&self) -> (size: (u32, u32))
        ensures
            size == match *self {
                PaintingType::Square => (2u32, 2u32),
                PaintingType::LongHorizontal => (3u32, 1u32),
                PaintingType::Portrait => (2u32, 3u32),
            },
    {
        match self {
            PaintingType::Square => (2, 2),
            PaintingType::LongHorizontal => (3, 1),
            PaintingType::Portrait => (2, 3),
        }
    }

    pub fn get_painting_type_from_index(index: u32) -> (painting_type: PaintingType)
        requires
            index < 3,
        ensures
            painting_type == Self::spec_from_index(index as int),
    {
        if index == 0 {
            PaintingType::Square
        } else if index == 1 {
            PaintingType::LongHorizontal
        } else {
            PaintingType::Portrait
        }
    }

    pub fn get_random_painting_type(rand: &mut Random) -> (painting_type: PaintingType) {
        let index: usize = gen_range(rand, 0, 3);
        PaintingType::get_painting_type_from_index(index as u32)
    }
}

#[derive(Debug, Copy, Clone, PartialEq, Eq, Structural)]
pub enum PaintingColor {
    Red,
    Yellow,
    Blue,
}

impl PaintingColor {
    pub open spec fn spec_from_index(index: int) -> PaintingColor {
        if index == 0 {
            PaintingColor::Red
        } else if index == 1 {
            PaintingColor::Yellow
        } else {
            PaintingColor::Blue
        }
    }

    /// The red, green and blue channels of the colour.
    pub fn get_color(&self) -> (rgb: (u8, u8, u8))
        ensures
            rgb == match *self {
                PaintingColor::Red => (255u8, 0u8, 0u8),
                PaintingColor::Yellow => (255u8, 255u8, 0u8),
                PaintingColor::Blue => (0u8, 0u8, 255u8),
            },
    {
        match self {
            PaintingColor::Red => (255, 0, 0),
            PaintingColor::Yellow => (255, 255, 0),
            PaintingColor::Blue => (0, 0, 255),
        }
    }

    pub fn get_painting_color_from_index(index: u32) -> (painting_color: PaintingColor)
        requires
            index < 3,
        ensures
            painting_color == Self::spec_from_index(index as int),
    {
        if index == 0 {
            PaintingColor::Red
        } else if index == 1 {
            PaintingColor::Yellow
        } else {
            PaintingColor::Blue
        }
    }

    pub fn get_random_painting_color(rand: &mut Random) -> (painting_color: PaintingColor) {
        let index: usize = gen_range(rand, 0, 3);
        PaintingColor::get_painting_color_from_index(index as u32)
    }
}

/// A painting: its format, its colour, and the side of the wall it hangs on.
#[derive(Debug, Copy, Clone, PartialEq, Eq, Structural)]
pub struct Painting {
    pub painting_type: PaintingType,
    pub painting_color: PaintingColor,
    pub is_north_west: bool,
}

impl Painting {
    /// The painting that three draws select.
    pub fn from_draws(type_index: u32, color_index: u32, is_north_west: bool) -> (painting: Painting)
        requires
            type_index < 3,
            color_index < 3,
        ensures
            painting == (Painting {
                painting_type: PaintingType::spec_from_index(type_index as int),
                painting_color: PaintingColor::spec_from_index(color_index as int),
                is_north_west,
            }),
    {
        Painting {
            painting_type: PaintingType::get_painting_type_from_index(type_index),
            painting_color: PaintingColor::get_painting_color_from_index(color_index),
            is_north_west,
        }
    }

    /// Decides by a draw whether a wall gets a painting, and if so draws its
    /// format, colour and side, in this order.
    pub fn generate_random_painting(rand: &mut Random) -> (painting: Option<Painting>) {
        let chance = painting_probability();
        if !chance.sample(rand) {
            return None;
        }
        let type_index: usize = gen_range(rand, 0, 3);
        let color_index: usize = gen_range(rand, 0, 3);
        let is_north_west = gen_ratio(rand, 1, 2);
        Some(Painting::from_draws(type_index as u32, color_index as u32, is_north_west))
    }
}

} // verus!
