//! The entity grid.
//!
//! An entity is known to the grid by a number. A place of the grid holds at
//! most one entity.

use vstd::prelude::*;
use crate::grid::grid_location::GridLocation;

verus! {

pub const GRID_SIZE: usize = 20;

pub struct Grid {
    entities: [[Option<u64>; GRID_SIZE]; GRID_SIZE],
}

impl Grid {
    /// The entity at a place; none outside the grid.
    pub closed spec fn entity_at(&self, x: int, y: int) -> Option<u64> {
        if 0 <= x < GRID_SIZE && 0 <= y < GRID_SIZE {
            self.entities@[x]@[y]
        } else {
            None
        }
    }

    pub open spec fn spec_valid_index(location: GridLocation) -> bool {
        0 <= location.x < GRID_SIZE && 0 <= location.y < GRID_SIZE
    }

    /// The place that stands at a rank when the grid is walked column by
    /// column.
    pub open spec fn place(rank: int) -> GridLocation {
        GridLocation { x: (rank / GRID_SIZE as int) as i32, y: (rank % GRID_SIZE as int) as i32 }
    }

    /// The entities at the first `ranks` places of the walk, each with its
    /// place.
    pub open spec fn listing(&self, ranks: int) -> Seq<(u64, GridLocation)>
        decreases ranks,
    {
        if ranks <= 0 {
            Seq::empty()
        } else {
            let place = Self::place(ranks - 1);
            match self.entity_at(place.x as int, place.y as int) {
                Some(entity) => self.listing(ranks - 1).push((entity, place)),
                None => self.listing(ranks - 1),
            }
        }
    }

    /// Whether an entity stands at one of the first `ranks` places of the
    /// walk.
    pub open spec fn holds_before(&self, entity: u64, ranks: int) -> bool {
        exists|rank: int|
            0 <= rank < ranks && #[trigger] self.entity_at(
                Self::place(rank).x as int,
                Self::place(rank).y as int,
            ) == Some(entity)
    }

    /// Whether a place is the first of the walk at which an entity stands.
    pub open spec fn found_at(&self, entity: u64, location: GridLocation) -> bool {
        exists|rank: int|
            {
                &&& 0 <= rank < GRID_SIZE * GRID_SIZE
                &&& location == Self::place(rank)
                &&& #[trigger] self.entity_at(
                    Self::place(rank).x as int,
                    Self::place(rank).y as int,
                ) == Some(entity)
                &&& !self.holds_before(entity, rank)
            }
    }

    /// The grid with the entity at one place replaced.
    pub open spec fn differs_at(&self, before: &Grid, location: GridLocation, entity: Option<u64>) -> bool {
        forall|x: int, y: int|
            #[trigger] self.entity_at(x, y) == if x == location.x && y == location.y {
                entity
            } else {
                before.entity_at(x, y)
            }
    }

    /// An empty grid.
    pub fn new() -> (grid: Self)
        ensures
            forall|x: int, y: int| #[trigger] grid.entity_at(x, y) is None,
    {
        Grid { entities: [[None; GRID_SIZE]; GRID_SIZE] }
    }

    pub fn valid_index(location: &GridLocation) -> (valid: bool)
        ensures
            valid == Self::spec_valid_index(*location),
    {
        location.x >= 0 && location.y >= 0 && location.x < GRID_SIZE as i32 && location.y
            < GRID_SIZE as i32
    }

    /// The entity at a place; none outside the grid.
    pub fn get(&self, location: &GridLocation) -> (entity: Option<u64>)
        ensures
            entity == self.entity_at(location.x as int, location.y as int),
    {
        if Grid::valid_index(location) {
            self.entities[location.x as usize][location.y as usize]
        } else {
            None
        }
    }

    /// Puts an entity, or none, at a place of the grid.
    pub fn set(&mut self, location: &GridLocation, entity: Option<u64>)
        requires
            Self::spec_valid_index(*location),
        ensures
            final(self).differs_at(old(self), *location, entity),
    {
        self.entities[location.x as usize][location.y as usize] = entity;
    }

    pub fn occupied(&self, location: &GridLocation) -> (occupied: bool)
        ensures
            occupied == (Self::spec_valid_index(*location) && self.entity_at(
                location.x as int,
                location.y as int,
            ) is Some),
    {
        Grid::valid_index(location) && self.get(location).is_some()
    }

    /// The entities of the grid, each with its place, in the order of a walk
    /// column by column.
    pub fn iter(&self) -> (entities: Vec<(u64, GridLocation)>)
        ensures
            entities@ == self.listing(GRID_SIZE * GRID_SIZE),
    {
        let mut entities: Vec<(u64, GridLocation)> = Vec::new();
        let mut rank: usize = 0;
        while rank < GRID_SIZE * GRID_SIZE
            invariant
                rank <= GRID_SIZE * GRID_SIZE,
                entities@ == self.listing(rank as int),
            decreases GRID_SIZE * GRID_SIZE - rank,
        {
            let location = GridLocation::new((rank / GRID_SIZE) as u32, (rank % GRID_SIZE) as u32);
            match self.get(&location) {
                Some(entity) => {
                    entities.push((entity, location));
                },
                None => {},
            }
            rank = rank + 1;
        }
        entities
    }

    /// The first place, in the order of a walk column by column, at which an
    /// entity stands.
    pub fn find(&self, entity: u64) -> (found: Option<GridLocation>)
        ensures
            match found {
                Some(location) => self.found_at(entity, location),
                None => !self.holds_before(entity, GRID_SIZE * GRID_SIZE),
            },
    {
        let mut rank: usize = 0;
        while rank < GRID_SIZE * GRID_SIZE
            invariant
                rank <= GRID_SIZE * GRID_SIZE,
                !self.holds_before(entity, rank as int),
            decreases GRID_SIZE * GRID_SIZE - rank,
        {
            let location = GridLocation::new((rank / GRID_SIZE) as u32, (rank % GRID_SIZE) as u32);
            let here = match self.get(&location) {
                Some(held) => held == entity,
                None => false,
            };
            if here {
                assert(location == Self::place(rank as int));
                return Some(location);
            }
            rank = rank + 1;
        }
        None
    }

    /// Enters an entity at a place of the grid, and tells whether those who
    /// watch the place have to look again. A free place takes the entity. A
    /// place that holds another entity keeps it, and has to be looked at
    /// again. A place that holds the entity already is left alone.
    pub fn add_to_grid(&mut self, entity: u64, location: &GridLocation) -> (dirty: bool)
        requires
            Self::spec_valid_index(*location),
        ensures
            dirty == (old(self).entity_at(location.x as int, location.y as int) != Some(entity)),
            final(self).differs_at(
                old(self),
                *location,
                match old(self).entity_at(location.x as int, location.y as int) {
                    Some(existing) => Some(existing),
                    None => Some(entity),
                },
            ),
    {
        match self.get(location) {
            Some(existing) => existing != entity,
            None => {
                self.set(location, Some(entity));
                true
            },
        }
    }

    /// Takes an entity off the grid, at the first place where it stands, and
    /// returns that place; nothing changes where it stands nowhere.
    pub fn remove_from_grid(&mut self, entity: u64) -> (removed: Option<GridLocation>)
        ensures
            match removed {
                Some(location) => {
                    &&& Self::spec_valid_index(location)
                    &&& old(self).found_at(entity, location)
                    &&& final(self).differs_at(old(self), location, None)
                },
                None => {
                    &&& !old(self).holds_before(entity, GRID_SIZE * GRID_SIZE)
                    &&& forall|x: int, y: int|
                        #[trigger] final(self).entity_at(x, y) == old(self).entity_at(x, y)
                },
            },
    {
        match self.find(entity) {
            Some(location) => {
                self.set(&location, None);
                Some(location)
            },
            None => None,
        }
    }
}

} // verus!
