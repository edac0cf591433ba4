//! One cell of the grid and the edges decided for it.

use vstd::prelude::*;
use crate::maze::maze_cell_edge::EdgeType;
use crate::maze::maze_cell_edge::MazeCellEdge;
use crate::maze::maze_direction::MazeDirection;
use crate::position::Position;
use crate::random::Random;
use crate::random::gen_range;

verus! {

/// What a cell holds: where it lies, the room it was put into, whether it has
/// been carved, and for each direction the edge decided so far, if any.
pub struct CellView {
    pub position: Position,
    pub room_index: usize,
    pub initialized: bool,
    pub north: Option<MazeCellEdge>,
    pub east: Option<MazeCellEdge>,
    pub south: Option<MazeCellEdge>,
    pub west: Option<MazeCellEdge>,
}

impl CellView {
    /// A cell without edges.
    pub open spec fn blank(position: Position, room_index: usize) -> CellView {
        CellView {
            position,
            room_index,
            initialized: false,
            north: None,
            east: None,
            south: None,
            west: None,
        }
    }

    pub open spec fn edge(self, direction: MazeDirection) -> Option<MazeCellEdge> {
        match direction {
            MazeDirection::NORTH => self.north,
            MazeDirection::EAST => self.east,
            MazeDirection::SOUTH => self.south,
            MazeDirection::WEST => self.west,
        }
    }

    pub open spec fn has_edge(self, direction: MazeDirection) -> bool {
        self.edge(direction) is Some
    }

    /// The type of the edge in a direction, if it is decided.
    pub open spec fn edge_type(self, direction: MazeDirection) -> Option<EdgeType> {
        match self.edge(direction) {
            Some(edge) => Some(edge.edge_type),
            None => None,
        }
    }

    pub open spec fn with_edge(self, direction: MazeDirection, edge: MazeCellEdge) -> CellView {
        match direction {
            MazeDirection::NORTH => CellView { north: Some(edge), ..self },
            MazeDirection::EAST => CellView { east: Some(edge), ..self },
            MazeDirection::SOUTH => CellView { south: Some(edge), ..self },
            MazeDirection::WEST => CellView { west: Some(edge), ..self },
        }
    }

    /// The cell with the door in a direction opened or closed; where there is
    /// no door in that direction, the cell as it is.
    pub open spec fn with_door_open(self, direction: MazeDirection, open: bool) -> CellView {
        match self.edge(direction) {
            Some(edge) => self.with_edge(direction, edge.with_door_open(open)),
            None => self,
        }
    }

    /// One if the direction is undecided, else zero.
    pub open spec fn unused(self, direction: MazeDirection) -> int {
        if self.has_edge(direction) {
            0
        } else {
            1
        }
    }

    /// The number of undecided directions.
    pub open spec fn unused_count(self) -> int {
        self.unused(MazeDirection::NORTH) + self.unused(MazeDirection::EAST) + self.unused(
            MazeDirection::SOUTH,
        ) + self.unused(MazeDirection::WEST)
    }

    /// The number of undecided directions that come before a place of the
    /// enumeration order.
    pub open spec fn unused_before(self, index: int) -> int {
        (if index > 0 {
            self.unused(MazeDirection::NORTH)
        } else {
            0
        }) + (if index > 1 {
            self.unused(MazeDirection::EAST)
        } else {
            0
        }) + (if index > 2 {
            self.unused(MazeDirection::SOUTH)
        } else {
            0
        }) + (if index > 3 {
            self.unused(MazeDirection::WEST)
        } else {
            0
        })
    }

    /// The direction alone if it is undecided, else nothing.
    pub open spec fn unused_alone(self, direction: MazeDirection) -> Seq<MazeDirection> {
        if self.has_edge(direction) {
            Seq::empty()
        } else {
            seq![direction]
        }
    }

    /// The undecided directions, collected in enumeration order.
    pub open spec fn unused_directions(self) -> Seq<MazeDirection> {
        self.unused_alone(MazeDirection::NORTH) + self.unused_alone(MazeDirection::EAST)
            + self.unused_alone(MazeDirection::SOUTH) + self.unused_alone(MazeDirection::WEST)
    }

    /// All four directions are decided.
    pub open spec fn is_complete(self) -> bool {
        self.north is Some && self.east is Some && self.south is Some && self.west is Some
    }

    /// The cell is what `before` was, with some more edges decided.
    pub open spec fn keeps(self, before: CellView) -> bool {
        &&& self.position == before.position
        &&& self.room_index == before.room_index
        &&& self.initialized == before.initialized
        &&& before.north is Some ==> self.north == before.north
        &&& before.east is Some ==> self.east == before.east
        &&& before.south is Some ==> self.south == before.south
        &&& before.west is Some ==> self.west == before.west
    }

    /// Deciding an edge changes the edge in that direction and nothing else.
    pub proof fn lemma_with_edge(self, direction: MazeDirection, edge: MazeCellEdge)
        ensures
            self.with_edge(direction, edge).position == self.position,
            self.with_edge(direction, edge).room_index == self.room_index,
            self.with_edge(direction, edge).initialized == self.initialized,
            forall|other: MazeDirection|
                #[trigger] self.with_edge(direction, edge).edge(other) == if other == direction {
                    Some(edge)
                } else {
                    self.edge(other)
                },
            !self.has_edge(direction) ==> self.with_edge(direction, edge).unused_count()
                == self.unused_count() - 1,
            !self.has_edge(direction) ==> self.with_edge(direction, edge).keeps(self),
    {
    }

    /// Opening or closing a door changes the edge in that direction and
    /// nothing else, and leaves decided what was decided.
    pub proof fn lemma_with_door_open(self, direction: MazeDirection, open: bool)
        ensures
            self.with_door_open(direction, open).position == self.position,
            self.with_door_open(direction, open).room_index == self.room_index,
            self.with_door_open(direction, open).initialized == self.initialized,
            forall|other: MazeDirection|
                #[trigger] self.with_door_open(direction, open).edge(other) == if other
                    == direction {
                    match self.edge(other) {
                        Some(edge) => Some(edge.with_door_open(open)),
                        None => None,
                    }
                } else {
                    self.edge(other)
                },
            self.with_door_open(direction, open).unused_count() == self.unused_count(),
            self.with_door_open(direction, open).is_complete() == self.is_complete(),
    {
    }

    /// The list of undecided directions has one entry for each of them, and an
    /// undecided direction stands in it after those that come before it in
    /// the enumeration order.
    pub proof fn lemma_unused_directions(self)
        ensures
            self.unused_directions().len() == self.unused_count(),
            0 <= self.unused_count() <= 4,
            self.is_complete() <==> self.unused_count() == 0,
            forall|direction: MazeDirection|
                !self.has_edge(direction) ==> {
                    &&& 0 <= self.unused_before(direction.spec_index()) < self.unused_count()
                    &&& #[trigger] self.unused_directions()[self.unused_before(
                        direction.spec_index(),
                    )] == direction
                },
            forall|k: int|
                0 <= k < self.unused_count() ==> !self.has_edge(
                    #[trigger] self.unused_directions()[k],
                ),
    {
        let n = self.unused_alone(MazeDirection::NORTH);
        let e = self.unused_alone(MazeDirection::EAST);
        let s = self.unused_alone(MazeDirection::SOUTH);
        let w = self.unused_alone(MazeDirection::WEST);
        let all = self.unused_directions();
        assert(all == n + e + s + w);
        assert(all.len() == n.len() + e.len() + s.len() + w.len());
        assert forall|direction: MazeDirection| !self.has_edge(direction) implies {
            &&& 0 <= self.unused_before(direction.spec_index()) < self.unused_count()
            &&& #[trigger] self.unused_directions()[self.unused_before(direction.spec_index())]
                == direction
        } by {
            match direction {
                MazeDirection::NORTH => {
                    assert(all[0] == n[0]);
                },
                MazeDirection::EAST => {
                    assert(all[n.len() as int] == e[0]);
                },
                MazeDirection::SOUTH => {
                    assert(all[(n.len() + e.len()) as int] == s[0]);
                },
                MazeDirection::WEST => {
                    assert(all[(n.len() + e.len() + s.len()) as int] == w[0]);
                },
            }
        }
        assert forall|k: int| 0 <= k < self.unused_count() implies !self.has_edge(
            #[trigger] self.unused_directions()[k],
        ) by {
            let ne = n + e;
            let nes = ne + s;
            if k < n.len() {
                assert(all[k] == n[k]);
            } else if k < ne.len() {
                assert(all[k] == e[k - n.len()]);
            } else if k < nes.len() {
                assert(all[k] == s[k - ne.len()]);
            } else {
                assert(all[k] == w[k - nes.len()]);
            }
        }
    }
}

/// A cell of the maze. An edge, once decided, is never decided again.
#[derive(Debug, Clone, Copy)]
pub struct MazeCell {
    position: Position,
    room_index: usize,
    initialized: bool,
    north: Option<MazeCellEdge>,
    east: Option<MazeCellEdge>,
    south: Option<MazeCellEdge>,
    west: Option<MazeCellEdge>,
}

impl View for MazeCell {
    type V = CellView;

    closed spec fn view(&self) -> CellView {
        CellView {
            position: self.position,
            room_index: self.room_index,
            initialized: self.initialized,
            north: self.north,
            east: self.east,
            south: self.south,
            west: self.west,
        }
    }
}

impl MazeCell {
    pub fn new(x: i32, y: i32, room_index: usize) -> (cell: Self)
        ensures
            cell@ == CellView::blank(Position { x, y }, room_index),
    {
        MazeCell {
            position: Position::new(x, y),
            room_index,
            initialized: false,
            north: None,
            east: None,
            south: None,
            west: None,
        }
    }

    pub fn get_position(&self) -> (position: Position)
        ensures
            position == self@.position,
    {
        self.position
    }

    pub fn get_room_index(&self) -> (room_index: usize)
        ensures
            room_index == self@.room_index,
    {
        self.room_index
    }

    pub fn set_room_index(&mut self, room_index: usize)
        ensures
            final(self)@ == (CellView { room_index, ..old(self)@ }),
    {
        self.room_index = room_index;
    }

    /// Marks the cell as carved.
    pub fn initialized(&mut self)
        ensures
            final(self)@ == (CellView { initialized: true, ..old(self)@ }),
    {
        self.initialized = true;
    }

    pub fn is_initialized(&self) -> (initialized: bool)
        ensures
            initialized == self@.initialized,
    {
        self.initialized
    }

    pub fn get_edge(&self, maze_direction: &MazeDirection) -> (edge: Option<MazeCellEdge>)
        ensures
            edge == self@.edge(*maze_direction),
    {
        match maze_direction {
            MazeDirection::NORTH => self.north,
            MazeDirection::EAST => self.east,
            MazeDirection::SOUTH => self.south,
            MazeDirection::WEST => self.west,
        }
    }

    pub fn has_edge(&self, maze_direction: &MazeDirection) -> (decided: bool)
        ensures
            decided == self@.has_edge(*maze_direction),
    {
        self.get_edge(maze_direction).is_some()
    }

    /// Decides the edge in a direction that is still undecided.
    pub fn set_edge(&mut self, direction: MazeDirection, edge: MazeCellEdge)
        requires
            !old(self)@.has_edge(direction),
        ensures
            final(self)@ == old(self)@.with_edge(direction, edge),
    {
        match direction {
            MazeDirection::NORTH => {
                self.north = Some(edge);
            },
            MazeDirection::EAST => {
                self.east = Some(edge);
            },
            MazeDirection::SOUTH => {
                self.south = Some(edge);
            },
            MazeDirection::WEST => {
                self.west = Some(edge);
            },
        }
    }

    /// Opens or closes the door in a direction; where there is no door in
    /// that direction, nothing changes.
    pub fn set_door_open(&mut self, direction: MazeDirection, open: bool)
        ensures
            final(self)@ == old(self)@.with_door_open(direction, open),
    {
        match direction {
            MazeDirection::NORTH => {
                if let Some(edge) = &mut self.north {
                    edge.set_door_open(open);
                }
            },
            MazeDirection::EAST => {
                if let Some(edge) = &mut self.east {
                    edge.set_door_open(open);
                }
            },
            MazeDirection::SOUTH => {
                if let Some(edge) = &mut self.south {
                    edge.set_door_open(open);
                }
            },
            MazeDirection::WEST => {
                if let Some(edge) = &mut self.west {
                    edge.set_door_open(open);
                }
            },
        }
    }

    /// Decides the edge in a direction that is still undecided, and draws the
    /// decoration of the new edge.
    pub fn add_edge(&mut self, maze_direction: &MazeDirection, edge_type: EdgeType, rand: &mut Random)
        requires
            !old(self)@.has_edge(*maze_direction),
        ensures
            ({
                let plain = MazeCellEdge::plain(*maze_direction, edge_type);
                ||| final(self)@ == old(self)@.with_edge(*maze_direction, plain)
                ||| final(self)@ == old(self)@.with_edge(*maze_direction, plain.furnished(true))
            }),
    {
        let mut new_edge = MazeCellEdge::new(maze_direction, edge_type);
        new_edge.generate_furniture(rand);
        self.set_edge(*maze_direction, new_edge);
    }

    /// The number of directions that are decided.
    pub fn defined_edge_count(&self) -> (count: usize)
        ensures
            count == 4 - self@.unused_count(),
    {
        let mut count: usize = 0;
        if self.north.is_some() {
            count = count + 1;
        }
        if self.east.is_some() {
            count = count + 1;
        }
        if self.south.is_some() {
            count = count + 1;
        }
        if self.west.is_some() {
            count = count + 1;
        }
        count
    }

    pub fn is_edge_complete(&self) -> (complete: bool)
        ensures
            complete == self@.is_complete(),
    {
        proof {
            self@.lemma_unused_directions();
        }
        self.defined_edge_count() == 4
    }

    /// The undecided direction that stands at place `skips` when the
    /// undecided directions are collected in enumeration order. It is found
    /// by walking the enumeration and passing over `skips` undecided
    /// directions.
    pub fn unused_direction(&self, skips: usize) -> (direction: MazeDirection)
        requires
            skips < self@.unused_directions().len(),
        ensures
            direction == self@.unused_directions()[skips as int],
            !self@.has_edge(direction),
    {
        proof {
            self@.lemma_unused_directions();
        }
        let mut remaining: usize = skips;
        let mut i: u32 = 0;
        while i < 4
            invariant
                0 <= i <= 4,
                remaining + self@.unused_before(i as int) == skips,
                skips < self@.unused_count(),
            decreases 4 - i,
        {
            let new_direction = MazeDirection::get_direction_from_index(i);
            if !self.has_edge(&new_direction) {
                if remaining == 0 {
                    return new_direction;
                } else {
                    remaining = remaining - 1;
                }
            }
            i = i + 1;
        }
        proof {
            assert(self@.unused_before(4) == self@.unused_count());
            assert(false);
        }
        MazeDirection::NORTH
    }

    /// Draws one of the undecided directions, each with the same chance: a
    /// place among them is drawn, and the direction at that place is taken.
    pub fn get_random_unused_direction_for_cell(&self, rand: &mut Random) -> (direction: MazeDirection)
        requires
            !self@.is_complete(),
        ensures
            !self@.has_edge(direction),
            self@.unused_directions().contains(direction),
    {
        proof {
            self@.lemma_unused_directions();
        }
        let unused: usize = 4 - self.defined_edge_count();
        let skips: usize = gen_range(rand, 0, unused);
        self.unused_direction(skips)
    }
}

} // verus!
