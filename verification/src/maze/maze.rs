//! The maze and its generation.
//!
//! Generation grows the maze from one cell. It keeps a stack of carved cells
//! that may still have undecided edges. The cell on top picks one of its
//! undecided directions at random: towards the outside it gets a wall;
//! towards a free place a new cell is carved behind a passage or a door;
//! towards a carved cell it gets a passage if both are decorated alike, and
//! else a wall. Generation ends when the stack is empty.

use vstd::prelude::*;
use crate::consts::door_probability;
use crate::consts::wall_light_probability;
use crate::maze::maze_cell::CellView;
use crate::maze::maze_cell::MazeCell;
use crate::maze::maze_cell_edge::EdgeType;
use crate::maze::maze_cell_edge::MazeCellEdge;
use crate::maze::maze_direction::MazeDirection;
use crate::maze::maze_error::MazeError;
use crate::maze::maze_room::MazeRoomSettings;
use crate::maze::maze_room::MazeRooms;
use crate::maze::maze_view::MazeView;
use crate::position::Position;
use crate::random::Probability;
use crate::random::Random;
use crate::random::gen_range;

verus! {

/// The number of undecided edges of a place of the grid: four where no cell
/// is carved yet.
spec fn slots_of(slot: Option<MazeCell>) -> int {
    match slot {
        Some(cell) => cell@.unused_count(),
        None => 4,
    }
}

/// The number of undecided edges of a row of places.
spec fn slots_sum(slots: Seq<Option<MazeCell>>) -> int
    decreases slots.len(),
{
    if slots.len() == 0 {
        0
    } else {
        slots_sum(slots.drop_last()) + slots_of(slots.last())
    }
}

/// The number of undecided edges of a grid, given by its rows.
spec fn rows_sum(rows: Seq<Vec<Option<MazeCell>>>) -> int
    decreases rows.len(),
{
    if rows.len() == 0 {
        0
    } else {
        rows_sum(rows.drop_last()) + slots_sum(rows.last()@)
    }
}

proof fn lemma_slots_sum_bounds(slots: Seq<Option<MazeCell>>)
    ensures
        0 <= slots_sum(slots),
    decreases slots.len(),
{
    if slots.len() > 0 {
        lemma_slots_sum_bounds(slots.drop_last());
    }
}

proof fn lemma_rows_sum_bounds(rows: Seq<Vec<Option<MazeCell>>>)
    ensures
        0 <= rows_sum(rows),
    decreases rows.len(),
{
    if rows.len() > 0 {
        lemma_rows_sum_bounds(rows.drop_last());
        lemma_slots_sum_bounds(rows.last()@);
    }
}

proof fn lemma_slots_sum_update(slots: Seq<Option<MazeCell>>, index: int, slot: Option<MazeCell>)
    requires
        0 <= index < slots.len(),
    ensures
        slots_sum(slots.update(index, slot)) == slots_sum(slots) - slots_of(slots[index])
            + slots_of(slot),
    decreases slots.len(),
{
    let updated = slots.update(index, slot);
    if index == slots.len() - 1 {
        assert(updated.drop_last() =~= slots.drop_last());
    } else {
        lemma_slots_sum_update(slots.drop_last(), index, slot);
        assert(updated.drop_last() =~= slots.drop_last().update(index, slot));
    }
}

/// Grids whose rows hold the same come to the same number.
proof fn lemma_rows_sum_same(before: Seq<Vec<Option<MazeCell>>>, after: Seq<Vec<Option<MazeCell>>>)
    requires
        after.len() == before.len(),
        forall|j: int| 0 <= j < before.len() ==> (#[trigger] after[j])@ == before[j]@,
    ensures
        rows_sum(after) == rows_sum(before),
    decreases before.len(),
{
    if before.len() > 0 {
        assert(after[after.len() - 1]@ == before[before.len() - 1]@);
        assert forall|j: int| 0 <= j < before.drop_last().len() implies (
        #[trigger] after.drop_last()[j])@ == before.drop_last()[j]@ by {
            assert(after[j]@ == before[j]@);
        }
        lemma_rows_sum_same(before.drop_last(), after.drop_last());
    }
}

/// What changes in the number of undecided edges when one place of one row
/// is replaced.
proof fn lemma_rows_sum_update(
    before: Seq<Vec<Option<MazeCell>>>,
    after: Seq<Vec<Option<MazeCell>>>,
    y: int,
    x: int,
    slot: Option<MazeCell>,
)
    requires
        after.len() == before.len(),
        0 <= y < before.len(),
        0 <= x < before[y]@.len(),
        after[y]@ == before[y]@.update(x, slot),
        forall|j: int| 0 <= j < before.len() && j != y ==> (#[trigger] after[j])@ == before[j]@,
    ensures
        rows_sum(after) == rows_sum(before) - slots_of(before[y]@[x]) + slots_of(slot),
    decreases before.len(),
{
    let last = before.len() - 1;
    if y == last {
        assert forall|j: int| 0 <= j < before.drop_last().len() implies (
        #[trigger] after.drop_last()[j])@ == before.drop_last()[j]@ by {
            assert(after[j]@ == before[j]@);
        }
        lemma_rows_sum_same(before.drop_last(), after.drop_last());
        lemma_slots_sum_update(before[y]@, x, slot);
    } else {
        assert(after[last]@ == before[last]@);
        assert(after.drop_last()[y]@ == before.drop_last()[y]@.update(x, slot));
        assert forall|j: int| 0 <= j < before.drop_last().len() && j != y implies (
        #[trigger] after.drop_last()[j])@ == before.drop_last()[j]@ by {
            assert(after[j]@ == before[j]@);
        }
        lemma_rows_sum_update(before.drop_last(), after.drop_last(), y, x, slot);
    }
}

/// The undecided edges of a row of places come to none exactly when every
/// place holds a cell that has none.
proof fn lemma_slots_sum_zero(slots: Seq<Option<MazeCell>>)
    ensures
        slots_sum(slots) == 0 <==> forall|i: int|
            0 <= i < slots.len() ==> slots_of(#[trigger] slots[i]) == 0,
    decreases slots.len(),
{
    if slots.len() > 0 {
        let front = slots.drop_last();
        lemma_slots_sum_zero(front);
        lemma_slots_sum_bounds(front);
        if let Some(cell) = slots.last() {
            cell@.lemma_unused_directions();
        }
        if slots_sum(slots) == 0 {
            assert forall|i: int| 0 <= i < slots.len() implies slots_of(#[trigger] slots[i])
                == 0 by {
                if i < front.len() {
                    assert(front[i] == slots[i]);
                }
            }
        }
        if forall|i: int| 0 <= i < slots.len() ==> slots_of(#[trigger] slots[i]) == 0 {
            assert forall|i: int| 0 <= i < front.len() implies slots_of(#[trigger] front[i])
                == 0 by {
                assert(front[i] == slots[i]);
            }
            assert(slots_of(slots[slots.len() - 1]) == 0);
        }
    }
}

/// The undecided edges of a grid come to none exactly when those of every
/// row do.
proof fn lemma_rows_sum_zero(rows: Seq<Vec<Option<MazeCell>>>)
    ensures
        rows_sum(rows) == 0 <==> forall|j: int|
            0 <= j < rows.len() ==> slots_sum((#[trigger] rows[j])@) == 0,
    decreases rows.len(),
{
    if rows.len() > 0 {
        let front = rows.drop_last();
        lemma_rows_sum_zero(front);
        lemma_rows_sum_bounds(front);
        lemma_slots_sum_bounds(rows.last()@);
        if rows_sum(rows) == 0 {
            assert forall|j: int| 0 <= j < rows.len() implies slots_sum((#[trigger] rows[j])@)
                == 0 by {
                if j < front.len() {
                    assert(front[j] == rows[j]);
                }
            }
        }
        if forall|j: int| 0 <= j < rows.len() ==> slots_sum((#[trigger] rows[j])@) == 0 {
            assert forall|j: int| 0 <= j < front.len() implies slots_sum((#[trigger] front[j])@)
                == 0 by {
                assert(front[j] == rows[j]);
            }
            assert(slots_sum(rows[rows.len() - 1]@) == 0);
        }
    }
}

/// A maze: a grid of cells, the rooms they belong to, and the chances that
/// its generation draws with.
#[derive(Debug)]
pub struct Maze {
    size_x: i32,
    size_y: i32,
    cells: Vec<Vec<Option<MazeCell>>>,
    maze_rooms: MazeRooms,
    door_probability: Probability,
    wall_light_probability: Probability,
}

impl View for Maze {
    type V = MazeView;

    closed spec fn view(&self) -> MazeView {
        MazeView {
            width: self.size_x as int,
            height: self.size_y as int,
            ready: self.laid_out(),
            cells: Map::new(
                |place: (int, int)| self.slot(place.0, place.1) is Some,
                |place: (int, int)| self.slot(place.0, place.1).unwrap()@,
            ),
            rooms: self.maze_rooms@,
            door_probability: self.door_probability,
            wall_light_probability: self.wall_light_probability,
        }
    }
}

impl Maze {
    /// The grid holds one row for each `y`, and each row one place for each
    /// `x`.
    spec fn laid_out(&self) -> bool {
        &&& self.size_x > 0
        &&& self.size_y > 0
        &&& self.cells@.len() == self.size_y
        &&& forall|y: int|
            0 <= y < self.cells@.len() ==> (#[trigger] self.cells@[y])@.len() == self.size_x
    }

    /// What the grid holds at a position: nothing outside the bounds and
    /// where the grid has no place for it.
    spec fn slot(&self, x: int, y: int) -> Option<MazeCell> {
        if 0 <= x < self.size_x && 0 <= y < self.size_y && y < self.cells@.len() && x
            < self.cells@[y]@.len() {
            self.cells@[y]@[x]
        } else {
            None
        }
    }

    /// The number of edges that are still to be decided before the grid is
    /// covered with complete cells: one for each undecided direction of a
    /// carved cell, and four for each place that is still free.
    pub closed spec fn open_slots(&self) -> int {
        rows_sum(self.cells@)
    }

    /// Counting the edges that are still to be decided never goes below
    /// zero, and reaches zero exactly when the grid is covered with complete
    /// cells.
    pub proof fn lemma_open_slots(&self)
        requires
            self@.ready,
        ensures
            0 <= self.open_slots(),
            self.open_slots() == 0 <==> self@.is_complete(),
    {
        lemma_rows_sum_bounds(self.cells@);
        lemma_rows_sum_zero(self.cells@);
        if self.open_slots() == 0 {
            assert forall|x: int, y: int| self@.in_bounds(x, y) implies self@.has_cell(x, y)
                && self@.cell(x, y).is_complete() by {
                let row = self.cells@[y]@;
                assert(slots_sum(row) == 0);
                lemma_slots_sum_zero(row);
                assert(slots_of(row[x]) == 0);
                row[x]->Some_0@.lemma_unused_directions();
            }
        }
        if self@.is_complete() {
            assert forall|y: int| 0 <= y < self.cells@.len() implies slots_sum(
                (#[trigger] self.cells@[y])@,
            ) == 0 by {
                let row = self.cells@[y]@;
                lemma_slots_sum_zero(row);
                assert forall|x: int| 0 <= x < row.len() implies slots_of(#[trigger] row[x])
                    == 0 by {
                    assert(self@.in_bounds(x, y));
                    assert(self@.has_cell(x, y));
                    assert(self@.cell(x, y).is_complete());
                    self@.cell(x, y).lemma_unused_directions();
                }
            }
        }
    }

    /// A maze of the given size with the default chances. Its grid is laid
    /// out when the room settings are registered.
    pub fn new(x: i32, y: i32) -> (maze: Self)
        ensures
            maze@.width == x,
            maze@.height == y,
            !maze@.ready,
            maze@.cells =~= Map::<(int, int), CellView>::empty(),
            maze@.rooms.settings.len() == 0,
            maze@.rooms.rooms.len() == 0,
            maze@.door_probability.spec_numerator() == 3,
            maze@.door_probability.spec_denominator() == 10,
            maze@.wall_light_probability.spec_numerator() == 1,
            maze@.wall_light_probability.spec_denominator() == 4,
    {
        Maze::with_probabilities(x, y, door_probability(), wall_light_probability())
    }

    /// A maze of the given size that draws doors and wall lights with the
    /// given chances.
    pub fn with_probabilities(
        x: i32,
        y: i32,
        door_probability: Probability,
        wall_light_probability: Probability,
    ) -> (maze: Self)
        ensures
            maze@.width == x,
            maze@.height == y,
            !maze@.ready,
            maze@.cells =~= Map::<(int, int), CellView>::empty(),
            maze@.rooms.settings.len() == 0,
            maze@.rooms.rooms.len() == 0,
            maze@.door_probability == door_probability,
            maze@.wall_light_probability == wall_light_probability,
    {
        let maze = Maze {
            size_x: x,
            size_y: y,
            cells: Vec::new(),
            maze_rooms: MazeRooms::new(),
            door_probability,
            wall_light_probability,
        };
        proof {
            assert(maze@.cells =~= Map::<(int, int), CellView>::empty());
        }
        maze
    }

    pub fn get_size_x(&self) -> (size_x: i32)
        ensures
            size_x == self@.width,
    {
        self.size_x
    }

    pub fn get_size_y(&self) -> (size_y: i32)
        ensures
            size_y == self@.height,
    {
        self.size_y
    }

    pub fn get_door_probability(&self) -> (chance: Probability)
        ensures
            chance == self@.door_probability,
    {
        self.door_probability
    }

    pub fn get_wall_light_probability(&self) -> (chance: Probability)
        ensures
            chance == self@.wall_light_probability,
    {
        self.wall_light_probability
    }

    /// Whether a position is the far corner of the grid, where the way out
    /// is.
    pub fn is_winning_position(&self, position: &Position) -> (winning: bool)
        ensures
            winning == (position.x == self@.width - 1 && position.y == self@.height - 1),
    {
        position.x as i64 == self.size_x as i64 - 1 && position.y as i64 == self.size_y as i64 - 1
    }

    /// The rooms of the maze and the settings they are decorated with.
    pub fn get_maze_rooms(&self) -> (rooms: &MazeRooms)
        ensures
            rooms@ == self@.rooms,
    {
        &self.maze_rooms
    }

    /// Whether a position lies on the grid.
    pub fn contains_position(&self, position: &Position) -> (inside: bool)
        ensures
            inside == self@.in_bounds(position.x as int, position.y as int),
    {
        position.in_bounds(self.size_x, self.size_y)
    }

    /// Whether the grid has been laid out.
    pub fn is_ready(&self) -> (ready: bool)
        ensures
            ready == self@.ready,
    {
        if self.size_x <= 0 || self.size_y <= 0 {
            return false;
        }
        if self.cells.len() != self.size_y as usize {
            return false;
        }
        let mut y: usize = 0;
        while y < self.cells.len()
            invariant
                y <= self.cells@.len(),
                self.size_x > 0,
                forall|j: int| 0 <= j < y ==> (#[trigger] self.cells@[j])@.len() == self.size_x,
            decreases self.cells@.len() - y,
        {
            if self.cells[y].len() != self.size_x as usize {
                return false;
            }
            y = y + 1;
        }
        true
    }

    /// The cell at a position, if one is carved there.
    pub fn get_cell(&self, position: &Position) -> (cell: Option<&MazeCell>)
        ensures
            cell is Some <==> self@.has_cell(position.x as int, position.y as int),
            cell matches Some(found) ==> found@ == self@.cell(position.x as int, position.y as int),
    {
        if !self.contains_position(position) {
            return None;
        }
        let x: usize = position.x as usize;
        let y: usize = position.y as usize;
        if y >= self.cells.len() {
            return None;
        }
        if x >= self.cells[y].len() {
            return None;
        }
        match &self.cells[y][x] {
            Some(cell) => Some(cell),
            None => None,
        }
    }

    /// Stores a cell at a position of the grid.
    fn set_cell(&mut self, position: &Position, cell: MazeCell)
        requires
            old(self)@.ready,
            old(self)@.in_bounds(position.x as int, position.y as int),
        ensures
            final(self)@ == (MazeView {
                cells: old(self)@.cells.insert((position.x as int, position.y as int), cell@),
                ..old(self)@
            }),
            final(self).open_slots() == old(self).open_slots() - (if old(self)@.has_cell(
                position.x as int,
                position.y as int,
            ) {
                old(self)@.cell(position.x as int, position.y as int).unused_count()
            } else {
                4
            }) + cell@.unused_count(),
    {
        let x: usize = position.x as usize;
        let y: usize = position.y as usize;
        self.cells[y][x] = Some(cell);
        proof {
            lemma_rows_sum_update(old(self).cells@, self.cells@, y as int, x as int, Some(cell));
            let expected = old(self)@.cells.insert((x as int, y as int), cell@);
            assert forall|place: (int, int)| #[trigger]
                self@.cells.contains_key(place) == expected.contains_key(place) && (
                expected.contains_key(place) ==> self@.cells[place] == expected[place]) by {
                if 0 <= place.1 < self.cells@.len() && place.1 != y {
                    assert(self.cells@[place.1]@ == old(self).cells@[place.1]@);
                }
            }
            assert(self@.cells =~= expected);
        }
    }

    /// Registers the room settings and lays out the grid, with no cell
    /// carved and no room. Fails, and changes nothing, where the size is not
    /// positive or there are no settings.
    pub fn initialize_maze_rooms(&mut self, settings: Vec<MazeRoomSettings>) -> (outcome: Result<
        (),
        MazeError,
    >)
        ensures
            match old(self)@.refusal(settings@.len() as int) {
                Some(error) => outcome == Err::<(), MazeError>(error) && final(self)@ == old(self)@,
                None => {
                    &&& outcome == Ok::<(), MazeError>(())
                    &&& final(self)@ == old(self)@.laid_out_with(settings@)
                    &&& final(self)@.wf()
                    &&& final(self)@.has_no_door()
                },
            },
    {
        if self.size_x <= 0 || self.size_y <= 0 {
            return Err(MazeError::InvalidSize);
        }
        if settings.len() == 0 {
            return Err(MazeError::EmptySettings);
        }
        let width: usize = self.size_x as usize;
        let height: usize = self.size_y as usize;
        let mut cells: Vec<Vec<Option<MazeCell>>> = Vec::new();
        let mut y: usize = 0;
        while y < height
            invariant
                y <= height,
                cells@.len() == y,
                forall|j: int|
                    0 <= j < y ==> {
                        &&& (#[trigger] cells@[j])@.len() == width
                        &&& forall|i: int| 0 <= i < width ==> (#[trigger] cells@[j]@[i]) is None
                    },
            decreases height - y,
        {
            let mut row: Vec<Option<MazeCell>> = Vec::new();
            let mut x: usize = 0;
            while x < width
                invariant
                    x <= width,
                    row@.len() == x,
                    forall|i: int| 0 <= i < x ==> (#[trigger] row@[i]) is None,
                decreases width - x,
            {
                row.push(None);
                x = x + 1;
            }
            cells.push(row);
            y = y + 1;
        }
        self.cells = cells;
        self.maze_rooms.initialize_maze_rooms(settings);
        proof {
            let expected = old(self)@.laid_out_with(settings@);
            assert forall|place: (int, int)| !(#[trigger] self@.cells.contains_key(place)) by {
                if 0 <= place.0 < self.size_x && 0 <= place.1 < self.size_y {
                    assert(self.cells@[place.1]@[place.0] is None);
                }
            }
            assert(self@.cells =~= expected.cells);
            assert(self@.rooms.rooms =~= expected.rooms.rooms);
            assert(self@.rooms == expected.rooms);
        }
        Ok(())
    }

    /// Appends an empty room with the given settings and returns its index.
    pub fn create_room_with_settings(&mut self, settings_index: usize) -> (room_index: usize)
        requires
            old(self)@.wf(),
            settings_index < old(self)@.rooms.settings.len(),
        ensures
            final(self)@ == old(self)@.with_rooms(old(self)@.rooms.with_room(settings_index)),
            room_index == old(self)@.rooms.rooms.len(),
            final(self)@.wf(),
            final(self)@.extends(old(self)@),
            final(self).open_slots() == old(self).open_slots(),
            final(self)@.rooms.is_live(room_index as int),
            final(self)@.rooms.settings_of(room_index as int) == settings_index,
    {
        let room_index = self.maze_rooms.create_room_with_settings(settings_index);
        proof {
            old(self)@.lemma_with_room_wf(settings_index);
            old(self)@.rooms.lemma_with_room(settings_index);
            assert(self@.cells =~= old(self)@.cells);
        }
        room_index
    }

    /// Carves a cell at a free position of the grid and puts it into a live
    /// room.
    pub fn add_cell(&mut self, position: &Position, room_index: usize)
        requires
            old(self)@.wf(),
            old(self)@.in_bounds(position.x as int, position.y as int),
            !old(self)@.has_cell(position.x as int, position.y as int),
            old(self)@.rooms.is_live(room_index as int),
        ensures
            final(self)@ == old(self)@.with_cell(position.x as int, position.y as int, room_index),
            final(self)@.wf(),
            final(self)@.extends(old(self)@),
            final(self).open_slots() == old(self).open_slots(),
            old(self)@.has_no_door() ==> final(self)@.has_no_door(),
    {
        let mut cell = MazeCell::new(position.x, position.y, room_index);
        cell.initialized();
        self.set_cell(position, cell);
        let ghost stored = self@;
        self.maze_rooms.add_cell_to_room(*position, room_index);
        proof {
            old(self)@.lemma_with_cell_wf(position.x as int, position.y as int, room_index);
            assert(self@.cells =~= stored.cells);
        }
    }

    /// Decides the edge of a cell in a direction: the cell stores `leaving`,
    /// and its neighbour, if it is carved, stores `entering` in the opposite
    /// direction.
    pub fn connect(
        &mut self,
        position: &Position,
        direction: MazeDirection,
        leaving: MazeCellEdge,
        entering: MazeCellEdge,
    )
        requires
            old(self)@.wf(),
            old(self)@.can_connect(
                position.x as int,
                position.y as int,
                direction,
                leaving.edge_type,
            ),
            leaving.edge_type == entering.edge_type,
            leaving.maze_direction == direction,
            entering.maze_direction == direction.spec_opposite(),
        ensures
            final(self)@ == old(self)@.connected(
                position.x as int,
                position.y as int,
                direction,
                leaving,
                entering,
            ),
            final(self)@.wf(),
            final(self)@.extends(old(self)@),
            final(self).open_slots() == old(self).open_slots() - (if old(self)@.has_cell(
                position.x + direction.dx(),
                position.y + direction.dy(),
            ) {
                2int
            } else {
                1int
            }),
    {
        let ghost x = position.x as int;
        let ghost y = position.y as int;
        let ghost nx = x + direction.dx();
        let ghost ny = y + direction.dy();
        proof {
            old(self)@.lemma_connected_wf(x, y, direction, leaving, entering);
            assert(old(self)@.cell_ok(x, y));
            assert(old(self)@.edge_ok(x, y, direction));
            old(self)@.cell(x, y).lemma_with_edge(direction, leaving);
        }
        let mut cell: MazeCell = *self.get_cell(position).unwrap();
        cell.set_edge(direction, leaving);
        self.set_cell(position, cell);
        let neighbor = direction.get_position(position);
        let opposite = direction.get_opposite_direction();
        let found: Option<MazeCell> = match self.get_cell(&neighbor) {
            Some(found) => Some(*found),
            None => None,
        };
        match found {
            Some(other) => {
                let mut other = other;
                proof {
                    assert(old(self)@.has_cell(nx, ny));
                    assert(old(self)@.cell_ok(nx, ny));
                    assert(other@ == old(self)@.cell(nx, ny));
                    other@.lemma_with_edge(opposite, entering);
                }
                other.set_edge(opposite, entering);
                self.set_cell(&neighbor, other);
            },
            None => {},
        }
        proof {
            assert(self@.cells =~= old(self)@.connected(x, y, direction, leaving, entering).cells);
        }
    }

    /// Puts a wall between a cell and the place next to it, which is outside
    /// the grid or holds a cell with different settings, and draws for each
    /// side whether the wall gets a light: first for the side of the cell
    /// and then, if there is a neighbour, for its side.
    pub fn add_wall(&mut self, prev_position: &Position, curr_position: &Position, rand: &mut Random)
        requires
            old(self)@.wf(),
            MazeDirection::between(*prev_position, *curr_position).leads(
                *prev_position,
                *curr_position,
            ),
            old(self)@.can_connect(
                prev_position.x as int,
                prev_position.y as int,
                MazeDirection::between(*prev_position, *curr_position),
                EdgeType::Wall,
            ),
        ensures
            exists|light_leaving: bool, light_entering: bool|
                final(self)@ == #[trigger] old(self)@.carved(
                    prev_position.x as int,
                    prev_position.y as int,
                    MazeDirection::between(*prev_position, *curr_position),
                    EdgeType::Wall,
                    light_leaving,
                    light_entering,
                ),
            final(self)@.wf(),
            final(self)@.extends(old(self)@),
            old(self)@.has_no_door() ==> final(self)@.has_no_door(),
            final(self).open_slots() == old(self).open_slots() - (if old(self)@.has_cell(
                curr_position.x as int,
                curr_position.y as int,
            ) {
                2int
            } else {
                1int
            }),
    {
        let maze_direction = MazeDirection::get_direction_position_from_positions(
            prev_position,
            curr_position,
        );
        let opposite = maze_direction.get_opposite_direction();
        let chance = self.wall_light_probability;
        let mut leaving = MazeCellEdge::new(&maze_direction, EdgeType::Wall);
        leaving.generate_furniture_with(rand, &chance);
        let mut entering = MazeCellEdge::new(&opposite, EdgeType::Wall);
        if self.get_cell(curr_position).is_some() {
            entering.generate_furniture_with(rand, &chance);
        }
        proof {
            let x = prev_position.x as int;
            let y = prev_position.y as int;
            old(self)@.lemma_connected_wf(x, y, maze_direction, leaving, entering);
            let plain_leaving = MazeCellEdge::plain(maze_direction, EdgeType::Wall);
            let plain_entering = MazeCellEdge::plain(opposite, EdgeType::Wall);
            let light_leaving = leaving != plain_leaving;
            let light_entering = entering != plain_entering;
            assert(leaving == plain_leaving.furnished(light_leaving));
            assert(entering == plain_entering.furnished(light_entering));
            assert(old(self)@.connected(x, y, maze_direction, leaving, entering) == old(self)@.carved(x, y, maze_direction, EdgeType::Wall, light_leaving, light_entering));
        }
        self.connect(prev_position, maze_direction, leaving, entering);
    }

    /// Opens a passage between two neighbouring cells of one room.
    pub fn add_passage(&mut self, prev_position: &Position, curr_position: &Position)
        requires
            old(self)@.wf(),
            MazeDirection::between(*prev_position, *curr_position).leads(
                *prev_position,
                *curr_position,
            ),
            old(self)@.can_connect(
                prev_position.x as int,
                prev_position.y as int,
                MazeDirection::between(*prev_position, *curr_position),
                EdgeType::Passage,
            ),
        ensures
            final(self)@ == old(self)@.carved(
                prev_position.x as int,
                prev_position.y as int,
                MazeDirection::between(*prev_position, *curr_position),
                EdgeType::Passage,
                false,
                false,
            ),
            final(self)@.wf(),
            final(self)@.extends(old(self)@),
            old(self)@.has_no_door() ==> final(self)@.has_no_door(),
            final(self).open_slots() == old(self).open_slots() - 2,
    {
        let maze_direction = MazeDirection::get_direction_position_from_positions(
            prev_position,
            curr_position,
        );
        let opposite = maze_direction.get_opposite_direction();
        let leaving = MazeCellEdge::new(&maze_direction, EdgeType::Passage);
        let entering = MazeCellEdge::new(&opposite, EdgeType::Passage);
        proof {
            old(self)@.lemma_connected_wf(
                prev_position.x as int,
                prev_position.y as int,
                maze_direction,
                leaving,
                entering,
            );
        }
        self.connect(prev_position, maze_direction, leaving, entering);
    }

    /// Puts a closed door between two neighbouring cells that are decorated
    /// with different settings.
    pub fn add_door(&mut self, prev_position: &Position, curr_position: &Position)
        requires
            old(self)@.wf(),
            MazeDirection::between(*prev_position, *curr_position).leads(
                *prev_position,
                *curr_position,
            ),
            old(self)@.can_connect(
                prev_position.x as int,
                prev_position.y as int,
                MazeDirection::between(*prev_position, *curr_position),
                EdgeType::Door { open: false },
            ),
        ensures
            final(self)@ == old(self)@.carved(
                prev_position.x as int,
                prev_position.y as int,
                MazeDirection::between(*prev_position, *curr_position),
                EdgeType::Door { open: false },
                false,
                false,
            ),
            final(self)@.wf(),
            final(self)@.extends(old(self)@),
            final(self).open_slots() == old(self).open_slots() - 2,
    {
        let maze_direction = MazeDirection::get_direction_position_from_positions(
            prev_position,
            curr_position,
        );
        let opposite = maze_direction.get_opposite_direction();
        let leaving = MazeCellEdge::new(&maze_direction, EdgeType::Door { open: false });
        let entering = MazeCellEdge::new(&opposite, EdgeType::Door { open: false });
        self.connect(prev_position, maze_direction, leaving, entering);
    }

    /// The live room that owns the cell at a position, if one is carved
    /// there.
    pub fn get_room_number_for_position(&self, position: Position) -> (room: Option<usize>)
        requires
            self@.wf(),
        ensures
            room is Some <==> self@.has_cell(position.x as int, position.y as int),
            room matches Some(room_index) ==> room_index == self@.room_at(
                position.x as int,
                position.y as int,
            ) && self@.rooms.is_live(room_index as int),
    {
        match self.get_cell(&position) {
            Some(cell) => {
                proof {
                    assert(self@.cell_ok(position.x as int, position.y as int));
                    self@.rooms.lemma_resolve(cell@.room_index as int);
                }
                Some(self.maze_rooms.resolve_room_index(cell.get_room_index()))
            },
            None => None,
        }
    }

    /// The settings index that decorates the cell at a position, if one is
    /// carved there.
    pub fn get_settings_index_for_position(&self, position: Position) -> (settings: Option<usize>)
        requires
            self@.wf(),
        ensures
            settings is Some <==> self@.has_cell(position.x as int, position.y as int),
            settings matches Some(settings_index) ==> settings_index == self@.theme_at(
                position.x as int,
                position.y as int,
            ) && settings_index < self@.rooms.settings.len(),
    {
        match self.get_cell(&position) {
            Some(cell) => {
                proof {
                    assert(self@.cell_ok(position.x as int, position.y as int));
                }
                Some(self.maze_rooms.get_settings_index_from_room_index(cell.get_room_index()))
            },
            None => None,
        }
    }

    /// Creates an empty room whose settings are drawn from the catalog, each
    /// index but the excluded one with the same chance, and returns the index
    /// of the room. Fails, and changes nothing, where the catalog is empty or
    /// holds nothing but the excluded settings.
    pub fn create_room_and_return_index(
        &mut self,
        index_to_exclude: Option<usize>,
        rand: &mut Random,
    ) -> (created: Result<usize, MazeError>)
        requires
            old(self)@.wf(),
        ensures
            old(self)@.rooms.settings.len() == 0 ==> created == Err::<usize, MazeError>(
                MazeError::EmptySettings,
            ),
            old(self)@.rooms.settings.len() > 0 && old(self)@.rooms.candidates(index_to_exclude)
                == 0 ==> created == Err::<usize, MazeError>(MazeError::NoOtherSettings),
            old(self)@.rooms.candidates(index_to_exclude) > 0 ==> created is Ok,
            created is Err ==> final(self)@ == old(self)@ && final(self).open_slots() == old(self).open_slots(),
            created matches Ok(room_index) ==> {
                &&& room_index == old(self)@.rooms.rooms.len()
                &&& final(self)@.rooms.is_live(room_index as int)
                &&& Some(final(self)@.rooms.settings_of(room_index as int) as usize)
                    != index_to_exclude
                &&& final(self)@ == old(self)@.with_rooms(
                    old(self)@.rooms.with_room(
                        final(self)@.rooms.settings_of(room_index as int) as usize,
                    ),
                )
                &&& final(self)@.wf()
                &&& final(self)@.extends(old(self)@)
                &&& final(self).open_slots() == old(self).open_slots()
                &&& old(self)@.has_no_door() ==> final(self)@.has_no_door()
            },
    {
        let created = self.maze_rooms.create_room_and_return_index(index_to_exclude, rand);
        proof {
            assert(self@.cells =~= old(self)@.cells);
            if let Ok(room_index) = created {
                let settings_index = choose|settings_index: usize|
                    {
                        &&& settings_index < old(self)@.rooms.settings.len()
                        &&& Some(settings_index) != index_to_exclude
                        &&& self@.rooms == #[trigger] old(self)@.rooms.with_room(settings_index)
                    };
                old(self)@.lemma_with_room_wf(settings_index);
                old(self)@.rooms.lemma_with_room(settings_index);
                assert(self@ == old(self)@.with_rooms(old(self)@.rooms.with_room(settings_index)));
                if old(self)@.has_no_door() {
                    assert forall|x: int, y: int, direction: MazeDirection|
                        !((#[trigger] self@.edge_type_at(x, y, direction)) matches Some(
                            EdgeType::Door { open: _ },
                        )) by {
                        assert(!(old(self)@.edge_type_at(x, y, direction) matches Some(
                            EdgeType::Door { open: _ },
                        )));
                    }
                }
            }
        }
        created
    }

    /// Merges the room that `room_to_merge` resolves to into the room that
    /// `room_to_keep` resolves to. Both rooms have the same settings, so
    /// every cell keeps its decoration.
    pub fn merge_rooms(&mut self, room_to_keep: usize, room_to_merge: usize)
        requires
            old(self)@.wf(),
            old(self)@.rooms.is_room(room_to_keep as int),
            old(self)@.rooms.is_room(room_to_merge as int),
            old(self)@.rooms.settings_of(room_to_keep as int) == old(self)@.rooms.settings_of(
                room_to_merge as int,
            ),
        ensures
            final(self)@ == old(self)@.with_rooms(
                old(self)@.rooms.merged(room_to_keep as int, room_to_merge as int),
            ),
            final(self)@.wf(),
            final(self)@.extends(old(self)@),
            final(self).open_slots() == old(self).open_slots(),
            old(self)@.has_no_door() ==> final(self)@.has_no_door(),
    {
        self.maze_rooms.merge_rooms(room_to_keep, room_to_merge);
        proof {
            old(self)@.lemma_merged_wf(room_to_keep as int, room_to_merge as int);
            assert(self@.cells =~= old(self)@.cells);
            if old(self)@.has_no_door() {
                assert forall|x: int, y: int, direction: MazeDirection|
                    !((#[trigger] self@.edge_type_at(x, y, direction)) matches Some(
                        EdgeType::Door { open: _ },
                    )) by {
                    assert(!(old(self)@.edge_type_at(x, y, direction) matches Some(
                        EdgeType::Door { open: _ },
                    )));
                }
            }
        }
    }

    /// Opens or closes the door between a cell and its neighbour, on both
    /// sides, and tells whether there is a door. Where there is none,
    /// nothing changes.
    pub fn set_door_open(&mut self, position: &Position, direction: MazeDirection, open: bool) -> (found:
        bool)
        requires
            old(self)@.wf(),
        ensures
            found == (old(self)@.edge_type_at(position.x as int, position.y as int, direction)
                matches Some(EdgeType::Door { open: _ })),
            final(self)@ == old(self)@.with_door_open(
                position.x as int,
                position.y as int,
                direction,
                open,
            ),
            final(self)@.wf(),
            final(self).open_slots() == old(self).open_slots(),
    {
        let ghost x = position.x as int;
        let ghost y = position.y as int;
        let ghost nx = x + direction.dx();
        let ghost ny = y + direction.dy();
        let mut cell: MazeCell = match self.get_cell(position) {
            Some(found) => *found,
            None => {
                return false;
            },
        };
        let is_door = match cell.get_edge(&direction) {
            Some(edge) => edge.is_door(),
            None => false,
        };
        if !is_door {
            return false;
        }
        proof {
            old(self)@.lemma_with_door_open_wf(x, y, direction, open);
            assert(old(self)@.cell_ok(x, y));
            assert(old(self)@.edge_ok(x, y, direction));
            assert(old(self)@.has_cell(nx, ny));
            assert(old(self)@.cell_ok(nx, ny));
            old(self)@.cell(x, y).lemma_with_door_open(direction, open);
            old(self)@.cell(nx, ny).lemma_with_door_open(direction.spec_opposite(), open);
        }
        cell.set_door_open(direction, open);
        self.set_cell(position, cell);
        let neighbor = direction.get_position(position);
        let opposite = direction.get_opposite_direction();
        let mut other: MazeCell = *self.get_cell(&neighbor).unwrap();
        other.set_door_open(opposite, open);
        self.set_cell(&neighbor, other);
        proof {
            assert(self@.cells =~= old(self)@.with_door_open(x, y, direction, open).cells);
        }
        true
    }

    /// Opens the door between a cell and its neighbour if it is closed, and
    /// closes it if it is open, and tells whether there is a door.
    pub fn toggle_door(&mut self, position: &Position, direction: MazeDirection) -> (found: bool)
        requires
            old(self)@.wf(),
        ensures
            found == (old(self)@.edge_type_at(position.x as int, position.y as int, direction)
                matches Some(EdgeType::Door { open: _ })),
            old(self)@.edge_type_at(position.x as int, position.y as int, direction) matches Some(
                EdgeType::Door { open },
            ) ==> final(self)@ == old(self)@.with_door_open(
                position.x as int,
                position.y as int,
                direction,
                !open,
            ),
            !found ==> final(self)@ == old(self)@,
            final(self)@.wf(),
            final(self).open_slots() == old(self).open_slots(),
    {
        let edge: Option<MazeCellEdge> = match self.get_cell(position) {
            Some(cell) => cell.get_edge(&direction),
            None => None,
        };
        match edge {
            Some(MazeCellEdge { edge_type: EdgeType::Door { open }, .. }) => self.set_door_open(
                position,
                direction,
                !open,
            ),
            _ => false,
        }
    }

    /// The ways by which the cell at a position can still be left: for West,
    /// East, North and South, in this order, the neighbour with the
    /// direction, where the neighbour lies on the grid and the edge towards
    /// it is undecided. Nothing where there is no such way.
    pub fn get_unvisited_neighbors(&self, position: Position) -> (neighbors: Option<
        Vec<(Position, MazeDirection)>,
    >)
        ensures
            match neighbors {
                Some(ways) => ways@.len() > 0 && ways@ == self@.unvisited_neighbors(
                    position.x as int,
                    position.y as int,
                ),
                None => self@.unvisited_neighbors(position.x as int, position.y as int).len()
                    == 0,
            },
    {
        let ghost x = position.x as int;
        let ghost y = position.y as int;
        let mut neighbors: Vec<(Position, MazeDirection)> = Vec::new();
        let cell: MazeCell = match self.get_cell(&position) {
            Some(cell) => *cell,
            None => {
                return None;
            },
        };
        if position.x > 0 && !cell.has_edge(&MazeDirection::WEST) {
            neighbors.push((MazeDirection::WEST.get_position(&position), MazeDirection::WEST));
        }
        assert(neighbors@ =~= self@.way_out(x, y, MazeDirection::WEST));
        if position.x < self.size_x - 1 && !cell.has_edge(&MazeDirection::EAST) {
            neighbors.push((MazeDirection::EAST.get_position(&position), MazeDirection::EAST));
        }
        assert(neighbors@ =~= self@.way_out(x, y, MazeDirection::WEST) + self@.way_out(
            x,
            y,
            MazeDirection::EAST,
        ));
        if position.y > 0 && !cell.has_edge(&MazeDirection::NORTH) {
            neighbors.push((MazeDirection::NORTH.get_position(&position), MazeDirection::NORTH));
        }
        assert(neighbors@ =~= self@.way_out(x, y, MazeDirection::WEST) + self@.way_out(
            x,
            y,
            MazeDirection::EAST,
        ) + self@.way_out(x, y, MazeDirection::NORTH));
        if position.y < self.size_y - 1 && !cell.has_edge(&MazeDirection::SOUTH) {
            neighbors.push((MazeDirection::SOUTH.get_position(&position), MazeDirection::SOUTH));
        }
        assert(neighbors@ =~= self@.unvisited_neighbors(x, y));
        if neighbors.is_empty() {
            None
        } else {
            Some(neighbors)
        }
    }

    /// A bound on the number of turns that a generation still takes: two
    /// for each edge that is still to be decided, and one for each position
    /// on the stack.
    pub open spec fn remaining(&self, stack: Seq<Position>) -> int {
        2 * self.open_slots() + stack.len()
    }

    /// Carves the first cell at a drawn position, in a first room with drawn
    /// settings, and puts it on the stack.
    fn do_first_generation_step(&mut self, active_positions: &mut Vec<Position>, rand: &mut Random)
        requires
            old(self)@.wf(),
            old(self)@.cells =~= Map::<(int, int), CellView>::empty(),
            old(self)@.rooms.rooms.len() == 0,
            old(self)@.rooms.settings.len() > 0,
            old(active_positions)@.len() == 0,
        ensures
            final(self)@.carving(final(active_positions)@),
            final(self)@.extends(old(self)@),
            final(active_positions)@.len() == 1,
            old(self)@.in_bounds(
                final(active_positions)@[0].x as int,
                final(active_positions)@[0].y as int,
            ),
            exists|settings_index: usize|
                {
                    &&& settings_index < old(self)@.rooms.settings.len()
                    &&& final(self)@ == #[trigger] old(self)@.first_cell(
                        final(active_positions)@[0].x as int,
                        final(active_positions)@[0].y as int,
                        settings_index,
                    )
                },
    {
        let position = random_position(self.size_x, self.size_y, rand);
        active_positions.push(position);
        let room_index = self.create_room_and_return_index(None, rand).unwrap();
        let ghost with_room = self@;
        self.add_cell(&position, room_index);
        proof {
            let settings_index = with_room.rooms.settings_of(room_index as int) as usize;
            with_room.rooms.lemma_resolve(room_index as int);
            assert(self@ == old(self)@.first_cell(
                position.x as int,
                position.y as int,
                settings_index,
            ));
            old(self)@.lemma_first_cell_carving(
                position.x as int,
                position.y as int,
                settings_index,
            );
            assert(active_positions@ =~= seq![
                Position { x: (position.x as int) as i32, y: (position.y as int) as i32 },
            ]);
            assert(active_positions@[0] == position);
            assert(settings_index < old(self)@.rooms.settings.len());
        }
    }

    /// A wall for a cell that was taken off the stack, towards the outside
    /// or a carved cell with different settings; the cell goes back on the
    /// stack.
    pub fn add_wall_to_position(
        &mut self,
        active_positions: &mut Vec<Position>,
        position: Position,
        new_position: Position,
        rand: &mut Random,
    )
        requires
            old(self)@.wf(),
            MazeDirection::between(position, new_position).leads(position, new_position),
            old(self)@.can_connect(
                position.x as int,
                position.y as int,
                MazeDirection::between(position, new_position),
                EdgeType::Wall,
            ),
        ensures
            final(self)@.wf(),
            final(self)@.extends(old(self)@),
            final(active_positions)@ == old(active_positions)@.push(position),
            final(self).open_slots() < old(self).open_slots(),
            exists|light_leaving: bool, light_entering: bool|
                final(self)@ == #[trigger] old(self)@.carved(
                    position.x as int,
                    position.y as int,
                    MazeDirection::between(position, new_position),
                    EdgeType::Wall,
                    light_leaving,
                    light_entering,
                ),
    {
        active_positions.push(position);
        self.add_wall(&position, &new_position, rand);
    }

    /// A passage between two carved cells that are decorated alike; if they
    /// belong to two rooms, the room of the second is merged into the room
    /// of the first. The cell that was taken off the stack goes back on it.
    pub fn expand_room(
        &mut self,
        active_positions: &mut Vec<Position>,
        position: Position,
        new_position: Position,
    )
        requires
            old(self)@.wf(),
            MazeDirection::between(position, new_position).leads(position, new_position),
            old(self)@.has_cell(position.x as int, position.y as int),
            old(self)@.has_cell(new_position.x as int, new_position.y as int),
            old(self)@.edge_type_at(
                position.x as int,
                position.y as int,
                MazeDirection::between(position, new_position),
            ) is None,
            old(self)@.theme_at(position.x as int, position.y as int) == old(self)@.theme_at(
                new_position.x as int,
                new_position.y as int,
            ),
        ensures
            final(self)@.wf(),
            final(self)@.extends(old(self)@),
            final(active_positions)@ == old(active_positions)@.push(position),
            final(self).open_slots() == old(self).open_slots() - 2,
            final(self)@ == old(self)@.with_rooms(
                old(self)@.rooms.merged(
                    old(self)@.cell(position.x as int, position.y as int).room_index as int,
                    old(self)@.cell(new_position.x as int, new_position.y as int).room_index as int,
                ),
            ).carved(
                position.x as int,
                position.y as int,
                MazeDirection::between(position, new_position),
                EdgeType::Passage,
                false,
                false,
            ),
    {
        let ghost x = position.x as int;
        let ghost y = position.y as int;
        let ghost nx = new_position.x as int;
        let ghost ny = new_position.y as int;
        proof {
            assert(old(self)@.cell_ok(x, y));
            assert(old(self)@.cell_ok(nx, ny));
        }
        active_positions.push(position);
        let room_index = self.get_cell(&position).unwrap().get_room_index();
        let new_room_index = self.get_cell(&new_position).unwrap().get_room_index();
        let kept = self.maze_rooms.resolve_room_index(room_index);
        let absorbed = self.maze_rooms.resolve_room_index(new_room_index);
        if kept != absorbed {
            proof {
                old(self)@.lemma_merged_wf(room_index as int, new_room_index as int);
                old(self)@.rooms.lemma_merged(room_index as int, new_room_index as int);
                old(self)@.rooms.lemma_resolve(room_index as int);
            }
            self.merge_rooms(room_index, new_room_index);
        }
        let ghost merged = self@;
        proof {
            assert(merged == old(self)@.with_rooms(
                old(self)@.rooms.merged(room_index as int, new_room_index as int),
            ));
            assert(merged.has_cell(x, y));
            assert(merged.has_cell(nx, ny));
            assert(merged.cell(x, y).keeps(old(self)@.cell(x, y)));
            assert(merged.room_at(x, y) == merged.room_at(nx, ny));
            assert(merged.cell_ok(x, y));
            assert(merged.edge_ok(x, y, MazeDirection::between(position, new_position)));
        }
        self.add_passage(&position, &new_position);
        proof {
            self@.lemma_extends_transitive(merged, old(self)@);
        }
    }

    /// Carves a cell at a free place of the grid, next to a cell that was
    /// taken off the stack, after the draw for a door has been made. Where
    /// the draw asks for a door and the catalog holds other settings than
    /// those on this side, the new cell gets a new room, with settings drawn
    /// among the others, behind a closed door. In every other case the new
    /// cell joins the room on this side, behind a passage. Both cells go on
    /// the stack, the new one on top.
    pub fn carve_new_cell(
        &mut self,
        active_positions: &mut Vec<Position>,
        position: Position,
        new_position: Position,
        door: bool,
        rand: &mut Random,
    )
        requires
            old(self)@.wf(),
            MazeDirection::between(position, new_position).leads(position, new_position),
            old(self)@.has_cell(position.x as int, position.y as int),
            old(self)@.in_bounds(new_position.x as int, new_position.y as int),
            !old(self)@.has_cell(new_position.x as int, new_position.y as int),
            door ==> !old(self)@.door_probability.is_never(),
        ensures
            final(self)@.wf(),
            final(self)@.extends(old(self)@),
            final(active_positions)@ == old(active_positions)@.push(position).push(new_position),
            final(self).open_slots() == old(self).open_slots() - 2,
            old(self)@.step_outcome(
                final(self)@,
                position.x as int,
                position.y as int,
                MazeDirection::between(position, new_position),
            ),
            door && old(self)@.rooms.settings.len() > 1 ==> exists|settings_index: usize|
                {
                    &&& settings_index < old(self)@.rooms.settings.len()
                    &&& settings_index != old(self)@.theme_at(position.x as int, position.y as int)
                    &&& final(self)@ == #[trigger] old(self)@.with_rooms(
                        old(self)@.rooms.with_room(settings_index),
                    ).with_cell(
                        new_position.x as int,
                        new_position.y as int,
                        old(self)@.rooms.rooms.len() as usize,
                    ).carved(
                        position.x as int,
                        position.y as int,
                        MazeDirection::between(position, new_position),
                        EdgeType::Door { open: false },
                        false,
                        false,
                    )
                },
            !(door && old(self)@.rooms.settings.len() > 1) ==> final(self)@ == old(self)@.with_cell(
                new_position.x as int,
                new_position.y as int,
                old(self)@.room_at(position.x as int, position.y as int) as usize,
            ).carved(
                position.x as int,
                position.y as int,
                MazeDirection::between(position, new_position),
                EdgeType::Passage,
                false,
                false,
            ),
    {
        let ghost x = position.x as int;
        let ghost y = position.y as int;
        let ghost nx = new_position.x as int;
        let ghost ny = new_position.y as int;
        let ghost direction = MazeDirection::between(position, new_position);
        proof {
            assert(old(self)@.cell_ok(x, y));
            assert(old(self)@.edge_ok(x, y, direction));
            old(self)@.rooms.lemma_resolve(old(self)@.cell(x, y).room_index as int);
        }
        active_positions.push(position);
        active_positions.push(new_position);
        let current_room_index = self.get_cell(&position).unwrap().get_room_index();
        let index_to_exclude = self.maze_rooms.get_settings_index_from_room_index(
            current_room_index,
        );
        let mut new_room: Option<usize> = None;
        if door {
            match self.create_room_and_return_index(Some(index_to_exclude), rand) {
                Ok(new_room_index) => {
                    new_room = Some(new_room_index);
                },
                Err(_) => {},
            }
        }
        let ghost roomed = self@;
        proof {
            assert(new_room is Some <==> door && old(self)@.rooms.settings.len() > 1);
            assert(roomed.has_cell(x, y));
            assert(roomed.cell(x, y).keeps(old(self)@.cell(x, y)));
            assert(roomed.cell_ok(x, y));
            assert(!roomed.has_cell(nx, ny)) by {
                if new_room is Some {
                    assert(roomed.cells == old(self)@.cells);
                }
            }
            if new_room is None {
                assert(roomed == old(self)@);
            }
        }
        match new_room {
            Some(new_room_index) => {
                self.add_cell(&new_position, new_room_index);
                let ghost celled = self@;
                proof {
                    assert(celled.has_cell(x, y));
                    assert(celled.cell(x, y).keeps(roomed.cell(x, y)));
                    assert(celled.theme_at(x, y) == roomed.theme_at(x, y));
                    assert(celled.cell(nx, ny) == MazeView::fresh_cell(nx, ny, new_room_index));
                    roomed.rooms.lemma_with_cell(new_room_index as int, new_position);
                    assert(celled.theme_at(nx, ny) == roomed.rooms.settings_of(
                        new_room_index as int,
                    ));
                    assert(celled.cell_ok(x, y));
                    assert(celled.edge_ok(x, y, direction));
                }
                self.add_door(&position, &new_position);
                proof {
                    self@.lemma_extends_transitive(celled, roomed);
                    self@.lemma_extends_transitive(roomed, old(self)@);
                    let settings_index = roomed.rooms.settings_of(new_room_index as int) as usize;
                    roomed.rooms.lemma_resolve(new_room_index as int);
                    assert(!old(self)@.never_opens_doors());
                    assert(settings_index < old(self)@.rooms.settings.len());
                    assert(settings_index != old(self)@.theme_at(x, y));
                    assert(self@ == old(self)@.with_rooms(
                        old(self)@.rooms.with_room(settings_index),
                    ).with_cell(nx, ny, old(self)@.rooms.rooms.len() as usize).carved(
                        x,
                        y,
                        direction,
                        EdgeType::Door { open: false },
                        false,
                        false,
                    ));
                }
            },
            None => {
                let joined_room = self.maze_rooms.resolve_room_index(current_room_index);
                self.add_cell(&new_position, joined_room);
                let ghost celled = self@;
                proof {
                    assert(celled.has_cell(x, y));
                    assert(celled.cell(x, y).keeps(roomed.cell(x, y)));
                    assert(celled.cell(nx, ny) == MazeView::fresh_cell(nx, ny, joined_room));
                    roomed.rooms.lemma_with_cell(joined_room as int, new_position);
                    roomed.rooms.lemma_resolve(current_room_index as int);
                    assert(celled.room_at(nx, ny) == joined_room);
                    assert(celled.room_at(x, y) == joined_room);
                    assert(celled.cell_ok(x, y));
                    assert(celled.edge_ok(x, y, direction));
                }
                self.add_passage(&position, &new_position);
                proof {
                    self@.lemma_extends_transitive(celled, roomed);
                    self@.lemma_extends_transitive(roomed, old(self)@);
                    assert(self@ == old(self)@.with_cell(
                        nx,
                        ny,
                        old(self)@.room_at(x, y) as usize,
                    ).carved(x, y, direction, EdgeType::Passage, false, false));
                }
            },
        }
    }

    /// A connection from a cell that was taken off the stack to a free place
    /// of the grid: a draw with the door chance of the maze decides between
    /// a door and a passage, and the cell is carved behind it.
    pub fn generate_passage_to_new_cell(
        &mut self,
        active_positions: &mut Vec<Position>,
        position: Position,
        new_position: Position,
        rand: &mut Random,
    )
        requires
            old(self)@.wf(),
            MazeDirection::between(position, new_position).leads(position, new_position),
            old(self)@.has_cell(position.x as int, position.y as int),
            old(self)@.in_bounds(new_position.x as int, new_position.y as int),
            !old(self)@.has_cell(new_position.x as int, new_position.y as int),
        ensures
            final(self)@.wf(),
            final(self)@.extends(old(self)@),
            final(active_positions)@ == old(active_positions)@.push(position).push(new_position),
            final(self).open_slots() == old(self).open_slots() - 2,
            old(self)@.step_outcome(
                final(self)@,
                position.x as int,
                position.y as int,
                MazeDirection::between(position, new_position),
            ),
    {
        let chance = self.door_probability;
        let door = chance.sample(rand);
        self.carve_new_cell(active_positions, position, new_position, door, rand);
    }

    /// Decides the edge of a cell that was taken off the stack, in a
    /// direction in which it is undecided, by what lies there. Towards the
    /// outside the cell gets a wall. Towards a free place of the grid a cell
    /// is carved there, behind a door or a passage. Towards a carved cell it
    /// gets a passage if both are decorated with the same settings, and else
    /// a wall. The cell goes back on the stack, and a cell that was carved
    /// goes on top of it.
    pub fn create_edges_for_direction(
        &mut self,
        active_positions: &mut Vec<Position>,
        position: Position,
        direction: MazeDirection,
        rand: &mut Random,
    )
        requires
            old(self)@.wf(),
            old(self)@.has_cell(position.x as int, position.y as int),
            !old(self)@.cell(position.x as int, position.y as int).has_edge(direction),
        ensures
            final(self)@.wf(),
            final(self)@.extends(old(self)@),
            old(self)@.step_outcome(final(self)@, position.x as int, position.y as int, direction),
            final(active_positions)@ == old(self)@.stack_after_step(
                old(active_positions)@.push(position),
                direction,
            ),
            final(self).open_slots() < old(self).open_slots(),
    {
        let ghost x = position.x as int;
        let ghost y = position.y as int;
        proof {
            assert(self@.cell_ok(x, y));
            assert(self@.edge_ok(x, y, direction));
            assert(old(active_positions)@.push(position).last() == position);
        }
        let new_position = direction.get_position(&position);
        proof {
            direction.lemma_leads_unique(position, new_position);
        }
        if self.contains_position(&new_position) {
            let entered: Option<usize> = match self.get_cell(&new_position) {
                Some(entered_cell) => Some(entered_cell.get_room_index()),
                None => None,
            };
            match entered {
                Some(entered_room_index) => {
                    proof {
                        assert(self@.cell_ok(new_position.x as int, new_position.y as int));
                    }
                    let room_index = self.get_cell(&position).unwrap().get_room_index();
                    let here = self.maze_rooms.get_settings_index_from_room_index(room_index);
                    let there = self.maze_rooms.get_settings_index_from_room_index(
                        entered_room_index,
                    );
                    if here == there {
                        self.expand_room(active_positions, position, new_position);
                    } else {
                        self.add_wall_to_position(active_positions, position, new_position, rand);
                    }
                },
                None => {
                    self.generate_passage_to_new_cell(
                        active_positions,
                        position,
                        new_position,
                        rand,
                    );
                },
            }
        } else {
            self.add_wall_to_position(active_positions, position, new_position, rand);
        }
    }

    /// One turn of the generation: the cell on top of the stack is taken
    /// off. If it is complete, nothing more happens. Else it picks one of
    /// its undecided directions at random, and the edge in that direction is
    /// decided by what lies there. A turn keeps the maze well formed, and a
    /// stack that tracked the maze tracks it after the turn.
    pub fn do_next_generation_step(&mut self, active_positions: &mut Vec<Position>, rand: &mut Random)
        requires
            old(self)@.wf(),
            old(active_positions)@.len() > 0,
            old(self)@.has_cell(
                old(active_positions)@.last().x as int,
                old(active_positions)@.last().y as int,
            ),
        ensures
            final(self)@.wf(),
            final(self)@.extends(old(self)@),
            old(self)@.turn_outcome(
                old(active_positions)@,
                final(self)@,
                final(active_positions)@,
            ),
            0 <= final(self).remaining(final(active_positions)@) < old(self).remaining(
                old(active_positions)@,
            ),
            old(self)@.carving(old(active_positions)@) ==> final(self)@.carving(
                final(active_positions)@,
            ),
    {
        proof {
            lemma_rows_sum_bounds(self.cells@);
        }
        let position = active_positions.pop().unwrap();
        let ghost rest = active_positions@;
        let ghost x = position.x as int;
        let ghost y = position.y as int;
        proof {
            assert(old(active_positions)@ =~= rest.push(position));
            assert(self@.cell_ok(x, y));
        }
        let current_cell: MazeCell = *self.get_cell(&position).unwrap();
        if current_cell.is_edge_complete() {
            proof {
                assert(rest =~= old(active_positions)@.drop_last());
                if old(self)@.carving(old(active_positions)@) {
                    old(self)@.lemma_turn_keeps_carving(old(active_positions)@, self@, rest);
                }
            }
            return;
        }
        let direction = current_cell.get_random_unused_direction_for_cell(rand);
        self.create_edges_for_direction(active_positions, position, direction, rand);
        proof {
            lemma_rows_sum_bounds(self.cells@);
            assert(old(self)@.step_outcome(self@, x, y, direction));
            assert(active_positions@ =~= old(self)@.stack_after_step(
                old(active_positions)@,
                direction,
            ));
            if old(self)@.carving(old(active_positions)@) {
                old(self)@.lemma_turn_keeps_carving(
                    old(active_positions)@,
                    self@,
                    active_positions@,
                );
            }
        }
    }

    /// Generates the maze: registers the room settings, lays out the grid,
    /// carves a first cell at a drawn position and grows the maze from it,
    /// step by step, until every place of the grid holds a complete cell.
    /// The cells of the maze then hang together through passages and doors.
    /// Fails, and changes nothing, where the size is not positive or there
    /// are no settings.
    pub fn generate(&mut self, rand: &mut Random, settings: Vec<MazeRoomSettings>) -> (outcome:
        Result<(), MazeError>)
        ensures
            match old(self)@.refusal(settings@.len() as int) {
                Some(error) => outcome == Err::<(), MazeError>(error) && final(self)@ == old(self)@,
                None => {
                    &&& outcome == Ok::<(), MazeError>(())
                    &&& final(self)@.extends(old(self)@.laid_out_with(settings@))
                    &&& final(self)@.wf()
                    &&& final(self)@.is_complete()
                    &&& old(self)@.laid_out_with(settings@).generates(final(self)@)
                    &&& final(self)@.is_connected()
                    &&& final(self)@.rooms.rooms.len() > 0
                    &&& final(self)@.never_opens_doors() ==> final(self)@.is_one_open_room()
                },
            },
    {
        let ghost catalog = settings@;
        match self.initialize_maze_rooms(settings) {
            Ok(()) => {},
            Err(error) => {
                return Err(error);
            },
        }
        let ghost laid_out = self@;
        let mut active_positions: Vec<Position> = Vec::new();
        self.do_first_generation_step(&mut active_positions, rand);
        let ghost start = active_positions@[0];
        let ghost first = self@;
        let ghost first_stack = active_positions@;
        let ghost mut turns: nat = 0;
        proof {
            assert(self@.has_cell(start.x as int, start.y as int));
        }
        while !active_positions.is_empty()
            invariant
                self@.carving(active_positions@),
                self@.extends(laid_out),
                self@.has_cell(start.x as int, start.y as int),
                first.grown_by_turns(first_stack, self@, active_positions@, turns),
            decreases self.remaining(active_positions@),
        {
            let ghost before = self@;
            let ghost before_stack = active_positions@;
            self.do_next_generation_step(&mut active_positions, rand);
            proof {
                self@.lemma_extends_transitive(before, laid_out);
                assert(before.turn_outcome(before_stack, self@, active_positions@));
                turns = turns + 1;
            }
        }
        proof {
            self@.lemma_covered(start.x as int, start.y as int);
            let settings_index = choose|settings_index: usize|
                {
                    &&& settings_index < laid_out.rooms.settings.len()
                    &&& first == #[trigger] laid_out.first_cell(
                        start.x as int,
                        start.y as int,
                        settings_index,
                    )
                };
            assert(first_stack =~= seq![start]);
            assert(active_positions@ =~= Seq::<Position>::empty());
            assert(laid_out.first_cell(start.x as int, start.y as int, settings_index).grown_by_turns(
                seq![Position { x: (start.x as int) as i32, y: (start.y as int) as i32 }],
                self@,
                Seq::empty(),
                turns,
            ));
            old(self)@.lemma_generated_connected(catalog, self@);
        }
        Ok(())
    }
}

/// A position of a grid, each coordinate drawn within its bound.
fn random_position(max_x: i32, max_y: i32, rand: &mut Random) -> (position: Position)
    requires
        max_x > 0,
        max_y > 0,
    ensures
        0 <= position.x < max_x,
        0 <= position.y < max_y,
{
    let random_x = gen_range(rand, 0, max_x as usize);
    let random_y = gen_range(rand, 0, max_y as usize);
    Position::new_from_usize(random_x, random_y)
}

} // verus!
