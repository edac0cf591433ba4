//! The maze as a mathematical value.
//!
//! This file says what a maze is, which conditions every maze meets, and how
//! a maze grows: by carving a cell, by creating or merging rooms, by deciding
//! an edge. On top of these it says what one step and one turn of the
//! generation may do, and what generation as a whole may lead to. The
//! theorems at the end show that whatever generation leads to is well
//! formed, covers the grid and hangs together.

use vstd::prelude::*;
use crate::maze::maze_cell::CellView;
use crate::maze::maze_cell_edge::EdgeType;
use crate::maze::maze_cell_edge::MazeCellEdge;
use crate::maze::maze_direction::MazeDirection;
use crate::maze::maze_error::MazeError;
use crate::maze::maze_room::MazeRoomSettings;
use crate::maze::maze_room::RoomsView;
use crate::position::Position;
use crate::random::Probability;

verus! {

/// What a maze holds: its size, whether its grid has been laid out, the cells
/// carved so far by their coordinates, the rooms, and the chances that
/// generation draws with.
pub struct MazeView {
    pub width: int,
    pub height: int,
    pub ready: bool,
    pub cells: Map<(int, int), CellView>,
    pub rooms: RoomsView,
    pub door_probability: Probability,
    pub wall_light_probability: Probability,
}

impl MazeView {
    pub open spec fn in_bounds(self, x: int, y: int) -> bool {
        0 <= x < self.width && 0 <= y < self.height
    }

    pub open spec fn has_cell(self, x: int, y: int) -> bool {
        self.cells.contains_key((x, y))
    }

    pub open spec fn cell(self, x: int, y: int) -> CellView {
        self.cells[(x, y)]
    }

    /// The type of the edge that the cell at a place has in a direction;
    /// nothing where there is no cell or the edge is undecided.
    pub open spec fn edge_type_at(self, x: int, y: int, direction: MazeDirection) -> Option<
        EdgeType,
    > {
        if self.has_cell(x, y) {
            self.cell(x, y).edge_type(direction)
        } else {
            None
        }
    }

    /// The live room that owns the cell at a place.
    pub open spec fn room_at(self, x: int, y: int) -> int {
        self.rooms.resolve(self.cell(x, y).room_index as int)
    }

    /// The settings index that decorates the cell at a place.
    pub open spec fn theme_at(self, x: int, y: int) -> int {
        self.rooms.settings_of(self.cell(x, y).room_index as int)
    }

    /// The cell at a place lies in bounds, knows its place, is carved, names
    /// a room whose owner lists it, and files each edge under its direction.
    pub open spec fn cell_ok(self, x: int, y: int) -> bool {
        let c = self.cell(x, y);
        &&& self.in_bounds(x, y)
        &&& c.position.x == x
        &&& c.position.y == y
        &&& c.initialized
        &&& self.rooms.is_room(c.room_index as int)
        &&& self.rooms.rooms[self.room_at(x, y)].cells.contains(c.position)
        &&& forall|direction: MazeDirection|
            (#[trigger] c.edge(direction)) matches Some(edge) ==> edge.maze_direction == direction
    }

    /// The boundary of a place in a direction. Towards a place in bounds both
    /// sides agree on the type, a door and a wall separate different
    /// settings, and a passage stays within one room. Towards the outside
    /// there is nothing but a wall.
    pub open spec fn edge_ok(self, x: int, y: int, direction: MazeDirection) -> bool {
        let nx = x + direction.dx();
        let ny = y + direction.dy();
        if self.in_bounds(nx, ny) {
            &&& self.edge_type_at(x, y, direction) == self.edge_type_at(
                nx,
                ny,
                direction.spec_opposite(),
            )
            &&& self.edge_type_at(x, y, direction) matches Some(edge_type) ==> match edge_type {
                EdgeType::Wall => self.theme_at(x, y) != self.theme_at(nx, ny),
                EdgeType::Passage => self.room_at(x, y) == self.room_at(nx, ny),
                EdgeType::Door { open: _ } => self.theme_at(x, y) != self.theme_at(nx, ny),
            }
        } else {
            self.edge_type_at(x, y, direction) is None || self.edge_type_at(x, y, direction)
                == Some(EdgeType::Wall)
        }
    }

    /// A room lists no position twice, and only positions of cells that it
    /// owns.
    pub open spec fn room_ok(self, room_index: int) -> bool {
        let listed = self.rooms.rooms[room_index].cells;
        &&& listed.no_duplicates()
        &&& forall|i: int|
            0 <= i < listed.len() ==> {
                let p = #[trigger] listed[i];
                self.has_cell(p.x as int, p.y as int) && self.room_at(p.x as int, p.y as int)
                    == room_index
            }
    }

    /// The conditions that hold of a maze at every moment of its growth.
    pub open spec fn wf(self) -> bool {
        &&& self.ready
        &&& 0 < self.width <= i32::MAX
        &&& 0 < self.height <= i32::MAX
        &&& self.rooms.wf()
        &&& forall|x: int, y: int| #[trigger] self.has_cell(x, y) ==> self.cell_ok(x, y)
        &&& forall|x: int, y: int, direction: MazeDirection|
            self.in_bounds(x, y) ==> #[trigger] self.edge_ok(x, y, direction)
        &&& forall|room_index: int|
            self.rooms.is_room(room_index) ==> #[trigger] self.room_ok(room_index)
    }

    /// Every place of the grid holds a cell, and every cell has all four
    /// edges decided.
    pub open spec fn is_complete(self) -> bool {
        forall|x: int, y: int|
            #![trigger self.has_cell(x, y)]
            #![trigger self.cell(x, y)]
            self.in_bounds(x, y) ==> self.has_cell(x, y) && self.cell(x, y).is_complete()
    }

    /// No edge of the maze is a door.
    pub open spec fn has_no_door(self) -> bool {
        forall|x: int, y: int, direction: MazeDirection|
            !((#[trigger] self.edge_type_at(x, y, direction)) matches Some(
                EdgeType::Door { open: _ },
            ))
    }

    /// No two places of the grid are separated by a wall.
    pub open spec fn has_no_inner_wall(self) -> bool {
        forall|x: int, y: int, direction: MazeDirection|
            self.in_bounds(x + direction.dx(), y + direction.dy()) ==> #[trigger] self.edge_type_at(
                x,
                y,
                direction,
            ) != Some(EdgeType::Wall)
    }

    /// The maze is one room without doors and without walls between its
    /// cells.
    pub open spec fn is_one_open_room(self) -> bool {
        &&& self.has_no_door()
        &&& self.has_no_inner_wall()
        &&& self.rooms.rooms.len() == 1
    }

    /// No door can come to be: none is ever drawn, or the catalog offers no
    /// second settings for the room behind it.
    pub open spec fn never_opens_doors(self) -> bool {
        self.door_probability.is_never() || self.rooms.settings.len() == 1
    }

    /// Whether the cell at a place is joined to its neighbour in a
    /// direction: by a passage, or by a door, open or closed.
    pub open spec fn joined(self, x: int, y: int, direction: MazeDirection) -> bool {
        self.edge_type_at(x, y, direction) is Some && self.edge_type_at(x, y, direction) != Some(
            EdgeType::Wall,
        )
    }

    /// Whether a walk of the given length, from cell to cell through
    /// passages and doors, leads from one place to another.
    pub open spec fn walk(self, x0: int, y0: int, x: int, y: int, length: nat) -> bool
        decreases length,
    {
        if length == 0 {
            x == x0 && y == y0 && self.has_cell(x, y)
        } else {
            exists|px: int, py: int, direction: MazeDirection|
                {
                    &&& #[trigger] self.joined(px, py, direction)
                    &&& px + direction.dx() == x
                    &&& py + direction.dy() == y
                    &&& self.walk(x0, y0, px, py, (length - 1) as nat)
                }
        }
    }

    /// Whether every cell can be walked to from the cell at a place.
    pub open spec fn spans_from(self, x0: int, y0: int) -> bool {
        &&& self.has_cell(x0, y0)
        &&& forall|x: int, y: int| #[trigger]
            self.has_cell(x, y) ==> exists|length: nat| #[trigger] self.walk(x0, y0, x, y, length)
    }

    /// Whether the cells of the maze hang together: there is a cell from
    /// which every cell can be walked to.
    pub open spec fn is_connected(self) -> bool {
        exists|x0: int, y0: int| #[trigger] self.spans_from(x0, y0)
    }

    /// The maze has grown out of `before`: the grid and the catalog are the
    /// same, no room index was taken back, and every cell of `before` is
    /// still there, at its place, under its room index, with the edges that
    /// were decided, and decorated by the same settings.
    pub open spec fn extends(self, before: MazeView) -> bool {
        &&& self.width == before.width
        &&& self.height == before.height
        &&& self.ready == before.ready
        &&& self.door_probability == before.door_probability
        &&& self.wall_light_probability == before.wall_light_probability
        &&& self.rooms.settings == before.rooms.settings
        &&& self.rooms.rooms.len() >= before.rooms.rooms.len()
        &&& forall|x: int, y: int| #[trigger]
            before.has_cell(x, y) ==> {
                &&& self.has_cell(x, y)
                &&& self.cell(x, y).keeps(before.cell(x, y))
                &&& self.theme_at(x, y) == before.theme_at(x, y)
            }
    }

    /// Why a maze of this size cannot be laid out for a catalog of
    /// `settings_count` room settings, if it cannot.
    pub open spec fn refusal(self, settings_count: int) -> Option<MazeError> {
        if self.width <= 0 || self.height <= 0 {
            Some(MazeError::InvalidSize)
        } else if settings_count == 0 {
            Some(MazeError::EmptySettings)
        } else {
            None
        }
    }

    /// The maze with its grid laid out, no cell carved, the catalog
    /// registered and no room.
    pub open spec fn laid_out_with(self, settings: Seq<MazeRoomSettings>) -> MazeView {
        MazeView {
            ready: true,
            cells: Map::empty(),
            rooms: RoomsView { settings, rooms: Seq::empty() },
            ..self
        }
    }

    /// The cell that is carved at a place for a room.
    pub open spec fn fresh_cell(x: int, y: int, room_index: usize) -> CellView {
        CellView {
            initialized: true,
            ..CellView::blank(Position { x: x as i32, y: y as i32 }, room_index)
        }
    }

    /// The maze after a cell was carved at a place and put into a room.
    pub open spec fn with_cell(self, x: int, y: int, room_index: usize) -> MazeView {
        MazeView {
            cells: self.cells.insert((x, y), Self::fresh_cell(x, y, room_index)),
            rooms: self.rooms.with_cell(
                room_index as int,
                Position { x: x as i32, y: y as i32 },
            ),
            ..self
        }
    }

    /// The maze with other rooms.
    pub open spec fn with_rooms(self, rooms: RoomsView) -> MazeView {
        MazeView { rooms, ..self }
    }

    /// Whether an edge of a type may be decided at a place in a direction:
    /// there is a cell whose edge in that direction is undecided; a wall
    /// faces the outside or a carved cell with different settings; a passage
    /// leads to a cell of the same room; a door leads to a cell with
    /// different settings.
    pub open spec fn can_connect(
        self,
        x: int,
        y: int,
        direction: MazeDirection,
        edge_type: EdgeType,
    ) -> bool {
        let nx = x + direction.dx();
        let ny = y + direction.dy();
        &&& self.has_cell(x, y)
        &&& self.edge_type_at(x, y, direction) is None
        &&& match edge_type {
            EdgeType::Wall => !self.in_bounds(nx, ny) || (self.has_cell(nx, ny) && self.theme_at(
                x,
                y,
            ) != self.theme_at(nx, ny)),
            EdgeType::Passage => self.has_cell(nx, ny) && self.room_at(x, y) == self.room_at(
                nx,
                ny,
            ),
            EdgeType::Door { open: _ } => self.has_cell(nx, ny) && self.theme_at(x, y)
                != self.theme_at(nx, ny),
        }
    }

    /// The maze after an edge was decided at a place in a direction: the
    /// cell there stores `leaving`, and the neighbour, if it is carved,
    /// stores `entering` in the opposite direction.
    pub open spec fn connected(
        self,
        x: int,
        y: int,
        direction: MazeDirection,
        leaving: MazeCellEdge,
        entering: MazeCellEdge,
    ) -> MazeView {
        let nx = x + direction.dx();
        let ny = y + direction.dy();
        let here = self.cells.insert((x, y), self.cell(x, y).with_edge(direction, leaving));
        MazeView {
            cells: if self.has_cell(nx, ny) {
                here.insert(
                    (nx, ny),
                    self.cell(nx, ny).with_edge(direction.spec_opposite(), entering),
                )
            } else {
                here
            },
            ..self
        }
    }

    /// The maze after an edge of a type was decided at a place in a
    /// direction, where `light_leaving` and `light_entering` say on which
    /// sides a wall got a light.
    pub open spec fn carved(
        self,
        x: int,
        y: int,
        direction: MazeDirection,
        edge_type: EdgeType,
        light_leaving: bool,
        light_entering: bool,
    ) -> MazeView {
        self.connected(
            x,
            y,
            direction,
            MazeCellEdge::plain(direction, edge_type).furnished(light_leaving),
            MazeCellEdge::plain(direction.spec_opposite(), edge_type).furnished(light_entering),
        )
    }

    /// The maze with the door at a place in a direction opened or closed on
    /// both of its sides; where there is no door, the maze as it is.
    pub open spec fn with_door_open(
        self,
        x: int,
        y: int,
        direction: MazeDirection,
        open: bool,
    ) -> MazeView {
        let nx = x + direction.dx();
        let ny = y + direction.dy();
        if self.edge_type_at(x, y, direction) matches Some(EdgeType::Door { open: _ }) {
            MazeView {
                cells: self.cells.insert(
                    (x, y),
                    self.cell(x, y).with_door_open(direction, open),
                ).insert(
                    (nx, ny),
                    self.cell(nx, ny).with_door_open(direction.spec_opposite(), open),
                ),
                ..self
            }
        } else {
            self
        }
    }

    /// The neighbour in a direction, with the direction, if the cell at a
    /// place can still be left that way: the neighbour lies on the grid and
    /// the edge towards it is undecided.
    pub open spec fn way_out(self, x: int, y: int, direction: MazeDirection) -> Seq<
        (Position, MazeDirection),
    > {
        let nx = x + direction.dx();
        let ny = y + direction.dy();
        if self.has_cell(x, y) && self.in_bounds(nx, ny) && self.edge_type_at(x, y, direction)
            is None {
            seq![(Position { x: nx as i32, y: ny as i32 }, direction)]
        } else {
            Seq::empty()
        }
    }

    /// The ways out of the cell at a place, looking West, East, North and
    /// South, in this order.
    pub open spec fn unvisited_neighbors(self, x: int, y: int) -> Seq<(Position, MazeDirection)> {
        self.way_out(x, y, MazeDirection::WEST) + self.way_out(x, y, MazeDirection::EAST)
            + self.way_out(x, y, MazeDirection::NORTH) + self.way_out(x, y, MazeDirection::SOUTH)
    }

    /// The maze after its first cell was carved at a place, in a first room
    /// with the given settings.
    pub open spec fn first_cell(self, x: int, y: int, settings_index: usize) -> MazeView {
        self.with_rooms(self.rooms.with_room(settings_index)).with_cell(
            x,
            y,
            self.rooms.rooms.len() as usize,
        )
    }

    /// Whether `after` is what the maze can be after the cell at a place has
    /// decided its edge in a direction in which a step of the generation
    /// takes it.
    ///
    /// Towards the outside the cell gets a wall. Towards a free place of the
    /// grid a cell is carved there: behind a passage it joins the room on
    /// this side; behind a closed door it gets a new room, with settings
    /// other than those on this side, and this only where a door can come to
    /// be. Towards a carved cell with the same settings the rooms of the two
    /// are merged and joined by a passage. Towards a carved cell with other
    /// settings the cell gets a wall. A wall may carry a light on either
    /// side.
    pub open spec fn step_outcome(
        self,
        after: MazeView,
        x: int,
        y: int,
        direction: MazeDirection,
    ) -> bool {
        let nx = x + direction.dx();
        let ny = y + direction.dy();
        if !self.in_bounds(nx, ny) || (self.has_cell(nx, ny) && self.theme_at(x, y)
            != self.theme_at(nx, ny)) {
            exists|light_leaving: bool, light_entering: bool|
                after == #[trigger] self.carved(
                    x,
                    y,
                    direction,
                    EdgeType::Wall,
                    light_leaving,
                    light_entering,
                )
        } else if self.has_cell(nx, ny) {
            after == self.with_rooms(
                self.rooms.merged(
                    self.cell(x, y).room_index as int,
                    self.cell(nx, ny).room_index as int,
                ),
            ).carved(x, y, direction, EdgeType::Passage, false, false)
        } else {
            ||| after == self.with_cell(nx, ny, self.room_at(x, y) as usize).carved(
                x,
                y,
                direction,
                EdgeType::Passage,
                false,
                false,
            )
            ||| exists|settings_index: usize|
                {
                    &&& !self.never_opens_doors()
                    &&& self.rooms.rooms.len() < usize::MAX
                    &&& settings_index < self.rooms.settings.len()
                    &&& settings_index != self.theme_at(x, y)
                    &&& after == #[trigger] self.with_rooms(
                        self.rooms.with_room(settings_index),
                    ).with_cell(nx, ny, self.rooms.rooms.len() as usize).carved(
                        x,
                        y,
                        direction,
                        EdgeType::Door { open: false },
                        false,
                        false,
                    )
                }
        }
    }

    /// The stack holds positions of carved cells only, and the position of
    /// every cell that is not complete.
    pub open spec fn tracked_by(self, stack: Seq<Position>) -> bool {
        &&& forall|i: int|
            0 <= i < stack.len() ==> self.has_cell((#[trigger] stack[i]).x as int, stack[i].y as int)
        &&& forall|x: int, y: int| #[trigger]
            self.has_cell(x, y) && !self.cell(x, y).is_complete() ==> stack.contains(
                self.cell(x, y).position,
            )
    }

    /// What holds between two turns of a generation: the maze is well
    /// formed, the stack tracks the cells that are not complete, and where
    /// no door can come to be the maze is one open room.
    pub open spec fn carving(self, stack: Seq<Position>) -> bool {
        &&& self.wf()
        &&& self.tracked_by(stack)
        &&& self.never_opens_doors() ==> self.is_one_open_room()
    }

    /// The stack after the cell on top of it has taken a step in a
    /// direction: the cell stays on the stack, and the cell that the step
    /// carved, if it carved one, comes on top of it.
    pub open spec fn stack_after_step(
        self,
        stack: Seq<Position>,
        direction: MazeDirection,
    ) -> Seq<Position> {
        let nx = stack.last().x + direction.dx();
        let ny = stack.last().y + direction.dy();
        if self.in_bounds(nx, ny) && !self.has_cell(nx, ny) {
            stack.push(Position { x: nx as i32, y: ny as i32 })
        } else {
            stack
        }
    }

    /// Whether one turn of the generation can lead from this maze and a
    /// stack to `after` and `stack_after`. The turn belongs to the cell on
    /// top of the stack. A complete cell leaves the stack, and the maze stays
    /// as it is. Any other cell takes a step in one of its undecided
    /// directions.
    pub open spec fn turn_outcome(
        self,
        stack: Seq<Position>,
        after: MazeView,
        stack_after: Seq<Position>,
    ) -> bool {
        let x = stack.last().x as int;
        let y = stack.last().y as int;
        &&& stack.len() > 0
        &&& self.has_cell(x, y)
        &&& if self.cell(x, y).is_complete() {
            after == self && stack_after == stack.drop_last()
        } else {
            exists|direction: MazeDirection|
                {
                    &&& !self.cell(x, y).has_edge(direction)
                    &&& #[trigger] self.step_outcome(after, x, y, direction)
                    &&& stack_after == self.stack_after_step(stack, direction)
                }
        }
    }

    /// Whether the given number of turns can lead from this maze and a stack
    /// to `after` and `stack_after`.
    pub open spec fn grown_by_turns(
        self,
        stack: Seq<Position>,
        after: MazeView,
        stack_after: Seq<Position>,
        turns: nat,
    ) -> bool
        decreases turns,
    {
        if turns == 0 {
            after == self && stack_after == stack
        } else {
            exists|middle: MazeView, middle_stack: Seq<Position>|
                {
                    &&& self.grown_by_turns(stack, middle, middle_stack, (turns - 1) as nat)
                    &&& #[trigger] middle.turn_outcome(middle_stack, after, stack_after)
                }
        }
    }

    /// Whether generation can lead from this maze, whose grid is laid out
    /// and empty, to `after`: a first cell is carved and put on the stack,
    /// and turns are taken until the stack is empty.
    pub open spec fn generates(self, after: MazeView) -> bool {
        exists|x: int, y: int, settings_index: usize, turns: nat|
            {
                &&& self.in_bounds(x, y)
                &&& settings_index < self.rooms.settings.len()
                &&& #[trigger] self.first_cell(x, y, settings_index).grown_by_turns(
                    seq![Position { x: x as i32, y: y as i32 }],
                    after,
                    Seq::empty(),
                    turns,
                )
            }
    }

    /// Two neighbouring places of the grid agree on the type of the edge
    /// between them: what one stores towards the other, the other stores
    /// towards it.
    pub proof fn lemma_edges_agree(self, x: int, y: int, direction: MazeDirection)
        requires
            self.wf(),
            self.in_bounds(x, y),
            self.in_bounds(x + direction.dx(), y + direction.dy()),
        ensures
            self.edge_type_at(x, y, direction) == self.edge_type_at(
                x + direction.dx(),
                y + direction.dy(),
                direction.spec_opposite(),
            ),
    {
        assert(self.edge_ok(x, y, direction));
    }

    /// Towards the outside of the grid a cell has no passage and no door: the
    /// edge is undecided or a wall, and in a complete cell it is a wall.
    pub proof fn lemma_outside_is_walled(self, x: int, y: int, direction: MazeDirection)
        requires
            self.wf(),
            self.has_cell(x, y),
            !self.in_bounds(x + direction.dx(), y + direction.dy()),
        ensures
            self.edge_type_at(x, y, direction) is None || self.edge_type_at(x, y, direction)
                == Some(EdgeType::Wall),
            self.cell(x, y).is_complete() ==> self.edge_type_at(x, y, direction) == Some(
                EdgeType::Wall,
            ),
    {
        assert(self.cell_ok(x, y));
        assert(self.edge_ok(x, y, direction));
    }

    /// A door stands between two carved cells that are decorated with
    /// different settings.
    pub proof fn lemma_door_changes_settings(self, x: int, y: int, direction: MazeDirection)
        requires
            self.wf(),
            self.edge_type_at(x, y, direction) matches Some(EdgeType::Door { open: _ }),
        ensures
            self.has_cell(x, y),
            self.has_cell(x + direction.dx(), y + direction.dy()),
            self.theme_at(x, y) != self.theme_at(x + direction.dx(), y + direction.dy()),
            self.room_at(x, y) != self.room_at(x + direction.dx(), y + direction.dy()),
    {
        assert(self.cell_ok(x, y));
        assert(self.edge_ok(x, y, direction));
    }

    /// A passage joins two carved cells of one room.
    pub proof fn lemma_passage_keeps_room(self, x: int, y: int, direction: MazeDirection)
        requires
            self.wf(),
            self.edge_type_at(x, y, direction) == Some(EdgeType::Passage),
        ensures
            self.has_cell(x, y),
            self.has_cell(x + direction.dx(), y + direction.dy()),
            self.room_at(x, y) == self.room_at(x + direction.dx(), y + direction.dy()),
            self.theme_at(x, y) == self.theme_at(x + direction.dx(), y + direction.dy()),
    {
        assert(self.cell_ok(x, y));
        assert(self.edge_ok(x, y, direction));
    }

    /// Two neighbouring cells whose common edge is decided belong to one
    /// room exactly when the edge is a passage: a wall and a door separate
    /// cells with different settings, and so of different rooms.
    pub proof fn lemma_same_room_iff_passage(self, x: int, y: int, direction: MazeDirection)
        requires
            self.wf(),
            self.has_cell(x, y),
            self.has_cell(x + direction.dx(), y + direction.dy()),
            self.cell(x, y).has_edge(direction),
        ensures
            self.room_at(x, y) == self.room_at(x + direction.dx(), y + direction.dy())
                <==> self.edge_type_at(x, y, direction) == Some(EdgeType::Passage),
            self.edge_type_at(x, y, direction) != Some(EdgeType::Passage) ==> self.theme_at(x, y)
                != self.theme_at(x + direction.dx(), y + direction.dy()),
    {
        assert(self.cell_ok(x, y));
        assert(self.cell_ok(x + direction.dx(), y + direction.dy()));
        assert(self.edge_ok(x, y, direction));
    }

    /// The room index of a cell resolves to a live room, which lists the
    /// cell and whose settings, taken from the catalog, decorate it.
    pub proof fn lemma_cell_room_resolves(self, x: int, y: int)
        requires
            self.wf(),
            self.has_cell(x, y),
        ensures
            self.rooms.is_room(self.cell(x, y).room_index as int),
            self.rooms.is_live(self.room_at(x, y)),
            self.rooms.rooms[self.room_at(x, y)].cells.contains(self.cell(x, y).position),
            self.theme_at(x, y) == self.rooms.rooms[self.room_at(x, y)].settings_index,
            0 <= self.theme_at(x, y) < self.rooms.settings.len(),
    {
        assert(self.cell_ok(x, y));
        self.rooms.lemma_resolve(self.cell(x, y).room_index as int);
    }

    /// A position is listed by the room that owns its cell, there once, and
    /// by no other room.
    pub proof fn lemma_listed_once(self, x: int, y: int, room_index: int, i: int)
        requires
            self.wf(),
            self.has_cell(x, y),
            self.rooms.is_room(room_index),
            0 <= i < self.rooms.rooms[room_index].cells.len(),
            self.rooms.rooms[room_index].cells[i] == self.cell(x, y).position,
        ensures
            room_index == self.room_at(x, y),
            forall|j: int|
                0 <= j < self.rooms.rooms[room_index].cells.len() && (
                #[trigger] self.rooms.rooms[room_index].cells[j]) == self.cell(x, y).position ==> j
                    == i,
    {
        assert(self.cell_ok(x, y));
        assert(self.room_ok(room_index));
    }

    /// While a maze grows, a cell stays where it is, under its room index,
    /// and decorated with the same settings.
    pub proof fn lemma_growth_keeps_settings(self, before: MazeView, x: int, y: int)
        requires
            self.extends(before),
            before.has_cell(x, y),
        ensures
            self.has_cell(x, y),
            self.cell(x, y).position == before.cell(x, y).position,
            self.cell(x, y).room_index == before.cell(x, y).room_index,
            self.theme_at(x, y) == before.theme_at(x, y),
    {
    }

    /// Growth composes: what has grown out of a maze that has grown out of
    /// `first` has grown out of `first`.
    pub proof fn lemma_extends_transitive(self, middle: MazeView, first: MazeView)
        requires
            self.extends(middle),
            middle.extends(first),
        ensures
            self.extends(first),
    {
        assert forall|x: int, y: int| #[trigger] first.has_cell(x, y) implies {
            &&& self.has_cell(x, y)
            &&& self.cell(x, y).keeps(first.cell(x, y))
            &&& self.theme_at(x, y) == first.theme_at(x, y)
        } by {
            assert(middle.has_cell(x, y));
        }
    }

    /// A grid that is laid out for a catalog, with no cell carved and no
    /// room, is well formed.
    pub proof fn lemma_laid_out_wf(self, settings: Seq<MazeRoomSettings>)
        requires
            0 < self.width <= i32::MAX,
            0 < self.height <= i32::MAX,
        ensures
            self.laid_out_with(settings).wf(),
    {
    }

    /// Carving a cell at a free place of the grid, for a live room, keeps
    /// the maze well formed.
    pub proof fn lemma_with_cell_wf(self, x: int, y: int, room_index: usize)
        requires
            self.wf(),
            self.in_bounds(x, y),
            !self.has_cell(x, y),
            self.rooms.is_live(room_index as int),
        ensures
            self.with_cell(x, y, room_index).wf(),
            self.with_cell(x, y, room_index).extends(self),
            self.has_no_door() ==> self.with_cell(x, y, room_index).has_no_door(),
            self.has_no_inner_wall() ==> self.with_cell(x, y, room_index).has_no_inner_wall(),
    {
        let after = self.with_cell(x, y, room_index);
        if self.has_no_inner_wall() {
            assert forall|a: int, b: int, e: MazeDirection|
                after.in_bounds(a + e.dx(), b + e.dy()) implies #[trigger] after.edge_type_at(
                a,
                b,
                e,
            ) != Some(EdgeType::Wall) by {
                assert(self.edge_type_at(a, b, e) != Some(EdgeType::Wall));
            }
        }
        let position = Position { x: x as i32, y: y as i32 };
        self.rooms.lemma_with_cell(room_index as int, position);
        self.rooms.lemma_resolve(room_index as int);
        assert forall|a: int, b: int| #[trigger] self.has_cell(a, b) implies {
            &&& after.has_cell(a, b)
            &&& after.cell(a, b).keeps(self.cell(a, b))
            &&& after.theme_at(a, b) == self.theme_at(a, b)
        } by {
            assert(self.cell_ok(a, b));
            assert(after.rooms.settings_of(self.cell(a, b).room_index as int)
                == self.rooms.settings_of(self.cell(a, b).room_index as int));
        }
        if self.has_no_door() {
            assert forall|a: int, b: int, e: MazeDirection|
                !((#[trigger] after.edge_type_at(a, b, e)) matches Some(
                    EdgeType::Door { open: _ },
                )) by {
                assert(!(self.edge_type_at(a, b, e) matches Some(EdgeType::Door { open: _ })));
            }
        }
        let old_listed = self.rooms.rooms[room_index as int].cells;
        let new_listed = after.rooms.rooms[room_index as int].cells;
        assert(new_listed == old_listed.push(position));
        assert(new_listed[old_listed.len() as int] == position);
        assert(self.room_ok(room_index as int));
        assert forall|a: int, b: int| #[trigger] after.has_cell(a, b) implies after.cell_ok(
            a,
            b,
        ) by {
            if a == x && b == y {
                assert(after.cell(a, b) == Self::fresh_cell(x, y, room_index));
                assert(after.rooms.resolve(room_index as int) == self.rooms.resolve(
                    room_index as int,
                ));
            } else {
                assert(self.has_cell(a, b));
                assert(self.cell_ok(a, b));
                let c = self.cell(a, b);
                let r = self.room_at(a, b);
                self.rooms.lemma_resolve(c.room_index as int);
                assert(after.rooms.resolve(c.room_index as int) == self.rooms.resolve(
                    c.room_index as int,
                ));
                let i = choose|i: int|
                    0 <= i < self.rooms.rooms[r].cells.len() && self.rooms.rooms[r].cells[i]
                        == c.position;
                assert(after.rooms.rooms[r].cells[i] == c.position);
            }
        }
        assert forall|a: int, b: int, e: MazeDirection| after.in_bounds(a, b) implies #[trigger] after.edge_ok(
            a,
            b,
            e,
        ) by {
            assert(self.edge_ok(a, b, e));
            let na = a + e.dx();
            let nb = b + e.dy();
            if after.in_bounds(na, nb) {
                e.lemma_opposite();
                assert(self.edge_ok(na, nb, e.spec_opposite()));
            }
            if self.has_cell(a, b) {
                assert(self.cell_ok(a, b));
                assert(after.rooms.resolve(self.cell(a, b).room_index as int)
                    == self.rooms.resolve(self.cell(a, b).room_index as int));
                assert(after.rooms.settings_of(self.cell(a, b).room_index as int)
                    == self.rooms.settings_of(self.cell(a, b).room_index as int));
            }
            if self.has_cell(na, nb) {
                assert(self.cell_ok(na, nb));
                assert(after.rooms.resolve(self.cell(na, nb).room_index as int)
                    == self.rooms.resolve(self.cell(na, nb).room_index as int));
                assert(after.rooms.settings_of(self.cell(na, nb).room_index as int)
                    == self.rooms.settings_of(self.cell(na, nb).room_index as int));
            }
        }
        assert forall|r: int| after.rooms.is_room(r) implies #[trigger] after.room_ok(r) by {
            assert(self.room_ok(r));
            let listed = after.rooms.rooms[r].cells;
            assert forall|i: int| 0 <= i < listed.len() implies {
                let p = #[trigger] listed[i];
                after.has_cell(p.x as int, p.y as int) && after.room_at(p.x as int, p.y as int)
                    == r
            } by {
                let p = listed[i];
                if r == room_index && i == old_listed.len() {
                } else {
                    assert(self.rooms.rooms[r].cells[i] == p);
                    assert(self.has_cell(p.x as int, p.y as int));
                    assert(self.cell_ok(p.x as int, p.y as int));
                    assert(after.rooms.resolve(self.cell(p.x as int, p.y as int).room_index as int)
                        == self.rooms.resolve(
                        self.cell(p.x as int, p.y as int).room_index as int,
                    ));
                }
            }
            if r == room_index {
                assert forall|i: int, j: int|
                    0 <= i < listed.len() && 0 <= j < listed.len() && i != j implies listed[i]
                    != listed[j] by {
                    if i < old_listed.len() {
                        assert(old_listed[i] == listed[i]);
                    }
                    if j < old_listed.len() {
                        assert(old_listed[j] == listed[j]);
                    }
                }
            }
        }
    }

    /// A new room keeps the maze well formed and leaves every cell in its
    /// room, with its settings.
    pub proof fn lemma_with_room_wf(self, settings_index: usize)
        requires
            self.wf(),
            self.rooms.rooms.len() < usize::MAX,
            settings_index < self.rooms.settings.len(),
        ensures
            self.with_rooms(self.rooms.with_room(settings_index)).wf(),
            self.with_rooms(self.rooms.with_room(settings_index)).extends(self),
            forall|x: int, y: int| #[trigger]
                self.has_cell(x, y) ==> {
                    &&& self.with_rooms(self.rooms.with_room(settings_index)).room_at(x, y)
                        == self.room_at(x, y)
                    &&& self.with_rooms(self.rooms.with_room(settings_index)).theme_at(x, y)
                        == self.theme_at(x, y)
                },
    {
        let after = self.with_rooms(self.rooms.with_room(settings_index));
        self.rooms.lemma_with_room(settings_index);
        assert forall|a: int, b: int| #[trigger] self.has_cell(a, b) implies {
            &&& after.room_at(a, b) == self.room_at(a, b)
            &&& after.theme_at(a, b) == self.theme_at(a, b)
        } by {
            assert(self.cell_ok(a, b));
            let c = self.cell(a, b);
            assert(after.rooms.resolve(c.room_index as int) == self.rooms.resolve(
                c.room_index as int,
            ));
        }
        assert forall|a: int, b: int| #[trigger] after.has_cell(a, b) implies after.cell_ok(
            a,
            b,
        ) by {
            assert(self.has_cell(a, b));
            assert(self.cell_ok(a, b));
            self.rooms.lemma_resolve(self.cell(a, b).room_index as int);
            assert(after.rooms.rooms[self.room_at(a, b)] == self.rooms.rooms[self.room_at(a, b)]);
        }
        assert forall|a: int, b: int, e: MazeDirection| after.in_bounds(a, b) implies #[trigger] after.edge_ok(
            a,
            b,
            e,
        ) by {
            assert(self.edge_ok(a, b, e));
            let na = a + e.dx();
            let nb = b + e.dy();
            if self.has_cell(a, b) {
                assert(after.room_at(a, b) == self.room_at(a, b));
            }
            if self.has_cell(na, nb) {
                assert(after.room_at(na, nb) == self.room_at(na, nb));
            }
        }
        assert forall|r: int| after.rooms.is_room(r) implies #[trigger] after.room_ok(r) by {
            if r < self.rooms.rooms.len() {
                assert(self.room_ok(r));
                assert(after.rooms.rooms[r] == self.rooms.rooms[r]);
                let listed = after.rooms.rooms[r].cells;
                assert forall|i: int| 0 <= i < listed.len() implies {
                    let p = #[trigger] listed[i];
                    after.has_cell(p.x as int, p.y as int) && after.room_at(
                        p.x as int,
                        p.y as int,
                    ) == r
                } by {
                    let p = listed[i];
                    assert(self.rooms.rooms[r].cells[i] == p);
                    assert(self.has_cell(p.x as int, p.y as int));
                }
            }
        }
    }

    /// Merging two rooms that have the same settings keeps the maze well
    /// formed and leaves every cell its settings. A cell of the absorbed room
    /// is then owned by the kept room; every other cell stays in its room.
    pub proof fn lemma_merged_wf(self, room_to_keep: int, room_to_merge: int)
        requires
            self.wf(),
            self.rooms.is_room(room_to_keep),
            self.rooms.is_room(room_to_merge),
            self.rooms.settings_of(room_to_keep) == self.rooms.settings_of(room_to_merge),
        ensures
            self.with_rooms(self.rooms.merged(room_to_keep, room_to_merge)).wf(),
            self.with_rooms(self.rooms.merged(room_to_keep, room_to_merge)).extends(self),
            forall|x: int, y: int| #[trigger]
                self.has_cell(x, y) ==> {
                    &&& self.with_rooms(self.rooms.merged(room_to_keep, room_to_merge)).theme_at(
                        x,
                        y,
                    ) == self.theme_at(x, y)
                    &&& self.with_rooms(self.rooms.merged(room_to_keep, room_to_merge)).room_at(
                        x,
                        y,
                    ) == if self.room_at(x, y) == self.rooms.resolve(room_to_merge) {
                        self.rooms.resolve(room_to_keep)
                    } else {
                        self.room_at(x, y)
                    }
                },
    {
        let after = self.with_rooms(self.rooms.merged(room_to_keep, room_to_merge));
        let keep = self.rooms.resolve(room_to_keep);
        let absorb = self.rooms.resolve(room_to_merge);
        self.rooms.lemma_merged(room_to_keep, room_to_merge);
        self.rooms.lemma_resolve(room_to_keep);
        self.rooms.lemma_resolve(room_to_merge);
        assert(self.room_ok(keep));
        assert(self.room_ok(absorb));
        assert forall|a: int, b: int| #[trigger] self.has_cell(a, b) implies {
            &&& after.theme_at(a, b) == self.theme_at(a, b)
            &&& after.room_at(a, b) == if self.room_at(a, b) == absorb {
                keep
            } else {
                self.room_at(a, b)
            }
        } by {
            assert(self.cell_ok(a, b));
            let c = self.cell(a, b);
            assert(after.rooms.resolve(c.room_index as int) == if self.rooms.resolve(
                c.room_index as int,
            ) == absorb {
                keep
            } else {
                self.rooms.resolve(c.room_index as int)
            });
            assert(after.rooms.settings_of(c.room_index as int) == if self.rooms.resolve(
                c.room_index as int,
            ) == absorb {
                self.rooms.settings_of(room_to_keep)
            } else {
                self.rooms.settings_of(c.room_index as int)
            });
        }
        if keep != absorb {
            assert forall|r: int| self.rooms.is_room(r) implies after.rooms.rooms[r]
                == self.rooms.merged_room(keep, absorb, r) by {}
        }
        assert forall|a: int, b: int| #[trigger] after.has_cell(a, b) implies after.cell_ok(
            a,
            b,
        ) by {
            assert(self.has_cell(a, b));
            assert(self.cell_ok(a, b));
            let c = self.cell(a, b);
            let r = self.room_at(a, b);
            self.rooms.lemma_resolve(c.room_index as int);
            if keep != absorb {
                let i = choose|i: int|
                    0 <= i < self.rooms.rooms[r].cells.len() && self.rooms.rooms[r].cells[i]
                        == c.position;
                if r == absorb {
                    let kept = self.rooms.rooms[keep].cells;
                    assert(after.rooms.rooms[keep].cells[kept.len() + i] == c.position);
                } else if r == keep {
                    assert(after.rooms.rooms[keep].cells[i] == c.position);
                } else {
                    assert(after.rooms.rooms[r].cells == self.rooms.rooms[r].cells);
                }
            }
        }
        assert forall|a: int, b: int, e: MazeDirection| after.in_bounds(a, b) implies #[trigger] after.edge_ok(
            a,
            b,
            e,
        ) by {
            assert(self.edge_ok(a, b, e));
            let na = a + e.dx();
            let nb = b + e.dy();
            if self.has_cell(a, b) {
                assert(after.theme_at(a, b) == self.theme_at(a, b));
            }
            if self.has_cell(na, nb) {
                assert(after.theme_at(na, nb) == self.theme_at(na, nb));
            }
        }
        assert forall|r: int| after.rooms.is_room(r) implies #[trigger] after.room_ok(r) by {
            assert(self.room_ok(r));
            let listed = after.rooms.rooms[r].cells;
            if keep != absorb {
                let kept = self.rooms.rooms[keep].cells;
                let taken = self.rooms.rooms[absorb].cells;
                assert forall|i: int| 0 <= i < listed.len() implies {
                    let p = #[trigger] listed[i];
                    after.has_cell(p.x as int, p.y as int) && after.room_at(
                        p.x as int,
                        p.y as int,
                    ) == r
                } by {
                    let p = listed[i];
                    if r == keep {
                        if i < kept.len() {
                            assert(kept[i] == p);
                        } else {
                            assert(taken[i - kept.len()] == p);
                        }
                    } else {
                        assert(self.rooms.rooms[r].cells[i] == p);
                    }
                    assert(self.has_cell(p.x as int, p.y as int));
                }
                if r == keep {
                    assert forall|i: int, j: int|
                        0 <= i < listed.len() && 0 <= j < listed.len() && i != j implies listed[i]
                        != listed[j] by {
                        if i < kept.len() {
                            assert(kept[i] == listed[i]);
                        } else {
                            assert(taken[i - kept.len()] == listed[i]);
                        }
                        if j < kept.len() {
                            assert(kept[j] == listed[j]);
                        } else {
                            assert(taken[j - kept.len()] == listed[j]);
                        }
                    }
                }
            } else {
                assert forall|i: int| 0 <= i < listed.len() implies {
                    let p = #[trigger] listed[i];
                    after.has_cell(p.x as int, p.y as int) && after.room_at(
                        p.x as int,
                        p.y as int,
                    ) == r
                } by {
                    let p = listed[i];
                    assert(self.rooms.rooms[r].cells[i] == p);
                    assert(self.has_cell(p.x as int, p.y as int));
                }
            }
        }
    }

    /// What deciding an edge changes: the edge on the side of the cell and,
    /// where the neighbour is carved, the edge on its side, and nothing else.
    proof fn lemma_connected_cells(
        self,
        x: int,
        y: int,
        direction: MazeDirection,
        leaving: MazeCellEdge,
        entering: MazeCellEdge,
    )
        requires
            self.wf(),
            self.has_cell(x, y),
            self.edge_type_at(x, y, direction) is None,
            leaving.maze_direction == direction,
            entering.maze_direction == direction.spec_opposite(),
        ensures
            forall|a: int, b: int|
                #[trigger] self.connected(x, y, direction, leaving, entering).has_cell(a, b)
                    == self.has_cell(a, b),
            forall|a: int, b: int| #[trigger]
                self.has_cell(a, b) ==> {
                    let after = self.connected(x, y, direction, leaving, entering).cell(a, b);
                    &&& after.keeps(self.cell(a, b))
                    &&& forall|e: MazeDirection|
                        (#[trigger] after.edge(e)) matches Some(edge) ==> edge.maze_direction == e
                },
            forall|a: int, b: int, e: MazeDirection|
                #[trigger] self.connected(x, y, direction, leaving, entering).edge_type_at(a, b, e)
                    == if a == x && b == y && e == direction {
                    Some(leaving.edge_type)
                } else if a == x + direction.dx() && b == y + direction.dy() && e
                    == direction.spec_opposite() && self.has_cell(a, b) {
                    Some(entering.edge_type)
                } else {
                    self.edge_type_at(a, b, e)
                },
    {
        let after = self.connected(x, y, direction, leaving, entering);
        let nx = x + direction.dx();
        let ny = y + direction.dy();
        let opposite = direction.spec_opposite();
        direction.lemma_opposite();
        assert(self.cell_ok(x, y));
        assert(self.edge_ok(x, y, direction));
        let here = self.cell(x, y);
        here.lemma_with_edge(direction, leaving);
        assert(after.cell(x, y) == here.with_edge(direction, leaving));
        if self.has_cell(nx, ny) {
            assert(self.cell_ok(nx, ny));
            let there = self.cell(nx, ny);
            there.lemma_with_edge(opposite, entering);
            assert(after.cell(nx, ny) == there.with_edge(opposite, entering));
        }
        assert forall|a: int, b: int| #[trigger] self.has_cell(a, b) implies {
            let changed = self.connected(x, y, direction, leaving, entering).cell(a, b);
            &&& changed.keeps(self.cell(a, b))
            &&& forall|e: MazeDirection|
                (#[trigger] changed.edge(e)) matches Some(edge) ==> edge.maze_direction == e
        } by {
            assert(self.cell_ok(a, b));
            let before = self.cell(a, b);
            let changed = after.cell(a, b);
            assert forall|e: MazeDirection|
                ((#[trigger] changed.edge(e)) matches Some(edge) ==> edge.maze_direction == e) by {
                assert(before.edge(e) matches Some(edge) ==> edge.maze_direction == e);
            }
        }
        assert forall|a: int, b: int, e: MazeDirection|
            #[trigger] after.edge_type_at(a, b, e) == if a == x && b == y && e == direction {
                Some(leaving.edge_type)
            } else if a == nx && b == ny && e == opposite && self.has_cell(a, b) {
                Some(entering.edge_type)
            } else {
                self.edge_type_at(a, b, e)
            } by {}
    }

    /// Deciding an edge that may be decided leaves every boundary in order.
    proof fn lemma_connected_edges(
        self,
        x: int,
        y: int,
        direction: MazeDirection,
        leaving: MazeCellEdge,
        entering: MazeCellEdge,
    )
        requires
            self.wf(),
            self.can_connect(x, y, direction, leaving.edge_type),
            leaving.edge_type == entering.edge_type,
            leaving.maze_direction == direction,
            entering.maze_direction == direction.spec_opposite(),
        ensures
            forall|a: int, b: int, e: MazeDirection|
                self.in_bounds(a, b) ==> #[trigger] self.connected(
                    x,
                    y,
                    direction,
                    leaving,
                    entering,
                ).edge_ok(a, b, e),
    {
        let after = self.connected(x, y, direction, leaving, entering);
        let nx = x + direction.dx();
        let ny = y + direction.dy();
        let opposite = direction.spec_opposite();
        self.lemma_connected_cells(x, y, direction, leaving, entering);
        direction.lemma_opposite();
        assert(self.cell_ok(x, y));
        if self.has_cell(nx, ny) {
            assert(self.cell_ok(nx, ny));
        }
        assert forall|a: int, b: int, e: MazeDirection| self.in_bounds(a, b) implies #[trigger] after.edge_ok(
            a,
            b,
            e,
        ) by {
            assert(self.edge_ok(a, b, e));
            let na = a + e.dx();
            let nb = b + e.dy();
            e.lemma_opposite();
            assert(after.edge_type_at(a, b, e) == if a == x && b == y && e == direction {
                Some(leaving.edge_type)
            } else if a == nx && b == ny && e == opposite && self.has_cell(a, b) {
                Some(entering.edge_type)
            } else {
                self.edge_type_at(a, b, e)
            });
            assert(after.edge_type_at(na, nb, e.spec_opposite()) == if na == x && nb == y
                && e.spec_opposite() == direction {
                Some(leaving.edge_type)
            } else if na == nx && nb == ny && e.spec_opposite() == opposite && self.has_cell(
                na,
                nb,
            ) {
                Some(entering.edge_type)
            } else {
                self.edge_type_at(na, nb, e.spec_opposite())
            });
            if self.has_cell(a, b) {
                assert(after.cell(a, b).keeps(self.cell(a, b)));
            }
            if self.has_cell(na, nb) {
                assert(after.cell(na, nb).keeps(self.cell(na, nb)));
            }
        }
    }

    /// Deciding an edge that may be decided keeps the maze well formed.
    pub proof fn lemma_connected_wf(
        self,
        x: int,
        y: int,
        direction: MazeDirection,
        leaving: MazeCellEdge,
        entering: MazeCellEdge,
    )
        requires
            self.wf(),
            self.can_connect(x, y, direction, leaving.edge_type),
            leaving.edge_type == entering.edge_type,
            leaving.maze_direction == direction,
            entering.maze_direction == direction.spec_opposite(),
        ensures
            self.connected(x, y, direction, leaving, entering).wf(),
            self.connected(x, y, direction, leaving, entering).extends(self),
            !(leaving.edge_type is Door) && self.has_no_door() ==> self.connected(
                x,
                y,
                direction,
                leaving,
                entering,
            ).has_no_door(),
            (leaving.edge_type != EdgeType::Wall || !self.in_bounds(
                x + direction.dx(),
                y + direction.dy(),
            )) && self.has_no_inner_wall() ==> self.connected(
                x,
                y,
                direction,
                leaving,
                entering,
            ).has_no_inner_wall(),
    {
        let after = self.connected(x, y, direction, leaving, entering);
        self.lemma_connected_cells(x, y, direction, leaving, entering);
        self.lemma_connected_edges(x, y, direction, leaving, entering);
        assert forall|a: int, b: int| #[trigger] self.has_cell(a, b) implies {
            &&& after.has_cell(a, b)
            &&& after.cell(a, b).keeps(self.cell(a, b))
            &&& after.theme_at(a, b) == self.theme_at(a, b)
        } by {}
        assert forall|a: int, b: int| #[trigger] after.has_cell(a, b) implies after.cell_ok(
            a,
            b,
        ) by {
            assert(self.has_cell(a, b));
            assert(self.cell_ok(a, b));
            assert(after.cell(a, b).keeps(self.cell(a, b)));
        }
        assert forall|r: int| after.rooms.is_room(r) implies #[trigger] after.room_ok(r) by {
            assert(self.room_ok(r));
            let listed = after.rooms.rooms[r].cells;
            assert forall|i: int| 0 <= i < listed.len() implies {
                let p = #[trigger] listed[i];
                after.has_cell(p.x as int, p.y as int) && after.room_at(p.x as int, p.y as int)
                    == r
            } by {
                let p = listed[i];
                assert(self.has_cell(p.x as int, p.y as int));
                assert(after.cell(p.x as int, p.y as int).keeps(self.cell(p.x as int, p.y as int)));
            }
        }
        if !(leaving.edge_type is Door) && self.has_no_door() {
            assert forall|a: int, b: int, e: MazeDirection|
                !((#[trigger] after.edge_type_at(a, b, e)) matches Some(
                    EdgeType::Door { open: _ },
                )) by {
                assert(!(self.edge_type_at(a, b, e) matches Some(EdgeType::Door { open: _ })));
            }
        }
        if (leaving.edge_type != EdgeType::Wall || !self.in_bounds(
            x + direction.dx(),
            y + direction.dy(),
        )) && self.has_no_inner_wall() {
            assert(self.cell_ok(x, y));
            direction.lemma_opposite();
            assert forall|a: int, b: int, e: MazeDirection|
                after.in_bounds(a + e.dx(), b + e.dy()) implies #[trigger] after.edge_type_at(
                a,
                b,
                e,
            ) != Some(EdgeType::Wall) by {
                assert(self.edge_type_at(a, b, e) != Some(EdgeType::Wall));
                if self.has_cell(a, b) {
                    assert(self.cell_ok(a, b));
                }
            }
        }
    }

    /// What opening or closing a door changes: the type of the edge on the
    /// two sides of the door, and nothing else.
    proof fn lemma_with_door_open_cells(
        self,
        x: int,
        y: int,
        direction: MazeDirection,
        open: bool,
    )
        requires
            self.wf(),
            self.edge_type_at(x, y, direction) matches Some(EdgeType::Door { open: _ }),
        ensures
            self.has_cell(x + direction.dx(), y + direction.dy()),
            forall|a: int, b: int|
                #[trigger] self.with_door_open(x, y, direction, open).has_cell(a, b)
                    == self.has_cell(a, b),
            forall|a: int, b: int| #[trigger]
                self.has_cell(a, b) ==> {
                    let before = self.cell(a, b);
                    let after = self.with_door_open(x, y, direction, open).cell(a, b);
                    &&& after.position == before.position
                    &&& after.room_index == before.room_index
                    &&& after.initialized == before.initialized
                    &&& after.is_complete() == before.is_complete()
                    &&& forall|e: MazeDirection|
                        (#[trigger] after.edge(e)) matches Some(edge) ==> edge.maze_direction == e
                },
            forall|a: int, b: int, e: MazeDirection|
                #[trigger] self.with_door_open(x, y, direction, open).edge_type_at(a, b, e) == if (
                a == x && b == y && e == direction) || (a == x + direction.dx() && b == y
                    + direction.dy() && e == direction.spec_opposite()) {
                    Some(EdgeType::Door { open })
                } else {
                    self.edge_type_at(a, b, e)
                },
    {
        let after = self.with_door_open(x, y, direction, open);
        let nx = x + direction.dx();
        let ny = y + direction.dy();
        let opposite = direction.spec_opposite();
        assert(self.cell_ok(x, y));
        assert(self.edge_ok(x, y, direction));
        assert(self.has_cell(nx, ny));
        assert(self.cell_ok(nx, ny));
        direction.lemma_opposite();
        let here = self.cell(x, y);
        let there = self.cell(nx, ny);
        let here_edge = here.edge(direction)->Some_0;
        let there_edge = there.edge(opposite)->Some_0;
        here.lemma_with_edge(direction, here_edge.with_door_open(open));
        there.lemma_with_edge(opposite, there_edge.with_door_open(open));
        assert(after.cell(x, y) == here.with_edge(direction, here_edge.with_door_open(open)));
        assert(after.cell(nx, ny) == there.with_edge(opposite, there_edge.with_door_open(open)));
        assert forall|a: int, b: int| #[trigger] self.has_cell(a, b) implies {
            let before = self.cell(a, b);
            let after = self.with_door_open(x, y, direction, open).cell(a, b);
            &&& after.position == before.position
            &&& after.room_index == before.room_index
            &&& after.initialized == before.initialized
            &&& after.is_complete() == before.is_complete()
            &&& forall|e: MazeDirection|
                (#[trigger] after.edge(e)) matches Some(edge) ==> edge.maze_direction == e
        } by {
            assert(self.cell_ok(a, b));
            let before = self.cell(a, b);
            let changed = after.cell(a, b);
            assert forall|e: MazeDirection|
                ((#[trigger] changed.edge(e)) matches Some(edge) ==> edge.maze_direction == e) by {
                assert(before.edge(e) matches Some(edge) ==> edge.maze_direction == e);
            }
        }
        assert forall|a: int, b: int, e: MazeDirection|
            #[trigger] after.edge_type_at(a, b, e) == if (a == x && b == y && e == direction) || (a
                == nx && b == ny && e == opposite) {
                Some(EdgeType::Door { open })
            } else {
                self.edge_type_at(a, b, e)
            } by {}
    }

    /// Opening or closing a door leaves every boundary in order.
    proof fn lemma_with_door_open_edges(
        self,
        x: int,
        y: int,
        direction: MazeDirection,
        open: bool,
    )
        requires
            self.wf(),
            self.edge_type_at(x, y, direction) matches Some(EdgeType::Door { open: _ }),
        ensures
            forall|a: int, b: int, e: MazeDirection|
                self.in_bounds(a, b) ==> #[trigger] self.with_door_open(
                    x,
                    y,
                    direction,
                    open,
                ).edge_ok(a, b, e),
    {
        let after = self.with_door_open(x, y, direction, open);
        let nx = x + direction.dx();
        let ny = y + direction.dy();
        self.lemma_with_door_open_cells(x, y, direction, open);
        direction.lemma_opposite();
        assert(self.cell_ok(x, y));
        assert(self.edge_ok(x, y, direction));
        assert forall|a: int, b: int, e: MazeDirection| self.in_bounds(a, b) implies #[trigger] after.edge_ok(
            a,
            b,
            e,
        ) by {
            assert(self.edge_ok(a, b, e));
            let na = a + e.dx();
            let nb = b + e.dy();
            e.lemma_opposite();
            assert(after.edge_type_at(a, b, e) == if (a == x && b == y && e == direction) || (a
                == nx && b == ny && e == direction.spec_opposite()) {
                Some(EdgeType::Door { open })
            } else {
                self.edge_type_at(a, b, e)
            });
            assert(after.edge_type_at(na, nb, e.spec_opposite()) == if (na == x && nb == y
                && e.spec_opposite() == direction) || (na == nx && nb == ny && e.spec_opposite()
                == direction.spec_opposite()) {
                Some(EdgeType::Door { open })
            } else {
                self.edge_type_at(na, nb, e.spec_opposite())
            });
            if self.has_cell(a, b) {
                assert(after.cell(a, b).room_index == self.cell(a, b).room_index);
            }
            if self.has_cell(na, nb) {
                assert(after.cell(na, nb).room_index == self.cell(na, nb).room_index);
            }
        }
    }

    /// Opening or closing a door completes no cell and leaves none
    /// incomplete.
    proof fn lemma_with_door_open_complete(
        self,
        x: int,
        y: int,
        direction: MazeDirection,
        open: bool,
    )
        requires
            self.wf(),
            self.edge_type_at(x, y, direction) matches Some(EdgeType::Door { open: _ }),
        ensures
            self.with_door_open(x, y, direction, open).is_complete() == self.is_complete(),
    {
        let after = self.with_door_open(x, y, direction, open);
        self.lemma_with_door_open_cells(x, y, direction, open);
        if self.is_complete() {
            assert forall|a: int, b: int| after.in_bounds(a, b) implies after.has_cell(a, b)
                && after.cell(a, b).is_complete() by {
                assert(self.has_cell(a, b));
            }
        }
        if after.is_complete() {
            assert forall|a: int, b: int| self.in_bounds(a, b) implies self.has_cell(a, b)
                && self.cell(a, b).is_complete() by {
                assert(after.has_cell(a, b));
                assert(self.has_cell(a, b));
            }
        }
    }

    /// Opening or closing a door keeps the maze well formed, with the same
    /// cells in the same rooms.
    pub proof fn lemma_with_door_open_wf(self, x: int, y: int, direction: MazeDirection, open: bool)
        requires
            self.wf(),
        ensures
            self.with_door_open(x, y, direction, open).wf(),
            self.with_door_open(x, y, direction, open).rooms == self.rooms,
            self.with_door_open(x, y, direction, open).is_complete() == self.is_complete(),
            forall|a: int, b: int|
                #[trigger] self.with_door_open(x, y, direction, open).has_cell(a, b)
                    == self.has_cell(a, b),
            forall|a: int, b: int| #[trigger]
                self.has_cell(a, b) ==> self.with_door_open(x, y, direction, open).cell(
                    a,
                    b,
                ).room_index == self.cell(a, b).room_index,
    {
        let after = self.with_door_open(x, y, direction, open);
        if self.edge_type_at(x, y, direction) matches Some(EdgeType::Door { open: _ }) {
            self.lemma_with_door_open_cells(x, y, direction, open);
            self.lemma_with_door_open_edges(x, y, direction, open);
            assert(self.cell_ok(x, y));
            assert forall|a: int, b: int| #[trigger] after.has_cell(a, b) implies after.cell_ok(
                a,
                b,
            ) by {
                assert(self.has_cell(a, b));
                assert(self.cell_ok(a, b));
            }
            assert forall|r: int| after.rooms.is_room(r) implies #[trigger] after.room_ok(r) by {
                assert(self.room_ok(r));
                let listed = after.rooms.rooms[r].cells;
                assert forall|i: int| 0 <= i < listed.len() implies {
                    let p = #[trigger] listed[i];
                    after.has_cell(p.x as int, p.y as int) && after.room_at(
                        p.x as int,
                        p.y as int,
                    ) == r
                } by {
                    let p = listed[i];
                    assert(self.has_cell(p.x as int, p.y as int));
                }
            }
            self.lemma_with_door_open_complete(x, y, direction, open);
        }
    }

    /// In a well-formed maze whose carved cells are all complete, a carved
    /// cell has a carved cell at every place of the grid next to it.
    proof fn lemma_neighbor_carved(self, x: int, y: int, direction: MazeDirection)
        requires
            self.wf(),
            forall|a: int, b: int| #[trigger] self.has_cell(a, b) ==> self.cell(a, b).is_complete(),
            self.has_cell(x, y),
            self.in_bounds(x + direction.dx(), y + direction.dy()),
        ensures
            self.has_cell(x + direction.dx(), y + direction.dy()),
    {
        assert(self.cell_ok(x, y));
        assert(self.edge_ok(x, y, direction));
        assert(self.cell(x, y).is_complete());
        assert(self.cell(x, y).has_edge(direction));
    }

    proof fn lemma_reach(self, x0: int, y0: int, x: int, y: int)
        requires
            self.wf(),
            forall|a: int, b: int| #[trigger] self.has_cell(a, b) ==> self.cell(a, b).is_complete(),
            self.has_cell(x0, y0),
            self.in_bounds(x, y),
        ensures
            self.has_cell(x, y),
        decreases (if x >= x0 {
            x - x0
        } else {
            x0 - x
        }) + (if y >= y0 {
            y - y0
        } else {
            y0 - y
        }),
    {
        assert(self.cell_ok(x0, y0));
        if x > x0 {
            self.lemma_reach(x0, y0, x - 1, y);
            self.lemma_neighbor_carved(x - 1, y, MazeDirection::EAST);
        } else if x < x0 {
            self.lemma_reach(x0, y0, x + 1, y);
            self.lemma_neighbor_carved(x + 1, y, MazeDirection::WEST);
        } else if y > y0 {
            self.lemma_reach(x0, y0, x, y - 1);
            self.lemma_neighbor_carved(x, y - 1, MazeDirection::SOUTH);
        } else if y < y0 {
            self.lemma_reach(x0, y0, x, y + 1);
            self.lemma_neighbor_carved(x, y + 1, MazeDirection::NORTH);
        }
    }

    /// A well-formed maze that has a carved cell, and whose carved cells are
    /// all complete, covers its grid.
    pub proof fn lemma_covered(self, x0: int, y0: int)
        requires
            self.wf(),
            self.has_cell(x0, y0),
            forall|a: int, b: int| #[trigger] self.has_cell(a, b) ==> self.cell(a, b).is_complete(),
        ensures
            self.is_complete(),
    {
        assert forall|x: int, y: int| self.in_bounds(x, y) implies self.has_cell(x, y)
            && self.cell(x, y).is_complete() by {
            self.lemma_reach(x0, y0, x, y);
        }
    }

    /// A stack that tracks a maze tracks what grows out of it by deciding
    /// edges, and still does when positions are pushed on it that have a
    /// cell, among them those of the cells that were carved since.
    pub proof fn lemma_tracked_grows(self, before: MazeView, stack: Seq<Position>, grown: Seq<Position>)
        requires
            before.tracked_by(stack),
            self.extends(before),
            forall|i: int| 0 <= i < stack.len() ==> grown.contains(#[trigger] stack[i]),
            forall|i: int|
                0 <= i < grown.len() ==> self.has_cell(
                    (#[trigger] grown[i]).x as int,
                    grown[i].y as int,
                ),
            forall|x: int, y: int| #[trigger]
                self.has_cell(x, y) && !before.has_cell(x, y) ==> grown.contains(
                    self.cell(x, y).position,
                ),
        ensures
            self.tracked_by(grown),
    {
        assert forall|x: int, y: int| #[trigger]
            self.has_cell(x, y) && !self.cell(x, y).is_complete() implies grown.contains(
            self.cell(x, y).position,
        ) by {
            if before.has_cell(x, y) {
                assert(self.cell(x, y).keeps(before.cell(x, y)));
                assert(!before.cell(x, y).is_complete());
                let p = before.cell(x, y).position;
                assert(stack.contains(p));
                let i = choose|i: int| 0 <= i < stack.len() && stack[i] == p;
                assert(grown.contains(stack[i]));
            }
        }
    }

    /// A walk stays a walk while the maze grows.
    pub proof fn lemma_walk_grows(
        self,
        before: MazeView,
        x0: int,
        y0: int,
        x: int,
        y: int,
        length: nat,
    )
        requires
            self.extends(before),
            before.walk(x0, y0, x, y, length),
        ensures
            self.walk(x0, y0, x, y, length),
        decreases length,
    {
        if length > 0 {
            let (px, py, direction) = choose|px: int, py: int, direction: MazeDirection|
                {
                    &&& #[trigger] before.joined(px, py, direction)
                    &&& px + direction.dx() == x
                    &&& py + direction.dy() == y
                    &&& before.walk(x0, y0, px, py, (length - 1) as nat)
                };
            self.lemma_walk_grows(before, x0, y0, px, py, (length - 1) as nat);
            assert(before.has_cell(px, py));
            assert(self.cell(px, py).keeps(before.cell(px, py)));
            assert(self.joined(px, py, direction));
        }
    }

    /// A step keeps the maze well formed, and the maze after the step has
    /// grown out of the maze before it.
    pub proof fn lemma_step_keeps_wf(
        self,
        after: MazeView,
        x: int,
        y: int,
        direction: MazeDirection,
    )
        requires
            self.wf(),
            self.has_cell(x, y),
            !self.cell(x, y).has_edge(direction),
            self.step_outcome(after, x, y, direction),
        ensures
            after.wf(),
            after.extends(self),
    {
        let nx = x + direction.dx();
        let ny = y + direction.dy();
        let opposite = direction.spec_opposite();
        assert(self.cell_ok(x, y));
        assert(self.edge_ok(x, y, direction));
        let here = self.cell(x, y).room_index as int;
        self.rooms.lemma_resolve(here);
        if !self.in_bounds(nx, ny) || (self.has_cell(nx, ny) && self.theme_at(x, y)
            != self.theme_at(nx, ny)) {
            let (light_leaving, light_entering) = choose|
                light_leaving: bool,
                light_entering: bool,
            |
                after == #[trigger] self.carved(
                    x,
                    y,
                    direction,
                    EdgeType::Wall,
                    light_leaving,
                    light_entering,
                );
            self.lemma_connected_wf(
                x,
                y,
                direction,
                MazeCellEdge::plain(direction, EdgeType::Wall).furnished(light_leaving),
                MazeCellEdge::plain(opposite, EdgeType::Wall).furnished(light_entering),
            );
        } else if self.has_cell(nx, ny) {
            assert(self.cell_ok(nx, ny));
            let there = self.cell(nx, ny).room_index as int;
            let merged = self.with_rooms(self.rooms.merged(here, there));
            self.lemma_merged_wf(here, there);
            assert(merged.has_cell(x, y));
            assert(merged.has_cell(nx, ny));
            assert(merged.room_at(x, y) == merged.room_at(nx, ny));
            merged.lemma_connected_wf(
                x,
                y,
                direction,
                MazeCellEdge::plain(direction, EdgeType::Passage),
                MazeCellEdge::plain(opposite, EdgeType::Passage),
            );
            after.lemma_extends_transitive(merged, self);
        } else {
            let joined = self.with_cell(nx, ny, self.room_at(x, y) as usize);
            if after == joined.carved(x, y, direction, EdgeType::Passage, false, false) {
                let room = self.room_at(x, y);
                self.lemma_with_cell_wf(nx, ny, room as usize);
                self.rooms.lemma_with_cell(room, Position { x: nx as i32, y: ny as i32 });
                assert(joined.has_cell(x, y));
                assert(joined.cell(x, y) == self.cell(x, y));
                assert(joined.cell(nx, ny) == Self::fresh_cell(nx, ny, room as usize));
                assert(joined.room_at(x, y) == room);
                assert(joined.room_at(nx, ny) == room);
                joined.lemma_connected_wf(
                    x,
                    y,
                    direction,
                    MazeCellEdge::plain(direction, EdgeType::Passage),
                    MazeCellEdge::plain(opposite, EdgeType::Passage),
                );
                after.lemma_extends_transitive(joined, self);
            } else {
                let settings_index = choose|settings_index: usize|
                    {
                        &&& !self.never_opens_doors()
                        &&& self.rooms.rooms.len() < usize::MAX
                        &&& settings_index < self.rooms.settings.len()
                        &&& settings_index != self.theme_at(x, y)
                        &&& after == #[trigger] self.with_rooms(
                            self.rooms.with_room(settings_index),
                        ).with_cell(nx, ny, self.rooms.rooms.len() as usize).carved(
                            x,
                            y,
                            direction,
                            EdgeType::Door { open: false },
                            false,
                            false,
                        )
                    };
                let new_room = self.rooms.rooms.len() as usize;
                let roomed = self.with_rooms(self.rooms.with_room(settings_index));
                self.lemma_with_room_wf(settings_index);
                self.rooms.lemma_with_room(settings_index);
                assert(roomed.has_cell(x, y));
                assert(roomed.theme_at(x, y) == self.theme_at(x, y));
                let celled = roomed.with_cell(nx, ny, new_room);
                roomed.lemma_with_cell_wf(nx, ny, new_room);
                roomed.rooms.lemma_with_cell(
                    new_room as int,
                    Position { x: nx as i32, y: ny as i32 },
                );
                assert(celled.has_cell(x, y));
                assert(celled.theme_at(x, y) == roomed.theme_at(x, y));
                assert(celled.cell(x, y) == self.cell(x, y));
                assert(celled.cell(nx, ny) == Self::fresh_cell(nx, ny, new_room));
                assert(celled.theme_at(nx, ny) == settings_index);
                celled.lemma_connected_wf(
                    x,
                    y,
                    direction,
                    MazeCellEdge::plain(direction, EdgeType::Door { open: false }),
                    MazeCellEdge::plain(opposite, EdgeType::Door { open: false }),
                );
                celled.lemma_extends_transitive(roomed, self);
                after.lemma_extends_transitive(celled, self);
            }
        }
    }

    /// The one cell that a step can carve lies next to the cell that takes
    /// the step, behind a passage or a door.
    proof fn lemma_step_carves_behind(
        self,
        after: MazeView,
        x: int,
        y: int,
        direction: MazeDirection,
        a: int,
        b: int,
    )
        requires
            self.wf(),
            self.has_cell(x, y),
            !self.cell(x, y).has_edge(direction),
            self.step_outcome(after, x, y, direction),
            after.has_cell(a, b),
            !self.has_cell(a, b),
        ensures
            a == x + direction.dx(),
            b == y + direction.dy(),
            after.joined(x, y, direction),
    {
        let nx = x + direction.dx();
        let ny = y + direction.dy();
        let opposite = direction.spec_opposite();
        assert(self.cell_ok(x, y));
        assert(self.edge_ok(x, y, direction));
        if !self.in_bounds(nx, ny) || (self.has_cell(nx, ny) && self.theme_at(x, y)
            != self.theme_at(nx, ny)) {
            let (light_leaving, light_entering) = choose|
                light_leaving: bool,
                light_entering: bool,
            |
                after == #[trigger] self.carved(
                    x,
                    y,
                    direction,
                    EdgeType::Wall,
                    light_leaving,
                    light_entering,
                );
            assert(false);
        } else if self.has_cell(nx, ny) {
            assert(false);
        } else {
            let joined = self.with_cell(nx, ny, self.room_at(x, y) as usize);
            if after == joined.carved(x, y, direction, EdgeType::Passage, false, false) {
                assert(joined.cell(x, y) == self.cell(x, y));
                joined.cell(x, y).lemma_with_edge(
                    direction,
                    MazeCellEdge::plain(direction, EdgeType::Passage),
                );
            } else {
                let settings_index = choose|settings_index: usize|
                    {
                        &&& !self.never_opens_doors()
                        &&& self.rooms.rooms.len() < usize::MAX
                        &&& settings_index < self.rooms.settings.len()
                        &&& settings_index != self.theme_at(x, y)
                        &&& after == #[trigger] self.with_rooms(
                            self.rooms.with_room(settings_index),
                        ).with_cell(nx, ny, self.rooms.rooms.len() as usize).carved(
                            x,
                            y,
                            direction,
                            EdgeType::Door { open: false },
                            false,
                            false,
                        )
                    };
                let celled = self.with_rooms(self.rooms.with_room(settings_index)).with_cell(
                    nx,
                    ny,
                    self.rooms.rooms.len() as usize,
                );
                assert(celled.cell(x, y) == self.cell(x, y));
                celled.cell(x, y).lemma_with_edge(
                    direction,
                    MazeCellEdge::plain(direction, EdgeType::Door { open: false }),
                );
            }
        }
    }

    /// A step towards a free place of the grid carves a cell there.
    proof fn lemma_step_carves_ahead(
        self,
        after: MazeView,
        x: int,
        y: int,
        direction: MazeDirection,
    )
        requires
            self.wf(),
            self.has_cell(x, y),
            !self.cell(x, y).has_edge(direction),
            self.step_outcome(after, x, y, direction),
            self.in_bounds(x + direction.dx(), y + direction.dy()),
            !self.has_cell(x + direction.dx(), y + direction.dy()),
        ensures
            after.has_cell(x + direction.dx(), y + direction.dy()),
    {
    }

    /// A step leaves the cells of the maze hanging together: a cell is
    /// carved only behind a passage or a door.
    pub proof fn lemma_step_keeps_span(
        self,
        after: MazeView,
        x: int,
        y: int,
        direction: MazeDirection,
        x0: int,
        y0: int,
    )
        requires
            self.wf(),
            self.has_cell(x, y),
            !self.cell(x, y).has_edge(direction),
            self.step_outcome(after, x, y, direction),
            self.spans_from(x0, y0),
        ensures
            after.spans_from(x0, y0),
    {
        let nx = x + direction.dx();
        let ny = y + direction.dy();
        self.lemma_step_keeps_wf(after, x, y, direction);
        assert(after.has_cell(x0, y0));
        assert forall|a: int, b: int| #[trigger] after.has_cell(a, b) implies exists|length: nat| #[trigger]
            after.walk(x0, y0, a, b, length) by {
            if self.has_cell(a, b) {
                let length = choose|length: nat| #[trigger] self.walk(x0, y0, a, b, length);
                after.lemma_walk_grows(self, x0, y0, a, b, length);
            } else {
                self.lemma_step_carves_behind(after, x, y, direction, a, b);
                let length = choose|length: nat| #[trigger] self.walk(x0, y0, x, y, length);
                after.lemma_walk_grows(self, x0, y0, x, y, length);
                assert(after.joined(x, y, direction));
                assert(after.walk(x0, y0, a, b, length + 1));
            }
        }
    }

    /// A turn leaves the stack tracking the maze: it still holds the
    /// position of every cell that is not complete.
    pub proof fn lemma_turn_keeps_track(
        self,
        stack: Seq<Position>,
        after: MazeView,
        stack_after: Seq<Position>,
    )
        requires
            self.wf(),
            self.tracked_by(stack),
            self.turn_outcome(stack, after, stack_after),
        ensures
            after.tracked_by(stack_after),
    {
        let x = stack.last().x as int;
        let y = stack.last().y as int;
        assert(self.cell_ok(x, y));
        if self.cell(x, y).is_complete() {
            assert forall|a: int, b: int| #[trigger]
                after.has_cell(a, b) && !after.cell(a, b).is_complete() implies stack_after.contains(
                after.cell(a, b).position,
            ) by {
                let p = self.cell(a, b).position;
                assert(self.cell_ok(a, b));
                let i = choose|i: int| 0 <= i < stack.len() && stack[i] == p;
                assert(stack_after[i] == p);
            }
            assert forall|i: int| 0 <= i < stack_after.len() implies after.has_cell(
                (#[trigger] stack_after[i]).x as int,
                stack_after[i].y as int,
            ) by {
                assert(stack[i] == stack_after[i]);
            }
        } else {
            let direction = choose|direction: MazeDirection|
                {
                    &&& !self.cell(x, y).has_edge(direction)
                    &&& #[trigger] self.step_outcome(after, x, y, direction)
                    &&& stack_after == self.stack_after_step(stack, direction)
                };
            let nx = x + direction.dx();
            let ny = y + direction.dy();
            self.lemma_step_keeps_wf(after, x, y, direction);
            assert forall|i: int| 0 <= i < stack.len() implies stack_after.contains(
                #[trigger] stack[i],
            ) by {
                assert(stack_after[i] == stack[i]);
            }
            assert forall|a: int, b: int| #[trigger]
                after.has_cell(a, b) && !self.has_cell(a, b) implies stack_after.contains(
                after.cell(a, b).position,
            ) by {
                self.lemma_step_carves_behind(after, x, y, direction, a, b);
                assert(after.cell_ok(a, b));
                assert(stack_after[stack.len() as int] == after.cell(a, b).position);
            }
            assert forall|i: int| 0 <= i < stack_after.len() implies after.has_cell(
                (#[trigger] stack_after[i]).x as int,
                stack_after[i].y as int,
            ) by {
                if i < stack.len() {
                    assert(stack_after[i] == stack[i]);
                    assert(self.has_cell(stack[i].x as int, stack[i].y as int));
                } else {
                    self.lemma_step_carves_ahead(after, x, y, direction);
                }
            }
            after.lemma_tracked_grows(self, stack, stack_after);
        }
    }

    /// Turns keep the maze well formed, and what they lead to has grown out
    /// of the maze they started from.
    pub proof fn lemma_grown_wf(
        self,
        stack: Seq<Position>,
        after: MazeView,
        stack_after: Seq<Position>,
        turns: nat,
    )
        requires
            self.wf(),
            self.grown_by_turns(stack, after, stack_after, turns),
        ensures
            after.wf(),
            after.extends(self),
        decreases turns,
    {
        if turns > 0 {
            let (middle, middle_stack) = choose|middle: MazeView, middle_stack: Seq<Position>|
                {
                    &&& self.grown_by_turns(stack, middle, middle_stack, (turns - 1) as nat)
                    &&& #[trigger] middle.turn_outcome(middle_stack, after, stack_after)
                };
            self.lemma_grown_wf(stack, middle, middle_stack, (turns - 1) as nat);
            let x = middle_stack.last().x as int;
            let y = middle_stack.last().y as int;
            if !middle.cell(x, y).is_complete() {
                let direction = choose|direction: MazeDirection|
                    {
                        &&& !middle.cell(x, y).has_edge(direction)
                        &&& #[trigger] middle.step_outcome(after, x, y, direction)
                        &&& stack_after == middle.stack_after_step(middle_stack, direction)
                    };
                middle.lemma_step_keeps_wf(after, x, y, direction);
                after.lemma_extends_transitive(middle, self);
            }
        }
    }

    /// Turns leave the cells of the maze hanging together.
    pub proof fn lemma_grown_spans(
        self,
        stack: Seq<Position>,
        after: MazeView,
        stack_after: Seq<Position>,
        turns: nat,
        x0: int,
        y0: int,
    )
        requires
            self.wf(),
            self.grown_by_turns(stack, after, stack_after, turns),
            self.spans_from(x0, y0),
        ensures
            after.spans_from(x0, y0),
        decreases turns,
    {
        if turns > 0 {
            let (middle, middle_stack) = choose|middle: MazeView, middle_stack: Seq<Position>|
                {
                    &&& self.grown_by_turns(stack, middle, middle_stack, (turns - 1) as nat)
                    &&& #[trigger] middle.turn_outcome(middle_stack, after, stack_after)
                };
            self.lemma_grown_spans(stack, middle, middle_stack, (turns - 1) as nat, x0, y0);
            self.lemma_grown_wf(stack, middle, middle_stack, (turns - 1) as nat);
            let x = middle_stack.last().x as int;
            let y = middle_stack.last().y as int;
            if !middle.cell(x, y).is_complete() {
                let direction = choose|direction: MazeDirection|
                    {
                        &&& !middle.cell(x, y).has_edge(direction)
                        &&& #[trigger] middle.step_outcome(after, x, y, direction)
                        &&& stack_after == middle.stack_after_step(middle_stack, direction)
                    };
                middle.lemma_step_keeps_span(after, x, y, direction, x0, y0);
            }
        }
    }

    /// Turns leave the stack tracking the maze.
    pub proof fn lemma_grown_tracks(
        self,
        stack: Seq<Position>,
        after: MazeView,
        stack_after: Seq<Position>,
        turns: nat,
    )
        requires
            self.wf(),
            self.tracked_by(stack),
            self.grown_by_turns(stack, after, stack_after, turns),
        ensures
            after.tracked_by(stack_after),
        decreases turns,
    {
        if turns > 0 {
            let (middle, middle_stack) = choose|middle: MazeView, middle_stack: Seq<Position>|
                {
                    &&& self.grown_by_turns(stack, middle, middle_stack, (turns - 1) as nat)
                    &&& #[trigger] middle.turn_outcome(middle_stack, after, stack_after)
                };
            self.lemma_grown_tracks(stack, middle, middle_stack, (turns - 1) as nat);
            self.lemma_grown_wf(stack, middle, middle_stack, (turns - 1) as nat);
            middle.lemma_turn_keeps_track(middle_stack, after, stack_after);
        }
    }

    /// Whatever generation can lead to is well formed: its edges agree across
    /// every boundary, the outside is walled off, its doors separate
    /// different settings, its passages stay within one room, and its rooms
    /// list their cells.
    pub proof fn lemma_generated_wf(self, settings: Seq<MazeRoomSettings>, after: MazeView)
        requires
            0 < self.width <= i32::MAX,
            0 < self.height <= i32::MAX,
            self.laid_out_with(settings).generates(after),
        ensures
            after.wf(),
            after.extends(self.laid_out_with(settings)),
    {
        let laid_out = self.laid_out_with(settings);
        self.lemma_laid_out_wf(settings);
        let (x, y, settings_index, turns) = choose|
            x: int,
            y: int,
            settings_index: usize,
            turns: nat,
        |
            {
                &&& laid_out.in_bounds(x, y)
                &&& settings_index < laid_out.rooms.settings.len()
                &&& #[trigger] laid_out.first_cell(x, y, settings_index).grown_by_turns(
                    seq![Position { x: x as i32, y: y as i32 }],
                    after,
                    Seq::empty(),
                    turns,
                )
            };
        let roomed = laid_out.with_rooms(laid_out.rooms.with_room(settings_index));
        laid_out.lemma_with_room_wf(settings_index);
        laid_out.rooms.lemma_with_room(settings_index);
        roomed.lemma_with_cell_wf(x, y, 0);
        let first = laid_out.first_cell(x, y, settings_index);
        first.lemma_extends_transitive(roomed, laid_out);
        first.lemma_grown_wf(
            seq![Position { x: x as i32, y: y as i32 }],
            after,
            Seq::empty(),
            turns,
        );
        after.lemma_extends_transitive(first, laid_out);
    }

    /// Whatever generation can lead to covers the grid: every place holds a
    /// cell, and every cell has all four edges decided.
    pub proof fn lemma_generated_complete(self, settings: Seq<MazeRoomSettings>, after: MazeView)
        requires
            0 < self.width <= i32::MAX,
            0 < self.height <= i32::MAX,
            self.laid_out_with(settings).generates(after),
        ensures
            after.is_complete(),
    {
        let laid_out = self.laid_out_with(settings);
        self.lemma_laid_out_wf(settings);
        let (x, y, settings_index, turns) = choose|
            x: int,
            y: int,
            settings_index: usize,
            turns: nat,
        |
            {
                &&& laid_out.in_bounds(x, y)
                &&& settings_index < laid_out.rooms.settings.len()
                &&& #[trigger] laid_out.first_cell(x, y, settings_index).grown_by_turns(
                    seq![Position { x: x as i32, y: y as i32 }],
                    after,
                    Seq::empty(),
                    turns,
                )
            };
        let stack = seq![Position { x: x as i32, y: y as i32 }];
        let roomed = laid_out.with_rooms(laid_out.rooms.with_room(settings_index));
        laid_out.lemma_with_room_wf(settings_index);
        laid_out.rooms.lemma_with_room(settings_index);
        roomed.lemma_with_cell_wf(x, y, 0);
        let first = laid_out.first_cell(x, y, settings_index);
        assert(first.has_cell(x, y));
        assert(first.cell_ok(x, y));
        assert forall|a: int, b: int| #[trigger]
            first.has_cell(a, b) && !first.cell(a, b).is_complete() implies stack.contains(
            first.cell(a, b).position,
        ) by {
            assert(a == x && b == y);
            assert(stack[0] == first.cell(a, b).position);
        }
        first.lemma_grown_tracks(stack, after, Seq::empty(), turns);
        first.lemma_grown_wf(stack, after, Seq::empty(), turns);
        assert forall|a: int, b: int| #[trigger] after.has_cell(a, b) implies after.cell(
            a,
            b,
        ).is_complete() by {
            if !after.cell(a, b).is_complete() {
                assert(Seq::<Position>::empty().contains(after.cell(a, b).position));
            }
        }
        assert(after.has_cell(x, y));
        after.lemma_covered(x, y);
    }

    /// In whatever generation can lead to, the cells hang together: every
    /// cell can be walked to from the first, through passages and doors.
    pub proof fn lemma_generated_connected(self, settings: Seq<MazeRoomSettings>, after: MazeView)
        requires
            0 < self.width <= i32::MAX,
            0 < self.height <= i32::MAX,
            self.laid_out_with(settings).generates(after),
        ensures
            after.is_connected(),
    {
        let laid_out = self.laid_out_with(settings);
        self.lemma_laid_out_wf(settings);
        let (x, y, settings_index, turns) = choose|
            x: int,
            y: int,
            settings_index: usize,
            turns: nat,
        |
            {
                &&& laid_out.in_bounds(x, y)
                &&& settings_index < laid_out.rooms.settings.len()
                &&& #[trigger] laid_out.first_cell(x, y, settings_index).grown_by_turns(
                    seq![Position { x: x as i32, y: y as i32 }],
                    after,
                    Seq::empty(),
                    turns,
                )
            };
        let roomed = laid_out.with_rooms(laid_out.rooms.with_room(settings_index));
        laid_out.lemma_with_room_wf(settings_index);
        laid_out.rooms.lemma_with_room(settings_index);
        roomed.lemma_with_cell_wf(x, y, 0);
        let first = laid_out.first_cell(x, y, settings_index);
        assert forall|a: int, b: int| #[trigger] first.has_cell(a, b) implies exists|length: nat| #[trigger]
            first.walk(x, y, a, b, length) by {
            assert(a == x && b == y);
            assert(first.walk(x, y, a, b, 0));
        }
        first.lemma_grown_spans(
            seq![Position { x: x as i32, y: y as i32 }],
            after,
            Seq::empty(),
            turns,
            x,
            y,
        );
        assert(after.spans_from(x, y));
    }

    /// Where no door can come to be, a step leaves the maze one open room:
    /// it makes no room and no door, and puts a wall only towards the
    /// outside.
    pub proof fn lemma_step_keeps_one_open_room(
        self,
        after: MazeView,
        x: int,
        y: int,
        direction: MazeDirection,
    )
        requires
            self.wf(),
            self.has_cell(x, y),
            !self.cell(x, y).has_edge(direction),
            self.step_outcome(after, x, y, direction),
            self.never_opens_doors(),
            self.is_one_open_room(),
        ensures
            after.never_opens_doors(),
            after.is_one_open_room(),
    {
        let nx = x + direction.dx();
        let ny = y + direction.dy();
        let opposite = direction.spec_opposite();
        assert(self.cell_ok(x, y));
        assert(self.edge_ok(x, y, direction));
        let here = self.cell(x, y).room_index as int;
        self.rooms.lemma_resolve(here);
        if self.has_cell(nx, ny) {
            assert(self.cell_ok(nx, ny));
        }
        if !self.in_bounds(nx, ny) || (self.has_cell(nx, ny) && self.theme_at(x, y)
            != self.theme_at(nx, ny)) {
            let (light_leaving, light_entering) = choose|
                light_leaving: bool,
                light_entering: bool,
            |
                after == #[trigger] self.carved(
                    x,
                    y,
                    direction,
                    EdgeType::Wall,
                    light_leaving,
                    light_entering,
                );
            self.lemma_connected_wf(
                x,
                y,
                direction,
                MazeCellEdge::plain(direction, EdgeType::Wall).furnished(light_leaving),
                MazeCellEdge::plain(opposite, EdgeType::Wall).furnished(light_entering),
            );
        } else if self.has_cell(nx, ny) {
            let there = self.cell(nx, ny).room_index as int;
            let merged = self.with_rooms(self.rooms.merged(here, there));
            self.lemma_merged_wf(here, there);
            self.rooms.lemma_merged(here, there);
            assert(merged.has_cell(x, y));
            assert(merged.has_cell(nx, ny));
            assert(merged.room_at(x, y) == merged.room_at(nx, ny));
            assert(merged.has_no_door()) by {
                assert forall|a: int, b: int, e: MazeDirection|
                    !((#[trigger] merged.edge_type_at(a, b, e)) matches Some(
                        EdgeType::Door { open: _ },
                    )) by {
                    assert(!(self.edge_type_at(a, b, e) matches Some(EdgeType::Door { open: _ })));
                }
            }
            assert(merged.has_no_inner_wall()) by {
                assert forall|a: int, b: int, e: MazeDirection|
                    merged.in_bounds(a + e.dx(), b + e.dy()) implies #[trigger] merged.edge_type_at(
                    a,
                    b,
                    e,
                ) != Some(EdgeType::Wall) by {
                    assert(self.edge_type_at(a, b, e) != Some(EdgeType::Wall));
                }
            }
            merged.lemma_connected_wf(
                x,
                y,
                direction,
                MazeCellEdge::plain(direction, EdgeType::Passage),
                MazeCellEdge::plain(opposite, EdgeType::Passage),
            );
        } else {
            let room = self.room_at(x, y);
            let joined = self.with_cell(nx, ny, room as usize);
            self.lemma_with_cell_wf(nx, ny, room as usize);
            self.rooms.lemma_with_cell(room, Position { x: nx as i32, y: ny as i32 });
            assert(joined.has_cell(x, y));
            assert(joined.cell(x, y) == self.cell(x, y));
            assert(joined.cell(nx, ny) == Self::fresh_cell(nx, ny, room as usize));
            assert(joined.room_at(x, y) == room);
            assert(joined.room_at(nx, ny) == room);
            joined.lemma_connected_wf(
                x,
                y,
                direction,
                MazeCellEdge::plain(direction, EdgeType::Passage),
                MazeCellEdge::plain(opposite, EdgeType::Passage),
            );
        }
    }

    /// A turn leaves in place what holds between two turns of a generation.
    pub proof fn lemma_turn_keeps_carving(
        self,
        stack: Seq<Position>,
        after: MazeView,
        stack_after: Seq<Position>,
    )
        requires
            self.carving(stack),
            self.turn_outcome(stack, after, stack_after),
        ensures
            after.carving(stack_after),
    {
        let x = stack.last().x as int;
        let y = stack.last().y as int;
        self.lemma_turn_keeps_track(stack, after, stack_after);
        if !self.cell(x, y).is_complete() {
            let direction = choose|direction: MazeDirection|
                {
                    &&& !self.cell(x, y).has_edge(direction)
                    &&& #[trigger] self.step_outcome(after, x, y, direction)
                    &&& stack_after == self.stack_after_step(stack, direction)
                };
            self.lemma_step_keeps_wf(after, x, y, direction);
            if self.never_opens_doors() {
                self.lemma_step_keeps_one_open_room(after, x, y, direction);
            }
        }
    }

    /// Where no door can come to be, whatever generation leads to is one
    /// open room: it has no door, no wall stands between two of its cells,
    /// and all its cells belong to its one room.
    pub proof fn lemma_generated_one_open_room(
        self,
        settings: Seq<MazeRoomSettings>,
        after: MazeView,
    )
        requires
            0 < self.width <= i32::MAX,
            0 < self.height <= i32::MAX,
            self.laid_out_with(settings).generates(after),
            self.laid_out_with(settings).never_opens_doors(),
        ensures
            after.is_one_open_room(),
    {
        let laid_out = self.laid_out_with(settings);
        self.lemma_laid_out_wf(settings);
        let (x, y, settings_index, turns) = choose|
            x: int,
            y: int,
            settings_index: usize,
            turns: nat,
        |
            {
                &&& laid_out.in_bounds(x, y)
                &&& settings_index < laid_out.rooms.settings.len()
                &&& #[trigger] laid_out.first_cell(x, y, settings_index).grown_by_turns(
                    seq![Position { x: x as i32, y: y as i32 }],
                    after,
                    Seq::empty(),
                    turns,
                )
            };
        let stack = seq![Position { x: x as i32, y: y as i32 }];
        let first = laid_out.first_cell(x, y, settings_index);
        laid_out.lemma_first_cell_carving(x, y, settings_index);
        first.lemma_grown_carving(stack, after, Seq::empty(), turns);
    }

    /// After the first cell was carved, the stack that holds its position
    /// tracks the maze, and the maze is one open room.
    pub proof fn lemma_first_cell_carving(self, x: int, y: int, settings_index: usize)
        requires
            self.wf(),
            self.cells =~= Map::<(int, int), CellView>::empty(),
            self.rooms.rooms.len() == 0,
            self.in_bounds(x, y),
            settings_index < self.rooms.settings.len(),
        ensures
            self.first_cell(x, y, settings_index).carving(
                seq![Position { x: x as i32, y: y as i32 }],
            ),
            self.first_cell(x, y, settings_index).is_one_open_room(),
            self.first_cell(x, y, settings_index).extends(self),
    {
        let stack = seq![Position { x: x as i32, y: y as i32 }];
        let roomed = self.with_rooms(self.rooms.with_room(settings_index));
        self.lemma_with_room_wf(settings_index);
        self.rooms.lemma_with_room(settings_index);
        assert(roomed.has_no_door());
        assert(roomed.has_no_inner_wall());
        roomed.lemma_with_cell_wf(x, y, 0);
        let first = self.first_cell(x, y, settings_index);
        first.lemma_extends_transitive(roomed, self);
        assert(first.has_cell(x, y));
        assert(first.cell_ok(x, y));
        assert(stack[0] == first.cell(x, y).position);
        assert forall|a: int, b: int| #[trigger]
            first.has_cell(a, b) && !first.cell(a, b).is_complete() implies stack.contains(
            first.cell(a, b).position,
        ) by {
            assert(a == x && b == y);
        }
    }

    /// Turns leave in place what holds between two turns of a generation.
    pub proof fn lemma_grown_carving(
        self,
        stack: Seq<Position>,
        after: MazeView,
        stack_after: Seq<Position>,
        turns: nat,
    )
        requires
            self.carving(stack),
            self.grown_by_turns(stack, after, stack_after, turns),
        ensures
            after.carving(stack_after),
            self.never_opens_doors() ==> after.never_opens_doors(),
        decreases turns,
    {
        if turns > 0 {
            let (middle, middle_stack) = choose|middle: MazeView, middle_stack: Seq<Position>|
                {
                    &&& self.grown_by_turns(stack, middle, middle_stack, (turns - 1) as nat)
                    &&& #[trigger] middle.turn_outcome(middle_stack, after, stack_after)
                };
            self.lemma_grown_carving(stack, middle, middle_stack, (turns - 1) as nat);
            middle.lemma_turn_keeps_carving(middle_stack, after, stack_after);
            self.lemma_grown_wf(stack, after, stack_after, turns);
            self.lemma_grown_wf(stack, middle, middle_stack, (turns - 1) as nat);
        }
    }
}

} // verus!
