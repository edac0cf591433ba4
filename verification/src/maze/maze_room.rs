//! Rooms: groups of cells that share their settings, and the registry that
//! creates and merges them.
//!
//! A room index, once handed out, stays valid. When a room is merged into
//! another, its index is redirected to the room that took its cells, so every
//! index resolves to a live room in one step.

use vstd::prelude::*;
use crate::maze::maze_error::MazeError;
use crate::position::Position;
use crate::random::Random;
use crate::random::gen_range;

verus! {

/// The theme of a room.
#[derive(Debug, Clone)]
pub struct MazeRoomSettings {
    pub name: String,
}

impl MazeRoomSettings {
    pub fn new(name: String) -> (settings: Self)
        ensures
            settings.name == name,
    {
        MazeRoomSettings { name }
    }
}

/// What a room holds: the index of its settings, the positions of its cells
/// in the order in which they joined, and, once it has been merged away, the
/// room that took its cells.
pub struct RoomView {
    pub settings_index: usize,
    pub cells: Seq<Position>,
    pub merged_into: Option<usize>,
}

/// What the registry holds: the catalog of settings and the rooms, by index.
pub struct RoomsView {
    pub settings: Seq<MazeRoomSettings>,
    pub rooms: Seq<RoomView>,
}

impl RoomsView {
    pub open spec fn is_room(self, room_index: int) -> bool {
        0 <= room_index < self.rooms.len()
    }

    /// A room that has not been merged away.
    pub open spec fn is_live(self, room_index: int) -> bool {
        self.is_room(room_index) && self.rooms[room_index].merged_into is None
    }

    /// Every room has settings of the catalog; a room that was merged away is
    /// empty and redirects to a live room.
    pub open spec fn wf(self) -> bool {
        &&& self.rooms.len() <= usize::MAX
        &&& forall|r: int|
            0 <= r < self.rooms.len() ==> {
                &&& (#[trigger] self.rooms[r]).settings_index < self.settings.len()
                &&& self.rooms[r].merged_into matches Some(k) ==> {
                    &&& self.is_live(k as int)
                    &&& self.rooms[r].cells.len() == 0
                }
            }
    }

    /// The room that now owns what was put into a room index.
    pub open spec fn resolve(self, room_index: int) -> int {
        match self.rooms[room_index].merged_into {
            Some(k) => k as int,
            None => room_index,
        }
    }

    /// The settings index under which a room index is now decorated.
    pub open spec fn settings_of(self, room_index: int) -> int {
        self.rooms[self.resolve(room_index)].settings_index as int
    }

    /// The registry with one more room, empty, at the next index.
    pub open spec fn with_room(self, settings_index: usize) -> RoomsView {
        RoomsView {
            rooms: self.rooms.push(
                RoomView { settings_index, cells: Seq::empty(), merged_into: None },
            ),
            ..self
        }
    }

    /// The registry with a position appended to a room.
    pub open spec fn with_cell(self, room_index: int, position: Position) -> RoomsView {
        RoomsView {
            rooms: self.rooms.update(
                room_index,
                RoomView {
                    cells: self.rooms[room_index].cells.push(position),
                    ..self.rooms[room_index]
                },
            ),
            ..self
        }
    }

    /// A room after live room `absorb` was merged into live room `keep`: the
    /// kept room gains the cells of the absorbed one, the absorbed one is
    /// emptied and redirected, and so is every room that redirected to it.
    pub open spec fn merged_room(self, keep: int, absorb: int, room_index: int) -> RoomView {
        let room = self.rooms[room_index];
        if room_index == keep {
            RoomView { cells: room.cells + self.rooms[absorb].cells, ..room }
        } else if room_index == absorb {
            RoomView { cells: Seq::empty(), merged_into: Some(keep as usize), ..room }
        } else if room.merged_into == Some(absorb as usize) {
            RoomView { merged_into: Some(keep as usize), ..room }
        } else {
            room
        }
    }

    /// The registry after the room that `room_to_merge` resolves to was
    /// merged into the room that `room_to_keep` resolves to. Where both
    /// resolve to one room, nothing changes.
    pub open spec fn merged(self, room_to_keep: int, room_to_merge: int) -> RoomsView {
        let keep = self.resolve(room_to_keep);
        let absorb = self.resolve(room_to_merge);
        if keep == absorb {
            self
        } else {
            RoomsView {
                rooms: Seq::new(self.rooms.len(), |i: int| self.merged_room(keep, absorb, i)),
                ..self
            }
        }
    }

    /// The settings index that a draw selects from a catalog of `count`
    /// settings when one index is excluded: the draw counts through the
    /// indices that remain.
    pub open spec fn settings_for_draw(draw: int, index_to_exclude: Option<usize>) -> int {
        match index_to_exclude {
            Some(excluded) => if draw >= excluded {
                draw + 1
            } else {
                draw
            },
            None => draw,
        }
    }

    /// The number of settings that can be drawn when one index is excluded.
    pub open spec fn candidates(self, index_to_exclude: Option<usize>) -> int {
        match index_to_exclude {
            Some(excluded) => if excluded < self.settings.len() {
                self.settings.len() - 1
            } else {
                self.settings.len() as int
            },
            None => self.settings.len() as int,
        }
    }

    /// Every index resolves to a live room, and a live room to itself.
    pub proof fn lemma_resolve(self, room_index: int)
        requires
            self.wf(),
            self.is_room(room_index),
        ensures
            self.is_live(self.resolve(room_index)),
            self.resolve(self.resolve(room_index)) == self.resolve(room_index),
            self.is_live(room_index) ==> self.resolve(room_index) == room_index,
            0 <= self.settings_of(room_index) < self.settings.len(),
    {
    }

    /// A new room leaves every index that was handed out as it was.
    pub proof fn lemma_with_room(self, settings_index: usize)
        requires
            self.wf(),
            self.rooms.len() < usize::MAX,
            settings_index < self.settings.len(),
        ensures
            self.with_room(settings_index).wf(),
            self.with_room(settings_index).is_live(self.rooms.len() as int),
            self.with_room(settings_index).settings_of(self.rooms.len() as int) == settings_index,
            forall|r: int|
                self.is_room(r) ==> {
                    &&& #[trigger] self.with_room(settings_index).resolve(r) == self.resolve(r)
                    &&& self.with_room(settings_index).settings_of(r) == self.settings_of(r)
                    &&& self.with_room(settings_index).rooms[r] == self.rooms[r]
                },
    {
        let after = self.with_room(settings_index);
        assert forall|r: int| 0 <= r < after.rooms.len() implies {
            &&& (#[trigger] after.rooms[r]).settings_index < after.settings.len()
            &&& after.rooms[r].merged_into matches Some(k) ==> {
                &&& after.is_live(k as int)
                &&& after.rooms[r].cells.len() == 0
            }
        } by {
            if r < self.rooms.len() {
                assert(after.rooms[r] == self.rooms[r]);
            }
        }
    }

    /// A cell more in a live room changes no redirection and no settings.
    pub proof fn lemma_with_cell(self, room_index: int, position: Position)
        requires
            self.wf(),
            self.is_live(room_index),
        ensures
            self.with_cell(room_index, position).wf(),
            self.with_cell(room_index, position).rooms.len() == self.rooms.len(),
            forall|r: int|
                self.is_room(r) ==> {
                    &&& #[trigger] self.with_cell(room_index, position).resolve(r) == self.resolve(
                        r,
                    )
                    &&& self.with_cell(room_index, position).settings_of(r) == self.settings_of(r)
                },
    {
        let after = self.with_cell(room_index, position);
        assert forall|r: int| 0 <= r < after.rooms.len() implies {
            &&& (#[trigger] after.rooms[r]).settings_index < after.settings.len()
            &&& after.rooms[r].merged_into matches Some(k) ==> {
                &&& after.is_live(k as int)
                &&& after.rooms[r].cells.len() == 0
            }
        } by {
            assert(self.rooms[r].settings_index < self.settings.len());
        }
        assert forall|r: int| self.is_room(r) implies {
            &&& #[trigger] after.resolve(r) == self.resolve(r)
            &&& after.settings_of(r) == self.settings_of(r)
        } by {
            self.lemma_resolve(r);
        }
    }

    /// After a merge, what resolved to the absorbed room resolves to the kept
    /// room and takes its settings; every other index resolves as before and
    /// keeps its settings.
    pub proof fn lemma_merged(self, room_to_keep: int, room_to_merge: int)
        requires
            self.wf(),
            self.is_room(room_to_keep),
            self.is_room(room_to_merge),
        ensures
            self.merged(room_to_keep, room_to_merge).wf(),
            self.merged(room_to_keep, room_to_merge).rooms.len() == self.rooms.len(),
            self.merged(room_to_keep, room_to_merge).settings == self.settings,
            forall|r: int|
                self.is_room(r) ==> #[trigger] self.merged(room_to_keep, room_to_merge).resolve(r)
                    == if self.resolve(r) == self.resolve(room_to_merge) {
                    self.resolve(room_to_keep)
                } else {
                    self.resolve(r)
                },
            forall|r: int|
                self.is_room(r) ==> #[trigger] self.merged(room_to_keep, room_to_merge).settings_of(
                    r,
                ) == if self.resolve(r) == self.resolve(room_to_merge) {
                    self.settings_of(room_to_keep)
                } else {
                    self.settings_of(r)
                },
    {
        let keep = self.resolve(room_to_keep);
        let absorb = self.resolve(room_to_merge);
        let after = self.merged(room_to_keep, room_to_merge);
        self.lemma_resolve(room_to_keep);
        self.lemma_resolve(room_to_merge);
        if keep != absorb {
            assert forall|r: int| self.is_room(r) implies after.rooms[r] == self.merged_room(
                keep,
                absorb,
                r,
            ) by {}
            assert forall|r: int| self.is_room(r) implies #[trigger] after.resolve(r) == if self.resolve(
                r,
            ) == absorb {
                keep
            } else {
                self.resolve(r)
            } by {
                self.lemma_resolve(r);
                assert(after.rooms[r] == self.merged_room(keep, absorb, r));
            }
            assert forall|r: int| 0 <= r < after.rooms.len() implies {
                &&& (#[trigger] after.rooms[r]).settings_index < after.settings.len()
                &&& after.rooms[r].merged_into matches Some(k) ==> {
                    &&& after.is_live(k as int)
                    &&& after.rooms[r].cells.len() == 0
                }
            } by {
                self.lemma_resolve(r);
                assert(after.rooms[r] == self.merged_room(keep, absorb, r));
                assert(after.rooms[keep] == self.merged_room(keep, absorb, keep));
                assert(self.rooms[r].settings_index < self.settings.len());
                if let Some(k) = after.rooms[r].merged_into {
                    assert(after.rooms[k as int] == self.merged_room(keep, absorb, k as int));
                }
            }
            assert forall|r: int| self.is_room(r) implies #[trigger] after.settings_of(r) == if self.resolve(
                r,
            ) == absorb {
                self.settings_of(room_to_keep)
            } else {
                self.settings_of(r)
            } by {
                self.lemma_resolve(r);
                let t = after.resolve(r);
                assert(after.rooms[t] == self.merged_room(keep, absorb, t));
            }
        } else {
            assert forall|r: int| self.is_room(r) implies #[trigger] after.settings_of(r) == if self.resolve(
                r,
            ) == absorb {
                self.settings_of(room_to_keep)
            } else {
                self.settings_of(r)
            } by {
                self.lemma_resolve(r);
            }
        }
    }
}

/// A room of the maze.
#[derive(Debug)]
pub struct MazeRoom {
    settings_index: usize,
    cells: Vec<Position>,
    merged_into: Option<usize>,
}

impl View for MazeRoom {
    type V = RoomView;

    closed spec fn view(&self) -> RoomView {
        RoomView {
            settings_index: self.settings_index,
            cells: self.cells@,
            merged_into: self.merged_into,
        }
    }
}

impl MazeRoom {
    fn new(settings_index: usize) -> (room: Self)
        ensures
            room@ == (RoomView { settings_index, cells: Seq::empty(), merged_into: None }),
    {
        MazeRoom { settings_index, cells: Vec::new(), merged_into: None }
    }

    /// The positions of the cells of the room, in the order in which they
    /// joined it.
    pub fn get_cells(&self) -> (cells: &Vec<Position>)
        ensures
            cells@ == self@.cells,
    {
        &self.cells
    }

    pub fn get_settings_index(&self) -> (settings_index: usize)
        ensures
            settings_index == self@.settings_index,
    {
        self.settings_index
    }

    /// The room that took the cells of this one, if it was merged away.
    pub fn get_merged_into(&self) -> (merged_into: Option<usize>)
        ensures
            merged_into == self@.merged_into,
    {
        self.merged_into
    }

    pub fn get_room_has_position(&self, position: Position) -> (found: bool)
        ensures
            found == self@.cells.contains(position),
    {
        let mut i: usize = 0;
        while i < self.cells.len()
            invariant
                i <= self.cells@.len(),
                forall|j: int| 0 <= j < i ==> self.cells@[j] != position,
            decreases self.cells@.len() - i,
        {
            if self.cells[i] == position {
                return true;
            }
            i = i + 1;
        }
        false
    }
}

/// The registry of rooms and of the settings they are decorated with.
#[derive(Debug)]
pub struct MazeRooms {
    all_settings: Vec<MazeRoomSettings>,
    maze_rooms: Vec<MazeRoom>,
}

impl View for MazeRooms {
    type V = RoomsView;

    closed spec fn view(&self) -> RoomsView {
        RoomsView {
            settings: self.all_settings@,
            rooms: Seq::new(self.maze_rooms@.len(), |i: int| self.maze_rooms@[i]@),
        }
    }
}

impl MazeRooms {
    pub fn new() -> (rooms: Self)
        ensures
            rooms@.settings.len() == 0,
            rooms@.rooms.len() == 0,
            rooms@.wf(),
    {
        MazeRooms { all_settings: Vec::new(), maze_rooms: Vec::new() }
    }

    /// Registers the catalog of settings and starts without rooms.
    pub fn initialize_maze_rooms(&mut self, settings: Vec<MazeRoomSettings>)
        ensures
            final(self)@.settings == settings@,
            final(self)@.rooms.len() == 0,
            final(self)@.wf(),
    {
        self.all_settings = settings;
        self.maze_rooms = Vec::new();
    }

    pub fn get_settings_count(&self) -> (count: usize)
        ensures
            count == self@.settings.len(),
    {
        self.all_settings.len()
    }

    pub fn get_settings(&self, settings_index: usize) -> (settings: &MazeRoomSettings)
        requires
            settings_index < self@.settings.len(),
        ensures
            *settings == self@.settings[settings_index as int],
    {
        &self.all_settings[settings_index]
    }

    /// The settings index that a draw selects when one index is excluded.
    pub fn settings_index_for_draw(draw: usize, index_to_exclude: Option<usize>) -> (settings_index:
        usize)
        requires
            draw < usize::MAX,
        ensures
            settings_index == RoomsView::settings_for_draw(draw as int, index_to_exclude),
            Some(settings_index) != index_to_exclude,
    {
        match index_to_exclude {
            Some(excluded) => if draw >= excluded {
                draw + 1
            } else {
                draw
            },
            None => draw,
        }
    }

    /// Appends an empty room with the given settings and returns its index.
    pub fn create_room_with_settings(&mut self, settings_index: usize) -> (room_index: usize)
        requires
            settings_index < old(self)@.settings.len(),
        ensures
            final(self)@ == old(self)@.with_room(settings_index),
            room_index == old(self)@.rooms.len(),
            old(self)@.rooms.len() < usize::MAX,
    {
        let new_room = MazeRoom::new(settings_index);
        self.maze_rooms.push(new_room);
        proof {
            assert(self@.rooms =~= old(self)@.with_room(settings_index).rooms);
        }
        self.maze_rooms.len() - 1
    }

    /// Creates an empty room whose settings are drawn from the catalog, each
    /// index but the excluded one with the same chance, and returns the index
    /// of the room. Fails, and changes nothing, where the catalog is empty or
    /// holds nothing but the excluded settings.
    pub fn create_room_and_return_index(
        &mut self,
        index_to_exclude: Option<usize>,
        rng: &mut Random,
    ) -> (created: Result<usize, MazeError>)
        ensures
            old(self)@.settings.len() == 0 ==> created == Err::<usize, MazeError>(
                MazeError::EmptySettings,
            ),
            old(self)@.settings.len() > 0 && old(self)@.candidates(index_to_exclude) == 0
                ==> created == Err::<usize, MazeError>(MazeError::NoOtherSettings),
            old(self)@.candidates(index_to_exclude) > 0 ==> created is Ok,
            created is Err ==> final(self)@ == old(self)@,
            created matches Ok(room_index) ==> {
                &&& room_index == old(self)@.rooms.len()
                &&& old(self)@.rooms.len() < usize::MAX
                &&& exists|settings_index: usize|
                    {
                        &&& settings_index < old(self)@.settings.len()
                        &&& Some(settings_index) != index_to_exclude
                        &&& final(self)@ == #[trigger] old(self)@.with_room(settings_index)
                    }
            },
    {
        let settings_size = self.all_settings.len();
        if settings_size == 0 {
            return Err(MazeError::EmptySettings);
        }
        let candidates = match index_to_exclude {
            Some(excluded) => if excluded < settings_size {
                settings_size - 1
            } else {
                settings_size
            },
            None => settings_size,
        };
        if candidates == 0 {
            return Err(MazeError::NoOtherSettings);
        }
        let draw = gen_range(rng, 0, candidates);
        let new_setting_index = Self::settings_index_for_draw(draw, index_to_exclude);
        let room_index = self.create_room_with_settings(new_setting_index);
        Ok(room_index)
    }

    pub fn get_room_count(&self) -> (count: usize)
        ensures
            count == self@.rooms.len(),
    {
        self.maze_rooms.len()
    }

    pub fn get_room(&self, room_index: usize) -> (room: &MazeRoom)
        requires
            self@.is_room(room_index as int),
        ensures
            room@ == self@.rooms[room_index as int],
    {
        &self.maze_rooms[room_index]
    }

    /// The live room that now owns what was put into a room index.
    pub fn resolve_room_index(&self, room_index: usize) -> (resolved: usize)
        requires
            self@.is_room(room_index as int),
        ensures
            resolved == self@.resolve(room_index as int),
    {
        match self.maze_rooms[room_index].merged_into {
            Some(k) => k,
            None => room_index,
        }
    }

    /// The settings index under which a room index is now decorated.
    pub fn get_settings_index_from_room_index(&self, room_index: usize) -> (settings_index: usize)
        requires
            self@.wf(),
            self@.is_room(room_index as int),
        ensures
            settings_index == self@.settings_of(room_index as int),
            settings_index < self@.settings.len(),
    {
        proof {
            self@.lemma_resolve(room_index as int);
        }
        let resolved = self.resolve_room_index(room_index);
        self.maze_rooms[resolved].settings_index
    }

    /// The first room, by index, that lists the position among its cells.
    pub fn get_room_by_position(&self, position: Position) -> (found: Option<&MazeRoom>)
        ensures
            found is Some <==> exists|r: int|
                self@.is_room(r) && (#[trigger] self@.rooms[r]).cells.contains(position),
            found matches Some(room) ==> exists|r: int|
                {
                    &&& self@.is_room(r)
                    &&& room@ == #[trigger] self@.rooms[r]
                    &&& room@.cells.contains(position)
                    &&& forall|q: int| 0 <= q < r ==> !(#[trigger] self@.rooms[q]).cells.contains(position)
                },
    {
        let mut i: usize = 0;
        while i < self.maze_rooms.len()
            invariant
                i <= self.maze_rooms@.len(),
                forall|q: int| 0 <= q < i ==> !(#[trigger] self@.rooms[q]).cells.contains(position),
            decreases self.maze_rooms@.len() - i,
        {
            if self.maze_rooms[i].get_room_has_position(position) {
                assert(self@.rooms[i as int] == self.maze_rooms@[i as int]@);
                return Some(&self.maze_rooms[i]);
            }
            i = i + 1;
        }
        None
    }

    /// Appends a position to the cells of a live room.
    pub fn add_cell_to_room(&mut self, position: Position, room_index: usize)
        requires
            old(self)@.is_live(room_index as int),
        ensures
            final(self)@ == old(self)@.with_cell(room_index as int, position),
    {
        self.maze_rooms[room_index].cells.push(position);
        proof {
            let after = old(self)@.with_cell(room_index as int, position);
            assert forall|i: int| 0 <= i < after.rooms.len() implies self@.rooms[i]
                == after.rooms[i] by {
                assert(self@.rooms[i] == self.maze_rooms@[i]@);
                assert(old(self)@.rooms[i] == old(self).maze_rooms@[i]@);
            }
            assert(self@.rooms =~= after.rooms);
        }
    }

    fn empty_cells_from_room(&mut self, room_index: usize) -> (emptied_cells: Vec<Position>)
        requires
            room_index < old(self).maze_rooms@.len(),
        ensures
            emptied_cells@ == old(self).maze_rooms@[room_index as int].cells@,
            final(self).all_settings == old(self).all_settings,
            final(self).maze_rooms@.len() == old(self).maze_rooms@.len(),
            forall|i: int|
                0 <= i < old(self).maze_rooms@.len() && i != room_index ==> final(self).maze_rooms@[i] == old(self).maze_rooms@[i],
            final(self).maze_rooms@[room_index as int].cells@ == Seq::<Position>::empty(),
            final(self).maze_rooms@[room_index as int].settings_index == old(self).maze_rooms@[room_index as int].settings_index,
            final(self).maze_rooms@[room_index as int].merged_into == old(self).maze_rooms@[room_index as int].merged_into,
    {
        let mut emptied_cells: Vec<Position> = Vec::new();
        emptied_cells.append(&mut self.maze_rooms[room_index].cells);
        emptied_cells
    }

    /// Merges the room that `room_to_merge` resolves to into the room that
    /// `room_to_keep` resolves to: the cells move to the kept room, and the
    /// absorbed index, with every index that redirected to it, from now on
    /// resolves to the kept room. Where both resolve to one room, nothing
    /// changes.
    pub fn merge_rooms(&mut self, room_to_keep: usize, room_to_merge: usize)
        requires
            old(self)@.wf(),
            old(self)@.is_room(room_to_keep as int),
            old(self)@.is_room(room_to_merge as int),
        ensures
            final(self)@ == old(self)@.merged(room_to_keep as int, room_to_merge as int),
            final(self)@.wf(),
            final(self)@.rooms.len() == old(self)@.rooms.len(),
            final(self)@.settings == old(self)@.settings,
            final(self)@.resolve(room_to_keep as int) == old(self)@.resolve(room_to_keep as int),
            final(self)@.resolve(room_to_merge as int) == old(self)@.resolve(room_to_keep as int),
            final(self)@.settings_of(room_to_keep as int) == old(self)@.settings_of(
                room_to_keep as int,
            ),
            final(self)@.settings_of(room_to_merge as int) == old(self)@.settings_of(
                room_to_keep as int,
            ),
            final(self)@.rooms[old(self)@.resolve(room_to_keep as int)].cells == if old(self)@.resolve(room_to_keep as int) == old(self)@.resolve(room_to_merge as int) {
                old(self)@.rooms[old(self)@.resolve(room_to_keep as int)].cells
            } else {
                old(self)@.rooms[old(self)@.resolve(room_to_keep as int)].cells + old(self)@.rooms[old(self)@.resolve(room_to_merge as int)].cells
            },
            old(self)@.resolve(room_to_keep as int) != old(self)@.resolve(room_to_merge as int)
                ==> final(self)@.rooms[old(self)@.resolve(room_to_merge as int)].cells.len() == 0,
    {
        let keep = self.resolve_room_index(room_to_keep);
        let absorb = self.resolve_room_index(room_to_merge);
        proof {
            old(self)@.lemma_resolve(room_to_keep as int);
            old(self)@.lemma_resolve(room_to_merge as int);
            old(self)@.lemma_merged(room_to_keep as int, room_to_merge as int);
        }
        if keep == absorb {
            return;
        }
        let ghost before = self@;
        let count = self.maze_rooms.len();
        let mut i: usize = 0;
        while i < count
            invariant
                i <= count,
                count == self.maze_rooms@.len(),
                count == before.rooms.len(),
                self.all_settings == old(self).all_settings,
                keep != absorb,
                keep < count,
                absorb < count,
                forall|j: int|
                    0 <= j < i ==> (#[trigger] self.maze_rooms@[j])@ == (RoomView {
                        merged_into: if before.rooms[j].merged_into == Some(absorb) {
                            Some(keep)
                        } else {
                            before.rooms[j].merged_into
                        },
                        ..before.rooms[j]
                    }),
                forall|j: int| i <= j < count ==> (#[trigger] self.maze_rooms@[j])@ == before.rooms[j],
            decreases count - i,
        {
            let redirect = match self.maze_rooms[i].merged_into {
                Some(target) => target == absorb,
                None => false,
            };
            if redirect {
                self.maze_rooms[i].merged_into = Some(keep);
            }
            i = i + 1;
        }
        self.maze_rooms[absorb].merged_into = Some(keep);
        let mut cells = self.empty_cells_from_room(absorb);
        self.maze_rooms[keep].cells.append(&mut cells);
        proof {
            let after = before.merged(room_to_keep as int, room_to_merge as int);
            assert forall|j: int| 0 <= j < count implies self@.rooms[j] == after.rooms[j] by {
                assert(self@.rooms[j] == self.maze_rooms@[j]@);
                assert(after.rooms[j] == before.merged_room(keep as int, absorb as int, j));
                assert(self@.rooms[j].cells =~= after.rooms[j].cells);
            }
            assert(self@.rooms =~= after.rooms);
        }
    }
}

} // verus!
