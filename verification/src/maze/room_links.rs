//! Links between rooms: the places where one room can be left for another.

use vstd::prelude::*;
use crate::position::Position;

verus! {

/// A position, and the room it belongs to.
#[derive(Debug, Copy, Clone, PartialEq, Eq, Structural)]
pub struct RoomPosition {
    pub room: usize,
    pub position: Position,
}

/// What a link holds: its two ends, and whether it can be passed.
pub struct RoomLinkView {
    pub room_position1: RoomPosition,
    pub room_position2: RoomPosition,
    pub is_open: bool,
}

impl RoomLinkView {
    /// Whether the link ends in a room.
    pub open spec fn has_room_number(self, room_number: usize) -> bool {
        self.room_position1.room == room_number || self.room_position2.room == room_number
    }
}

#[derive(Debug)]
pub struct RoomLink {
    room_position1: RoomPosition,
    room_position2: RoomPosition,
    is_open: bool,
}

impl View for RoomLink {
    type V = RoomLinkView;

    closed spec fn view(&self) -> RoomLinkView {
        RoomLinkView {
            room_position1: self.room_position1,
            room_position2: self.room_position2,
            is_open: self.is_open,
        }
    }
}

impl RoomLink {
    pub fn new(room_position1: RoomPosition, room_position2: RoomPosition, is_open: bool) -> (link:
        Self)
        ensures
            link@ == (RoomLinkView { room_position1, room_position2, is_open }),
    {
        RoomLink { room_position1, room_position2, is_open }
    }

    pub fn has_room_number(&self, room_number: usize) -> (found: bool)
        ensures
            found == self@.has_room_number(room_number),
    {
        self.room_position1.room == room_number || self.room_position2.room == room_number
    }

    pub fn is_open(&self) -> (open: bool)
        ensures
            open == self@.is_open,
    {
        self.is_open
    }

    pub fn open_link(&mut self)
        ensures
            final(self)@ == (RoomLinkView { is_open: true, ..old(self)@ }),
    {
        self.is_open = true;
    }

    pub fn get_room_position1(&self) -> (end: RoomPosition)
        ensures
            end == self@.room_position1,
    {
        self.room_position1
    }

    pub fn get_room_position2(&self) -> (end: RoomPosition)
        ensures
            end == self@.room_position2,
    {
        self.room_position2
    }
}

pub struct RoomLinks {
    pub room_links: Vec<RoomLink>,
}

impl RoomLinks {
    /// The links of a sequence that end in a room, in their order.
    pub open spec fn links_of(links: Seq<RoomLink>, room_number: usize) -> Seq<RoomLink> {
        links.filter(|link: RoomLink| link@.has_room_number(room_number))
    }

    /// The links that end in a room, in the order in which they are held.
    pub fn get_room_links(&self, room_number: usize) -> (matching_links: Vec<&RoomLink>)
        ensures
            matching_links@.len() == Self::links_of(self.room_links@, room_number).len(),
            forall|i: int|
                0 <= i < matching_links@.len() ==> *(#[trigger] matching_links@[i])
                    == Self::links_of(self.room_links@, room_number)[i],
    {
        let mut matching_links: Vec<&RoomLink> = Vec::new();
        let mut i: usize = 0;
        let ghost pred = |link: RoomLink| link@.has_room_number(room_number);
        assert(self.room_links@.take(0).filter(pred) =~= Seq::<RoomLink>::empty()) by {
            reveal(Seq::filter);
        }
        while i < self.room_links.len()
            invariant
                i <= self.room_links@.len(),
                pred == (|link: RoomLink| link@.has_room_number(room_number)),
                matching_links@.len() == self.room_links@.take(i as int).filter(pred).len(),
                forall|j: int|
                    0 <= j < matching_links@.len() ==> *(#[trigger] matching_links@[j])
                        == self.room_links@.take(i as int).filter(pred)[j],
            decreases self.room_links@.len() - i,
        {
            proof {
                let prefix = self.room_links@.take(i as int);
                prefix.lemma_filter_push(self.room_links@[i as int], pred);
                assert(self.room_links@.take(i + 1) =~= prefix.push(self.room_links@[i as int]));
            }
            if self.room_links[i].has_room_number(room_number) {
                matching_links.push(&self.room_links[i]);
            }
            i = i + 1;
        }
        assert(self.room_links@.take(i as int) =~= self.room_links@);
        matching_links
    }
}

/// The distance, counted in steps along the grid, from the first end of a
/// link to a goal.
pub fn get_estimated_distance(start: &RoomLink, goal: Position) -> (distance: u64)
    ensures
        distance == goal.spec_distance(start@.room_position1.position),
{
    goal.get_distance_to_position(start.room_position1.position)
}

} // verus!
