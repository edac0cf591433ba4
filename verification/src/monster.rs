//! How a monster follows the player.

use vstd::prelude::*;

verus! {

/// What a monster does next about its goal.
#[derive(Debug, Copy, Clone, PartialEq, Eq, Structural)]
pub enum Pursuit {
    /// The monster has caught the player: it drops its goal.
    Caught,
    /// The goal already is the place of the player.
    KeepGoal,
    /// The place of the player becomes the goal.
    ChasePlayer,
    /// The player is in another room, or one of the two is in none: the goal
    /// stays as it is.
    OtherRoom,
}

/// What a monster in one room does about a player in another or the same
/// room: in the same room it has caught a player within reach, and else
/// heads for the player; across rooms it goes on as before.
pub open spec fn spec_pursue(
    monster_room: Option<usize>,
    player_room: Option<usize>,
    within_reach: bool,
    goal_is_player: bool,
) -> Pursuit {
    if monster_room is Some && monster_room == player_room {
        if within_reach {
            Pursuit::Caught
        } else if goal_is_player {
            Pursuit::KeepGoal
        } else {
            Pursuit::ChasePlayer
        }
    } else {
        Pursuit::OtherRoom
    }
}

pub fn pursue(
    monster_room: Option<usize>,
    player_room: Option<usize>,
    within_reach: bool,
    goal_is_player: bool,
) -> (pursuit: Pursuit)
    ensures
        pursuit == spec_pursue(monster_room, player_room, within_reach, goal_is_player),
{
    let same_room = match (monster_room, player_room) {
        (Some(monster), Some(player)) => monster == player,
        _ => false,
    };
    if same_room {
        if within_reach {
            Pursuit::Caught
        } else if goal_is_player {
            Pursuit::KeepGoal
        } else {
            Pursuit::ChasePlayer
        }
    } else {
        Pursuit::OtherRoom
    }
}

} // verus!
