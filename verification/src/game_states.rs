//! The phases of a game session.

use vstd::prelude::*;

verus! {

#[derive(Debug, Clone, Copy, PartialEq, Eq, Hash, Structural)]
pub enum GameState {
    LoadingScreen,
    LoadingAssets,
    MainMenu,
    Initialize,
    InGame,
    Won,
    Lost,
}

} // verus!
