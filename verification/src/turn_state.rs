//! The turn-state machine the surrounding game loop steps through.

use vstd::prelude::*;

verus! {

#[derive(Debug, Clone, Copy, Eq, PartialEq, Structural)]
pub enum TurnState {
    InitGame,
    NextLevel,
    InitLevel,
    AwaitingInput,
    PlayerTurn,
    MonsterTurn,
    GameOver,
    Victory,
}

} // verus!
