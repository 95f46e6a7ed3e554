//! The small value types of the walker-grid variant of the game: move
//! directions, walker and tile kinds, and the per-turn player input.

use vstd::prelude::*;

verus! {

/// A single-step move direction for tile walkers.
#[derive(Clone, Copy, PartialEq, Eq, PartialOrd, Ord, Hash, Debug, Structural)]
pub enum MoveDirection {
    Left,
    Up,
    Right,
    Down,
}

impl MoveDirection {
    /// The opposite direction.
    pub fn reverse(&self) -> (r: Self)
        ensures
            r == (match *self {
                MoveDirection::Left => MoveDirection::Right,
                MoveDirection::Up => MoveDirection::Down,
                MoveDirection::Right => MoveDirection::Left,
                MoveDirection::Down => MoveDirection::Up,
            }),
    {
        match self {
            MoveDirection::Left => MoveDirection::Right,
            MoveDirection::Up => MoveDirection::Down,
            MoveDirection::Right => MoveDirection::Left,
            MoveDirection::Down => MoveDirection::Up,
        }
    }
}

/// What walks on the tiles; `Null` marks a slot whose walker is gone.
#[derive(Clone, Copy, PartialEq, Eq, PartialOrd, Ord, Hash, Debug, Structural)]
pub enum WalkerType {
    Null,
    Player,
    Box,
}

impl WalkerType {
    pub fn is_null(&self) -> (r: bool)
        ensures
            r == (*self == WalkerType::Null),
    {
        match self {
            WalkerType::Null => true,
            _ => false,
        }
    }
}

/// What a tile of the walker grid is made of.
#[derive(Clone, Copy, PartialEq, Eq, PartialOrd, Ord, Hash, Debug, Structural)]
pub enum TileType {
    Void,
    Floor,
    Entrance,
    Treasure,
    DroppedBox,
}

/// The player's pending input for this turn.
#[derive(Clone, Copy, Debug, PartialEq, Eq, Structural)]
pub struct PlayerState {
    pub new_direction: Option<MoveDirection>,
}

impl PlayerState {
    pub fn new() -> (r: Self)
        ensures
            r.new_direction is None,
    {
        PlayerState { new_direction: None }
    }
}

/// Whether a walker moved during the last resolution.
#[derive(Clone, Copy, Debug, PartialEq, Eq, Hash, Structural)]
pub struct JustMoved(pub bool);

/// Whether a treasure tile still holds its treasure.
#[derive(Clone, Copy, Debug, PartialEq, Eq, Structural)]
pub struct TreasureState(pub bool);

} // verus!
