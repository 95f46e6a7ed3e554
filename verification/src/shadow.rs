//! The player's recorded trace over the walker grid and the tri-state
//! shadow marking of its tiles.

use vstd::prelude::*;

use crate::tiles::TilePos;
use crate::walkers::MoveDirection;

verus! {

/// One recorded player move: where it started and which way it went.
#[derive(Clone, Copy, Debug, PartialEq, Eq, Structural)]
pub struct PlayerMoveHistoryEntry {
    pub from: TilePos,
    pub dir: MoveDirection,
}

/// The append-only list of the player's successful moves.
#[derive(Clone, Debug)]
pub struct PlayerMoveHistory {
    pub list: Vec<PlayerMoveHistoryEntry>,
}

impl PlayerMoveHistory {
    pub fn new() -> (r: Self)
        ensures
            r.list@.len() == 0,
    {
        PlayerMoveHistory { list: Vec::new() }
    }

    /// The cells the trace visits: each recorded move's start cell, then
    /// the last move's target cell.
    pub fn iter_vst_poses(&self) -> (r: Vec<TilePos>)
        ensures
            self.list@.len() == 0 ==> r@.len() == 0,
            self.list@.len() > 0 ==> r@.len() == self.list@.len() + 1,
            forall|i: int| 0 <= i < self.list@.len() ==> #[trigger] r@[i] == self.list@[i].from,
            self.list@.len() > 0 ==> r@[r@.len() - 1]
                == self.list@.last().from.apply_direction_spec(self.list@.last().dir),
    {
        let mut r: Vec<TilePos> = Vec::new();
        let mut i: usize = 0;
        while i < self.list.len()
            invariant
                i <= self.list@.len(),
                r@.len() == i,
                forall|j: int| 0 <= j < i ==> #[trigger] r@[j] == self.list@[j].from,
            decreases self.list@.len() - i,
        {
            let e = self.list[i];
            r.push(e.from);
            i = i + 1;
        }
        if self.list.len() > 0 {
            let last = self.list[self.list.len() - 1];
            r.push(last.from.apply_direction(last.dir));
        }
        r
    }
}

/// The shadow state of one tile of the walker grid.
#[derive(Clone, Copy, PartialEq, Eq, Hash, Debug, Structural)]
pub enum TileShadowState {
    Free,
    Occupied,
    Cycle,
}

impl Default for TileShadowState {
    fn default() -> (r: Self)
        ensures
            r == TileShadowState::Free,
    {
        TileShadowState::Free
    }
}

} // verus!
