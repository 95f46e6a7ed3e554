//! The entity-backed tile grid: directions plus the arithmetic that maps
//! grid cells to tile entity indices and back.

use vstd::prelude::*;

pub mod tile;

verus! {

/// A single-step move direction on the entity-backed tile grid.
#[derive(Debug, Clone, Copy, PartialEq, Eq, Hash, Structural)]
pub enum Direction {
    Left,
    Up,
    Right,
    Down,
}

impl Direction {
    /// Horizontal displacement of one step.
    pub open spec fn dx(self) -> int {
        match self {
            Direction::Left => -1,
            Direction::Right => 1,
            _ => 0,
        }
    }

    /// Vertical displacement of one step.
    pub open spec fn dy(self) -> int {
        match self {
            Direction::Up => -1,
            Direction::Down => 1,
            _ => 0,
        }
    }

    /// One step from `(x, y)`, in wrap-around coordinates: a step off the
    /// left or top edge wraps to `u32::MAX`, which bounds checks reject.
    pub open spec fn apply_spec(self, x: u32, y: u32) -> (u32, u32) {
        match self {
            Direction::Left => ((if x == 0 { u32::MAX } else { (x - 1) as u32 }), y),
            Direction::Up => (x, (if y == 0 { u32::MAX } else { (y - 1) as u32 })),
            Direction::Right => ((if x == u32::MAX { 0u32 } else { (x + 1) as u32 }), y),
            Direction::Down => (x, (if y == u32::MAX { 0u32 } else { (y + 1) as u32 })),
        }
    }

    pub fn apply(&self, x: u32, y: u32) -> (r: (u32, u32))
        ensures
            r == self.apply_spec(x, y),
    {
        match self {
            Direction::Left => (x.wrapping_sub(1), y),
            Direction::Up => (x, y.wrapping_sub(1)),
            Direction::Right => (x.wrapping_add(1), y),
            Direction::Down => (x, y.wrapping_add(1)),
        }
    }
}

} // verus!
