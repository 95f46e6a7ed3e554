//! The walker grid itself: cell coordinates, the entity standing on each
//! cell, and the neighbour links between cells.

use vstd::prelude::*;

use crate::entity::Entity;
use crate::table::lemma_row_major_index_bound;
use crate::walkers::MoveDirection;

verus! {

/// A cell of the walker grid, in wrap-around unsigned coordinates.
#[derive(Clone, Copy, Debug, Hash, PartialEq, Eq, Structural)]
pub struct TilePos(pub u32, pub u32);

impl TilePos {
    /// One step from this cell. A step off the left or top edge wraps to
    /// `u32::MAX`, which every bounds check then rejects.
    pub open spec fn apply_direction_spec(self, dir: MoveDirection) -> TilePos {
        match dir {
            MoveDirection::Left => TilePos((if self.0 == 0 { u32::MAX } else { (self.0 - 1) as u32 }), self.1),
            MoveDirection::Up => TilePos(self.0, (if self.1 == 0 { u32::MAX } else { (self.1 - 1) as u32 })),
            MoveDirection::Right => TilePos((if self.0 == u32::MAX { 0u32 } else { (self.0 + 1) as u32 }), self.1),
            MoveDirection::Down => TilePos(self.0, (if self.1 == u32::MAX { 0u32 } else { (self.1 + 1) as u32 })),
        }
    }

    pub fn apply_direction(&self, dir: MoveDirection) -> (r: TilePos)
        ensures
            r == self.apply_direction_spec(dir),
    {
        match dir {
            MoveDirection::Left => TilePos(self.0.wrapping_sub(1), self.1),
            MoveDirection::Up => TilePos(self.0, self.1.wrapping_sub(1)),
            MoveDirection::Right => TilePos(self.0.wrapping_add(1), self.1),
            MoveDirection::Down => TilePos(self.0, self.1.wrapping_add(1)),
        }
    }
}

/// The four neighbouring tile entities of a cell; an edge cell misses some.
#[derive(Clone, Copy, Debug, PartialEq, Eq)]
pub struct TileNeighbor {
    left: Option<Entity>,
    up: Option<Entity>,
    right: Option<Entity>,
    down: Option<Entity>,
}

impl TileNeighbor {
    pub closed spec fn spec_left(self) -> Option<Entity> {
        self.left
    }

    pub closed spec fn spec_up(self) -> Option<Entity> {
        self.up
    }

    pub closed spec fn spec_right(self) -> Option<Entity> {
        self.right
    }

    pub closed spec fn spec_down(self) -> Option<Entity> {
        self.down
    }

    pub fn new() -> (r: Self)
        ensures
            r.spec_left() is None,
            r.spec_up() is None,
            r.spec_right() is None,
            r.spec_down() is None,
    {
        TileNeighbor { left: None, up: None, right: None, down: None }
    }

    pub fn left(&self) -> (r: Option<Entity>)
        ensures
            r == self.spec_left(),
    {
        self.left
    }

    pub fn up(&self) -> (r: Option<Entity>)
        ensures
            r == self.spec_up(),
    {
        self.up
    }

    pub fn right(&self) -> (r: Option<Entity>)
        ensures
            r == self.spec_right(),
    {
        self.right
    }

    pub fn down(&self) -> (r: Option<Entity>)
        ensures
            r == self.spec_down(),
    {
        self.down
    }
}

/// A dense mapping from grid cells to the entities standing for the tiles,
/// stored row-major.
#[derive(Clone, Debug)]
pub struct TileStorage {
    width: u32,
    height: u32,
    tiles: Vec<Entity>,
}

impl TileStorage {
    pub closed spec fn spec_width(self) -> int {
        self.width as int
    }

    pub closed spec fn spec_height(self) -> int {
        self.height as int
    }

    pub closed spec fn wf(self) -> bool {
        self.tiles.len() == self.spec_width() * self.spec_height()
    }

    /// The tile entity at `(x, y)`.
    pub closed spec fn tile_at_spec(self, x: int, y: int) -> Entity {
        self.tiles@[x + y * self.spec_width()]
    }

    pub open spec fn in_bounds(self, x: int, y: int) -> bool {
        0 <= x < self.spec_width() && 0 <= y < self.spec_height()
    }

    /// Wraps the given entities, one per cell, row-major.
    pub fn new(width: u32, height: u32, tiles: Vec<Entity>) -> (r: Self)
        requires
            tiles.len() == width * height,
        ensures
            r.wf(),
            r.spec_width() == width,
            r.spec_height() == height,
            forall|x: int, y: int| r.in_bounds(x, y)
                ==> #[trigger] r.tile_at_spec(x, y) == tiles@[x + y * width],
    {
        TileStorage { width, height, tiles }
    }

    pub fn width(&self) -> (r: u32)
        ensures
            r == self.spec_width(),
    {
        self.width
    }

    pub fn height(&self) -> (r: u32)
        ensures
            r == self.spec_height(),
    {
        self.height
    }

    pub fn get_tile_at_pos(&self, x: u32, y: u32) -> (r: Option<Entity>)
        requires
            self.wf(),
        ensures
            match r {
                Some(e) => self.in_bounds(x as int, y as int) && e == self.tile_at_spec(x as int, y as int),
                None => !self.in_bounds(x as int, y as int),
            },
    {
        if x >= self.width {
            return None;
        }
        if y >= self.height {
            return None;
        }
        proof {
            lemma_row_major_index_bound(x as int, y as int, self.spec_width(), self.spec_height());
        }
        let idx = (x as usize) + (y as usize) * (self.width as usize);
        Some(self.tiles[idx])
    }

    pub fn get_tile_at(&self, pos: TilePos) -> (r: Option<Entity>)
        requires
            self.wf(),
        ensures
            match r {
                Some(e) => self.in_bounds(pos.0 as int, pos.1 as int)
                    && e == self.tile_at_spec(pos.0 as int, pos.1 as int),
                None => !self.in_bounds(pos.0 as int, pos.1 as int),
            },
    {
        self.get_tile_at_pos(pos.0, pos.1)
    }
}

/// Lays out the given fresh entities as a `width x height` tile grid and
/// links each cell to its four neighbours; the neighbour record for
/// `(x, y)` sits at index `x + y * width`.
pub fn spawn_tiles(width: u32, height: u32, tiles: Vec<Entity>) -> (r: (TileStorage, Vec<TileNeighbor>))
    requires
        tiles.len() == width * height,
    ensures
        r.0.wf(),
        r.0.spec_width() == width,
        r.0.spec_height() == height,
        forall|x: int, y: int| r.0.in_bounds(x, y)
            ==> #[trigger] r.0.tile_at_spec(x, y) == tiles@[x + y * width],
        r.1@.len() == width * height,
        forall|x: u32, y: u32| r.0.in_bounds(x as int, y as int) ==> {
            let n = #[trigger] r.1@[x + y * width];
            &&& n.spec_left() == spec_neighbor(r.0, TilePos(x, y), MoveDirection::Left)
            &&& n.spec_up() == spec_neighbor(r.0, TilePos(x, y), MoveDirection::Up)
            &&& n.spec_right() == spec_neighbor(r.0, TilePos(x, y), MoveDirection::Right)
            &&& n.spec_down() == spec_neighbor(r.0, TilePos(x, y), MoveDirection::Down)
        },
{
    let tile_storage = TileStorage::new(width, height, tiles);

    let mut neighbors: Vec<TileNeighbor> = Vec::new();
    let mut y: u32 = 0;
    while y < height
        invariant
            tile_storage.wf(),
            tile_storage.spec_width() == width,
            tile_storage.spec_height() == height,
            y <= height,
            neighbors@.len() == y * width,
            forall|i: u32, j: u32| tile_storage.in_bounds(i as int, j as int) && j < y ==> {
                let n = #[trigger] neighbors@[i + j * width];
                &&& n.spec_left() == spec_neighbor(tile_storage, TilePos(i, j), MoveDirection::Left)
                &&& n.spec_up() == spec_neighbor(tile_storage, TilePos(i, j), MoveDirection::Up)
                &&& n.spec_right() == spec_neighbor(tile_storage, TilePos(i, j), MoveDirection::Right)
                &&& n.spec_down() == spec_neighbor(tile_storage, TilePos(i, j), MoveDirection::Down)
            },
        decreases height - y,
    {
        let mut x: u32 = 0;
        while x < width
            invariant
                tile_storage.wf(),
                tile_storage.spec_width() == width,
                tile_storage.spec_height() == height,
                y < height,
                x <= width,
                neighbors@.len() == y * width + x,
                forall|i: u32, j: u32| tile_storage.in_bounds(i as int, j as int)
                    && (j < y || (j == y && i < x)) ==> {
                    let n = #[trigger] neighbors@[i + j * width];
                    &&& n.spec_left() == spec_neighbor(tile_storage, TilePos(i, j), MoveDirection::Left)
                    &&& n.spec_up() == spec_neighbor(tile_storage, TilePos(i, j), MoveDirection::Up)
                    &&& n.spec_right() == spec_neighbor(tile_storage, TilePos(i, j), MoveDirection::Right)
                    &&& n.spec_down() == spec_neighbor(tile_storage, TilePos(i, j), MoveDirection::Down)
                },
            decreases width - x,
        {
            let pos = TilePos(x, y);
            let n = TileNeighbor {
                left: tile_storage.get_tile_at(pos.apply_direction(MoveDirection::Left)),
                up: tile_storage.get_tile_at(pos.apply_direction(MoveDirection::Up)),
                right: tile_storage.get_tile_at(pos.apply_direction(MoveDirection::Right)),
                down: tile_storage.get_tile_at(pos.apply_direction(MoveDirection::Down)),
            };
            proof {
                lemma_row_major_index_bound(x as int, y as int, width as int, height as int);
            }
            neighbors.push(n);
            proof {
                assert forall|i: u32, j: u32| tile_storage.in_bounds(i as int, j as int)
                    && (j < y || (j == y && i < x + 1)) implies {
                    let nn = #[trigger] neighbors@[i + j * width];
                    &&& nn.spec_left() == spec_neighbor(tile_storage, TilePos(i, j), MoveDirection::Left)
                    &&& nn.spec_up() == spec_neighbor(tile_storage, TilePos(i, j), MoveDirection::Up)
                    &&& nn.spec_right() == spec_neighbor(tile_storage, TilePos(i, j), MoveDirection::Right)
                    &&& nn.spec_down() == spec_neighbor(tile_storage, TilePos(i, j), MoveDirection::Down)
                } by {
                    crate::table::lemma_row_major_index_injective(
                        i as int, j as int, x as int, y as int, width as int);
                    if i == x && j == y {
                        assert(neighbors@[i + j * width] == n);
                    } else {
                        assert(i + j * width < y * width + x) by {
                            lemma_done_cells_before(i as int, j as int, x as int, y as int, width as int);
                        }
                    }
                }
            }
            x = x + 1;
        }
        proof {
            assert((y + 1) * width == y * width + width) by (nonlinear_arith);
        }
        y = y + 1;
    }
    proof {
        assert(height * width == width * height) by (nonlinear_arith);
    }
    (tile_storage, neighbors)
}

/// The tile entity one step from `pos`, if that step stays on the grid.
pub open spec fn spec_neighbor(st: TileStorage, pos: TilePos, dir: MoveDirection) -> Option<Entity> {
    let q = pos.apply_direction_spec(dir);
    if st.in_bounds(q.0 as int, q.1 as int) {
        Some(st.tile_at_spec(q.0 as int, q.1 as int))
    } else {
        None
    }
}

/// A cell scanned before `(x, y)` in row-major order has a smaller index.
proof fn lemma_done_cells_before(i: int, j: int, x: int, y: int, w: int)
    by (nonlinear_arith)
    requires
        0 <= i < w,
        0 <= j,
        0 <= x,
        j < y || (j == y && i < x),
    ensures
        i + j * w < y * w + x,
{
}

} // verus!
