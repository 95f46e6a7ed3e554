use vstd::prelude::*;

use crate::entity::Entity;
use crate::entity::ent_from_id;
use crate::logic::Direction;
use crate::table::lemma_row_major_index_bound;

verus! {

/// Marks an entity as a tile of the grid.
#[derive(Debug, Clone, Copy, PartialEq, Eq, Structural)]
pub struct TileTag;

/// The dimensions of the tile grid.
#[derive(Debug, Clone, Copy, PartialEq, Eq, Structural)]
pub struct TileConfig {
    pub width: u32,
    pub height: u32,
}

/// The grid cell that a tile entity's index encodes. Tile indices start at
/// one and run row-major.
pub open spec fn tile_pos_spec(cfg: TileConfig, e: Entity) -> (int, int) {
    ((e.id - 1) % (cfg.width as int), (e.id - 1) / (cfg.width as int))
}

/// The tile entity of a cell, when the cell lies on the grid.
pub open spec fn tile_at_spec(cfg: TileConfig, x: int, y: int) -> Option<Entity> {
    if 0 <= x < cfg.width && 0 <= y < cfg.height {
        Some(Entity { gen: 1, id: (y * cfg.width + x + 1) as u32 })
    } else {
        None
    }
}

/// The cell a tile entity stands on.
pub fn tile_id_to_pos(cfg: TileConfig, e: Entity) -> (r: (u32, u32))
    requires
        cfg.width > 0,
        e.id >= 1,
    ensures
        (r.0 as int, r.1 as int) == tile_pos_spec(cfg, e),
{
    let id = e.id() - 1;
    (id % cfg.width, id / cfg.width)
}

/// The tile entity of a cell, without a bounds check: index one plus the
/// cell's row-major rank.
pub fn pos_to_tile_id(cfg: TileConfig, x: u32, y: u32) -> (r: Entity)
    requires
        y * cfg.width + x + 1 <= u32::MAX,
    ensures
        r.gen == 1,
        r.id == y * cfg.width + x + 1,
{
    ent_from_id(y * cfg.width + x + 1)
}

/// All tile entities of the grid, row-major: indices `1 ..= width * height`.
pub fn tile_ent_iter(cfg: TileConfig) -> (r: Vec<Entity>)
    requires
        cfg.width * cfg.height <= u32::MAX,
    ensures
        r@.len() == cfg.width * cfg.height,
        forall|k: int| 0 <= k < r@.len()
            ==> (#[trigger] r@[k]).id == k + 1 && r@[k].gen == 1,
{
    let mut r: Vec<Entity> = Vec::new();
    let mut y: u32 = 0;
    while y < cfg.height
        invariant
            cfg.width * cfg.height <= u32::MAX,
            y <= cfg.height,
            r@.len() == y * cfg.width,
            forall|k: int| 0 <= k < r@.len()
                ==> (#[trigger] r@[k]).id == k + 1 && r@[k].gen == 1,
        decreases cfg.height - y,
    {
        let mut x: u32 = 0;
        while x < cfg.width
            invariant
                cfg.width * cfg.height <= u32::MAX,
                y < cfg.height,
                x <= cfg.width,
                r@.len() == y * cfg.width + x,
                forall|k: int| 0 <= k < r@.len()
                    ==> (#[trigger] r@[k]).id == k + 1 && r@[k].gen == 1,
            decreases cfg.width - x,
        {
            proof {
                lemma_row_major_index_bound(
                    x as int, y as int, cfg.width as int, cfg.height as int);
            }
            let e = pos_to_tile_id(cfg, x, y);
            r.push(e);
            x = x + 1;
        }
        proof {
            assert((y + 1) * cfg.width == y * cfg.width + cfg.width) by (nonlinear_arith);
        }
        y = y + 1;
    }
    proof {
        assert(cfg.height * cfg.width == cfg.width * cfg.height) by (nonlinear_arith);
    }
    r
}

/// The tile entity at `(x, y)`, or `None` off the grid.
pub fn get_tile_at(cfg: TileConfig, x: u32, y: u32) -> (r: Option<Entity>)
    requires
        cfg.width * cfg.height <= u32::MAX,
    ensures
        r == tile_at_spec(cfg, x as int, y as int),
{
    if x >= cfg.width {
        return None;
    }
    if y >= cfg.height {
        return None;
    }
    proof {
        lemma_row_major_index_bound(x as int, y as int, cfg.width as int, cfg.height as int);
    }
    Some(pos_to_tile_id(cfg, x, y))
}

/// The tile entity one step from `tile`, or `None` when the step leaves
/// the grid.
pub fn get_tile_neighbor(cfg: TileConfig, tile: Entity, dir: Direction) -> (r: Option<Entity>)
    requires
        cfg.width > 0,
        tile.id >= 1,
        cfg.width * cfg.height <= u32::MAX,
    ensures
        ({
            let p = tile_pos_spec(cfg, tile);
            r == tile_at_spec(cfg, p.0 + dir.dx(), p.1 + dir.dy())
        }),
    {
        let (x, y) = tile_id_to_pos(cfg, tile);
        let (nx, ny) = dir.apply(x, y);
        let r = get_tile_at(cfg, nx, ny);
        proof {
            let p = tile_pos_spec(cfg, tile);
            assert(0 <= p.0 < cfg.width) by (nonlinear_arith)
                requires p.0 == (tile.id - 1) % (cfg.width as int), cfg.width > 0;
            assert(0 <= p.1) by (nonlinear_arith)
                requires p.1 == (tile.id - 1) / (cfg.width as int), cfg.width > 0, tile.id >= 1;
            if dir == Direction::Right {
                assert(x < u32::MAX);
            }
            if dir == Direction::Down {
                if y == u32::MAX {
                    assert(!(0 <= p.1 + 1 < cfg.height));
                    assert(ny == 0);
                    assert(r == tile_at_spec(cfg, p.0 + dir.dx(), p.1 + dir.dy()));
                }
            }
        }
        r
    }

/// The neighbouring tile entities in the order left, up, right, down,
/// skipping the directions that leave the grid.
pub fn get_tile_neighbors(cfg: TileConfig, tile: Entity) -> (r: Vec<Entity>)
    requires
        cfg.width > 0,
        tile.id >= 1,
        cfg.width * cfg.height <= u32::MAX,
    ensures
        ({
            let p = tile_pos_spec(cfg, tile);
            r@ == opt_seq(tile_at_spec(cfg, p.0 - 1, p.1))
                + opt_seq(tile_at_spec(cfg, p.0, p.1 - 1))
                + opt_seq(tile_at_spec(cfg, p.0 + 1, p.1))
                + opt_seq(tile_at_spec(cfg, p.0, p.1 + 1))
        }),
{
    let mut r: Vec<Entity> = Vec::new();
    match get_tile_neighbor(cfg, tile, Direction::Left) {
        Some(e) => r.push(e),
        None => {},
    }
    match get_tile_neighbor(cfg, tile, Direction::Up) {
        Some(e) => r.push(e),
        None => {},
    }
    match get_tile_neighbor(cfg, tile, Direction::Right) {
        Some(e) => r.push(e),
        None => {},
    }
    match get_tile_neighbor(cfg, tile, Direction::Down) {
        Some(e) => r.push(e),
        None => {},
    }
    proof {
        let p = tile_pos_spec(cfg, tile);
        assert(r@ =~= opt_seq(tile_at_spec(cfg, p.0 - 1, p.1))
            + opt_seq(tile_at_spec(cfg, p.0, p.1 - 1))
            + opt_seq(tile_at_spec(cfg, p.0 + 1, p.1))
            + opt_seq(tile_at_spec(cfg, p.0, p.1 + 1)));
    }
    r
}

/// A sequence of the value an option holds, if any.
pub open spec fn opt_seq(o: Option<Entity>) -> Seq<Entity> {
    match o {
        Some(e) => seq![e],
        None => Seq::empty(),
    }
}

/// The cell a tile entity stands on.
pub fn get_tile_pos(cfg: TileConfig, tile: Entity) -> (r: (u32, u32))
    requires
        cfg.width > 0,
        tile.id >= 1,
    ensures
        (r.0 as int, r.1 as int) == tile_pos_spec(cfg, tile),
{
    tile_id_to_pos(cfg, tile)
}

} // verus!
