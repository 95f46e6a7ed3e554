use std::collections::HashSet;

use sokoban_kernel::logic::tile::{
    get_tile_at, get_tile_neighbor, get_tile_pos, pos_to_tile_id, tile_ent_iter, tile_id_to_pos,
    TileConfig,
};
use sokoban_kernel::logic::Direction;

const SIZES: [(u32, u32); 8] = [
    (10, 10),
    (10, 20),
    (20, 10),
    (100, 2),
    (2, 100),
    (1, 1),
    (4, 6),
    (6, 10),
];

#[test]
fn tile_id_unique() {
    for (width, height) in SIZES {
        let cfg = TileConfig { width, height };

        let set = tile_ent_iter(cfg).into_iter().collect::<HashSet<_>>();

        assert_eq!(set.len(), (width * height) as usize);
    }
}

#[test]
fn tile_id_to_pos_same() {
    for (width, height) in SIZES {
        let cfg = TileConfig { width, height };

        for x in 0..width {
            for y in 0..height {
                assert_eq!((x, y), tile_id_to_pos(cfg, pos_to_tile_id(cfg, x, y)))
            }
        }
    }
}

#[test]
fn tile_pos_to_id_same() {
    for (width, height) in SIZES {
        let cfg = TileConfig { width, height };

        for e in tile_ent_iter(cfg) {
            let (x, y) = tile_id_to_pos(cfg, e);
            assert_eq!(e, pos_to_tile_id(cfg, x, y));
        }
    }
}

#[test]
fn get_tile_pos_val() {
    for (width, height) in SIZES {
        let cfg = TileConfig { width, height };

        for e in tile_ent_iter(cfg) {
            assert_eq!(tile_id_to_pos(cfg, e), get_tile_pos(cfg, e));
        }
    }
}

#[test]
fn tile_direction() {
    for (width, height) in SIZES {
        let cfg = TileConfig { width, height };

        for e in tile_ent_iter(cfg) {
            let le = get_tile_neighbor(cfg, e, Direction::Left);
            if let Some(le) = le {
                assert_eq!(
                    e,
                    get_tile_neighbor(cfg, le, Direction::Right).expect("Right neighbor must exist")
                );
            }

            let ue = get_tile_neighbor(cfg, e, Direction::Up);
            if let Some(ue) = ue {
                assert_eq!(
                    e,
                    get_tile_neighbor(cfg, ue, Direction::Down).expect("Down neighbor must exist")
                );
            }

            let re = get_tile_neighbor(cfg, e, Direction::Right);
            if let Some(re) = re {
                assert_eq!(
                    e,
                    get_tile_neighbor(cfg, re, Direction::Left).expect("Left neighbor must exist")
                );
            }

            let de = get_tile_neighbor(cfg, e, Direction::Down);
            if let Some(de) = de {
                assert_eq!(
                    e,
                    get_tile_neighbor(cfg, de, Direction::Up).expect("Left neighbor must exist")
                );
            }
        }
    }
}

#[test]
fn dir_inv() {
    for x in 0..1000 {
        for y in 0..1000 {
            let (lx, ly) = Direction::Left.apply(x, y);
            let (ux, uy) = Direction::Up.apply(x, y);
            let (rx, ry) = Direction::Right.apply(x, y);
            let (dx, dy) = Direction::Down.apply(x, y);

            assert_eq!((x, y), Direction::Right.apply(lx, ly));
            assert_eq!((x, y), Direction::Down.apply(ux, uy));
            assert_eq!((x, y), Direction::Left.apply(rx, ry));
            assert_eq!((x, y), Direction::Up.apply(dx, dy));
        }
    }
}

#[test]
fn tile_at_edges() {
    let cfg = TileConfig {
        width: 4,
        height: 3,
    };
    assert_eq!(get_tile_at(cfg, 0, 0), Some(pos_to_tile_id(cfg, 0, 0)));
    assert_eq!(get_tile_at(cfg, 3, 2), Some(pos_to_tile_id(cfg, 3, 2)));
    assert_eq!(get_tile_at(cfg, 4, 0), None);
    assert_eq!(get_tile_at(cfg, 0, 3), None);
    assert_eq!(get_tile_at(cfg, 0u32.wrapping_sub(1), 0), None);
}
