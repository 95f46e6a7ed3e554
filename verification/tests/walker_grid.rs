use sokoban_kernel::entity::{ent_from_id, Entity};
use sokoban_kernel::shadow::{PlayerMoveHistory, PlayerMoveHistoryEntry, TileShadowState};
use sokoban_kernel::tiles::{spawn_tiles, TileNeighbor, TilePos, TileStorage};
use sokoban_kernel::walkers::{JustMoved, MoveDirection, PlayerState, TileType, TreasureState, WalkerType};

fn fresh_entities(n: u32) -> Vec<Entity> {
    (0..n).map(ent_from_id).collect()
}

#[test]
fn directions_reverse() {
    assert_eq!(MoveDirection::Left.reverse(), MoveDirection::Right);
    assert_eq!(MoveDirection::Right.reverse(), MoveDirection::Left);
    assert_eq!(MoveDirection::Up.reverse(), MoveDirection::Down);
    assert_eq!(MoveDirection::Down.reverse(), MoveDirection::Up);
}

#[test]
fn walker_nullness() {
    assert!(WalkerType::Null.is_null());
    assert!(!WalkerType::Player.is_null());
    assert!(!WalkerType::Box.is_null());
    assert_eq!(TileType::Void, TileType::Void);
}

#[test]
fn tile_pos_wraps_at_the_edges() {
    let p = TilePos(0, 0);
    assert_eq!(p.apply_direction(MoveDirection::Left), TilePos(u32::MAX, 0));
    assert_eq!(p.apply_direction(MoveDirection::Up), TilePos(0, u32::MAX));
    assert_eq!(p.apply_direction(MoveDirection::Right), TilePos(1, 0));
    assert_eq!(p.apply_direction(MoveDirection::Down), TilePos(0, 1));
    let q = TilePos(3, 4);
    assert_eq!(
        q.apply_direction(MoveDirection::Left).apply_direction(MoveDirection::Right),
        q
    );
}

#[test]
fn tile_storage_bounds() {
    let st = TileStorage::new(3, 2, fresh_entities(6));
    assert_eq!(st.width(), 3);
    assert_eq!(st.height(), 2);
    assert_eq!(st.get_tile_at_pos(0, 0), Some(ent_from_id(0)));
    assert_eq!(st.get_tile_at_pos(2, 1), Some(ent_from_id(5)));
    assert_eq!(st.get_tile_at_pos(3, 0), None);
    assert_eq!(st.get_tile_at_pos(0, 2), None);
    assert_eq!(st.get_tile_at(TilePos(0u32.wrapping_sub(1), 0)), None);
}

#[test]
fn spawned_tiles_link_their_neighbors() {
    let (st, neighbors) = spawn_tiles(3, 3, fresh_entities(9));
    assert_eq!(neighbors.len(), 9);
    let at = |x: u32, y: u32| -> &TileNeighbor { &neighbors[(x + y * 3) as usize] };
    // The corner cell misses its outward neighbours.
    assert_eq!(at(0, 0).left(), None);
    assert_eq!(at(0, 0).up(), None);
    assert_eq!(at(0, 0).right(), st.get_tile_at(TilePos(1, 0)));
    assert_eq!(at(0, 0).down(), st.get_tile_at(TilePos(0, 1)));
    // The centre cell has all four.
    assert_eq!(at(1, 1).left(), st.get_tile_at(TilePos(0, 1)));
    assert_eq!(at(1, 1).up(), st.get_tile_at(TilePos(1, 0)));
    assert_eq!(at(1, 1).right(), st.get_tile_at(TilePos(2, 1)));
    assert_eq!(at(1, 1).down(), st.get_tile_at(TilePos(1, 2)));
    let n = TileNeighbor::new();
    assert_eq!(n.left(), None);
}

#[test]
fn history_lists_visited_cells() {
    let mut hist = PlayerMoveHistory::new();
    assert!(hist.iter_vst_poses().is_empty());
    hist.list.push(PlayerMoveHistoryEntry { from: TilePos(1, 1), dir: MoveDirection::Right });
    hist.list.push(PlayerMoveHistoryEntry { from: TilePos(2, 1), dir: MoveDirection::Down });
    let poses = hist.iter_vst_poses();
    assert_eq!(poses, vec![TilePos(1, 1), TilePos(2, 1), TilePos(2, 2)]);
}

#[test]
fn small_states_hold_their_values() {
    assert_eq!(PlayerState::new().new_direction, None);
    assert_eq!(JustMoved(true).0, true);
    assert_eq!(TreasureState(false).0, false);
    assert_eq!(TileShadowState::default(), TileShadowState::Free);
    assert_ne!(TileShadowState::Occupied, TileShadowState::Cycle);
}
