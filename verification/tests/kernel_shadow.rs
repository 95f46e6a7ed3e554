use sokoban_kernel::kernel::{Direction, SokobanKernel, ThingEntry, ThingKind, Tile};

fn floor(width: usize, height: usize) -> Vec<Tile> {
    vec![Tile::Floor; width * height]
}

fn player(x: usize, y: usize, id: usize) -> (usize, usize, usize, ThingEntry) {
    (x, y, id, ThingEntry { kind: ThingKind::Player })
}

#[test]
fn shadow_holds_back_latest_three_moves() {
    let mut k = SokobanKernel::from_map(5, 5, floor(5, 5), vec![player(0, 0, 1)]);
    assert_eq!(k.move_player(Direction::Right), Ok(())); // to (1,0)
    assert_eq!(k.move_player(Direction::Right), Ok(())); // to (2,0)
    assert_eq!(k.move_player(Direction::Down), Ok(())); // to (2,1)
    // Only three moves so far: every shadow cell is still clear.
    for y in 0..5 {
        for x in 0..5 {
            assert_eq!(k.get_shadow(x, y), Some(false), "({x}, {y})");
        }
    }
    assert_eq!(k.move_player(Direction::Down), Ok(())); // to (2,2)
    // Four moves: exactly the first move's target cell is marked.
    assert_eq!(k.get_shadow(1, 0), Some(true));
    assert_eq!(k.get_shadow(2, 0), Some(false));
    assert_eq!(k.get_shadow(2, 1), Some(false));
}

#[test]
fn shadow_rolls_back_a_closed_loop() {
    // Walk a 2x2 loop back to the start, then three filler moves so the
    // loop's cells pass the three-entry holdback. The rollback discards the
    // loop, leaving only its closing cell marked.
    let mut k = SokobanKernel::from_map(5, 5, floor(5, 5), vec![player(1, 1, 1)]);
    assert_eq!(k.move_player(Direction::Right), Ok(())); // (2,1)
    assert_eq!(k.move_player(Direction::Down), Ok(())); // (2,2)
    assert_eq!(k.move_player(Direction::Left), Ok(())); // (1,2)
    assert_eq!(k.move_player(Direction::Up), Ok(())); // (1,1)
    assert_eq!(k.move_player(Direction::Right), Ok(())); // (2,1) again
    assert_eq!(k.move_player(Direction::Down), Ok(())); // (2,2)
    assert_eq!(k.move_player(Direction::Left), Ok(())); // (1,2)
    assert_eq!(k.move_player(Direction::Up), Ok(())); // (1,1)
    // The walked prefix is (2,1),(2,2),(1,2),(1,1),(2,1): the revisit of
    // (2,1) rolls the loop back.
    assert_eq!(k.get_shadow(2, 1), Some(true));
    assert_eq!(k.get_shadow(2, 2), Some(false));
    assert_eq!(k.get_shadow(1, 2), Some(false));
    assert_eq!(k.get_shadow(1, 1), Some(false));
}
