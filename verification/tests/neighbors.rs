use game_maps::{GameMapTile, GameTileComputations, GameTileExistHashMap};

fn index_of(tiles: &[GameMapTile]) -> GameTileExistHashMap {
    let pool: Vec<&GameMapTile> = tiles.iter().collect();
    GameTileComputations::create_tile_exist_hash_map(&pool)
}

fn block(width: i64, height: i64) -> Vec<GameMapTile> {
    let mut tiles = Vec::new();
    for y in 0..height {
        for x in 0..width {
            tiles.push([x, y]);
        }
    }
    tiles
}

#[test]
fn key_packs_both_coordinates() {
    assert_eq!(GameTileComputations::xy_to_key(0, 0), (1u128 << 127) + (1u128 << 63));
    assert_eq!(GameTileComputations::xy_to_key(i64::MIN, i64::MIN), 0);
    assert_eq!(GameTileComputations::xy_to_key(i64::MAX, i64::MAX), u128::MAX);
    assert_eq!(GameTileComputations::xy_to_key(i64::MIN, i64::MAX), (1u128 << 64) - 1);
    assert_eq!(GameTileComputations::xy_to_key(-1, 2), (((1u128 << 63) - 1) << 64) + (1u128 << 63) + 2);
    assert_eq!(
        GameTileComputations::xy_to_key(3, -5),
        (((1u128 << 63) + 3) << 64) + (1u128 << 63) - 5
    );
}

#[test]
fn key_of_a_tile_is_the_key_of_its_coordinates() {
    for tile in [[0, 0], [7, -3], [-12, 40], [i64::MAX, i64::MIN]] {
        assert_eq!(
            GameTileComputations::tile_to_key(&tile),
            GameTileComputations::xy_to_key(tile[0], tile[1])
        );
    }
}

#[test]
fn keys_of_different_positions_differ() {
    let positions: [(i64, i64); 12] = [
        (0, 0),
        (1, -2),
        (-1, 2),
        (1, 2),
        (-1, -2),
        (12, 3),
        (1, 23),
        (2, 1),
        (0, 1),
        (1, 0),
        (i64::MAX, i64::MIN),
        (i64::MIN, i64::MAX),
    ];
    for (i, a) in positions.iter().enumerate() {
        for (j, b) in positions.iter().enumerate() {
            let same = GameTileComputations::xy_to_key(a.0, a.1)
                == GameTileComputations::xy_to_key(b.0, b.1);
            assert_eq!(same, i == j);
        }
    }
}

#[test]
fn index_holds_the_tiles_and_nothing_else() {
    let index = index_of(&[[0, 0], [3, -4], [3, -4], [-7, 7]]);
    assert_eq!(index.len(), 3);
    for (x, y) in [(0, 0), (3, -4), (-7, 7)] {
        assert_eq!(index.get(&GameTileComputations::xy_to_key(x, y)), Some(&true));
        assert!(GameTileComputations::tile_exists_in_hash_map(&index, x, y));
    }
    for (x, y) in [(0, 1), (-4, 3), (4, -3), (7, -7), (3, 4), (i64::MAX, i64::MAX)] {
        assert!(!GameTileComputations::tile_exists_in_hash_map(&index, x, y));
    }
}

#[test]
fn index_of_no_tiles_is_empty() {
    let index = index_of(&[]);
    assert!(index.is_empty());
    assert!(!GameTileComputations::tile_exists_in_hash_map(&index, 0, 0));
    assert_eq!(GameTileComputations::count_neighbors(&index, &[0, 0]), (0, 0));
    assert_eq!(GameTileComputations::get_segment_triggers(&index, &[0, 0], 1, 0), (false, false));
}

#[test]
fn neighbors_are_counted_as_sides_then_corners() {
    let index = index_of(&block(3, 3));
    assert_eq!(GameTileComputations::count_neighbors(&index, &[1, 1]), (4, 4));
    assert_eq!(GameTileComputations::count_neighbors(&index, &[0, 0]), (2, 1));
    assert_eq!(GameTileComputations::count_neighbors(&index, &[1, 0]), (3, 2));
    assert_eq!(GameTileComputations::count_neighbors(&index, &[2, 1]), (3, 2));
    // positions that hold no tile have neighbors too
    assert_eq!(GameTileComputations::count_neighbors(&index, &[3, 3]), (0, 1));
    assert_eq!(GameTileComputations::count_neighbors(&index, &[1, -1]), (1, 2));
    assert_eq!(GameTileComputations::count_neighbors(&index, &[5, 5]), (0, 0));
}

#[test]
fn each_neighbor_counts_on_its_own() {
    let sides = [[-1, 0], [1, 0], [0, -1], [0, 1]];
    let corners = [[-1, -1], [-1, 1], [1, -1], [1, 1]];
    for side in sides {
        assert_eq!(GameTileComputations::count_neighbors(&index_of(&[side]), &[0, 0]), (1, 0));
    }
    for corner in corners {
        assert_eq!(GameTileComputations::count_neighbors(&index_of(&[corner]), &[0, 0]), (0, 1));
    }
    // the tile itself is no neighbor, nor is a tile two steps away
    assert_eq!(
        GameTileComputations::count_neighbors(&index_of(&[[0, 0], [2, 0], [0, -2]]), &[0, 0]),
        (0, 0)
    );
}

#[test]
fn neighbors_at_the_ends_of_the_grid() {
    let high = index_of(&[[i64::MAX, i64::MAX], [i64::MAX - 1, i64::MAX], [i64::MAX - 1, i64::MAX - 1]]);
    assert_eq!(GameTileComputations::count_neighbors(&high, &[i64::MAX, i64::MAX]), (1, 1));
    let low = index_of(&[[i64::MIN, i64::MIN], [i64::MIN, i64::MIN + 1], [i64::MAX, i64::MAX]]);
    assert_eq!(GameTileComputations::count_neighbors(&low, &[i64::MIN, i64::MIN]), (1, 0));
    assert_eq!(
        GameTileComputations::get_segment_triggers(&low, &[i64::MAX, i64::MAX], 1, 0),
        (true, false)
    );
    assert_eq!(
        GameTileComputations::get_segment_triggers(&low, &[i64::MIN, i64::MIN], -1, -1),
        (true, false)
    );
    assert_eq!(
        GameTileComputations::get_segment_triggers(&low, &[i64::MIN, i64::MIN], 0, 1),
        (true, true)
    );
    assert_eq!(
        GameTileComputations::get_segment_triggers(&low, &[i64::MIN, i64::MIN], i64::MAX, i64::MAX),
        (true, false)
    );
    assert_eq!(
        GameTileComputations::get_segment_triggers(&low, &[i64::MAX, i64::MAX], i64::MIN, i64::MIN),
        (true, false)
    );
}

#[test]
fn triggers_of_an_exposed_wall() {
    let index = index_of(&[[0, 0], [1, 0]]);
    assert_eq!(GameTileComputations::get_segment_triggers(&index, &[0, 0], 1, 0), (true, true));
    assert_eq!(GameTileComputations::get_segment_triggers(&index, &[1, 0], 1, 0), (true, false));
    assert_eq!(GameTileComputations::get_segment_triggers(&index, &[0, 0], 0, 1), (true, false));
    assert_eq!(GameTileComputations::get_segment_triggers(&index, &[1, 0], -1, 0), (true, true));
}

#[test]
fn triggers_of_a_free_position() {
    let index = index_of(&[[0, 0], [1, 0]]);
    assert_eq!(GameTileComputations::get_segment_triggers(&index, &[-1, 0], 1, 0), (false, false));
    assert_eq!(GameTileComputations::get_segment_triggers(&index, &[2, 0], -1, 0), (false, false));
}

#[test]
fn triggers_of_a_buried_wall() {
    let index = index_of(&block(3, 3));
    assert_eq!(GameTileComputations::get_segment_triggers(&index, &[1, 1], 1, 0), (false, false));
    assert_eq!(GameTileComputations::get_segment_triggers(&index, &[1, 1], 0, 1), (false, false));
    assert_eq!(GameTileComputations::get_segment_triggers(&index, &[0, 1], 1, 0), (true, true));
}

#[test]
fn wall_with_four_sides_or_four_corners_is_exposed() {
    // four sides, no corner
    let plus = index_of(&[[0, 0], [-1, 0], [1, 0], [0, -1], [0, 1]]);
    assert_eq!(GameTileComputations::count_neighbors(&plus, &[0, 0]), (4, 0));
    assert_eq!(GameTileComputations::get_segment_triggers(&plus, &[0, 0], 1, 0), (true, true));
    // four corners, no side
    let cross = index_of(&[[0, 0], [-1, -1], [1, 1], [-1, 1], [1, -1]]);
    assert_eq!(GameTileComputations::count_neighbors(&cross, &[0, 0]), (0, 4));
    assert_eq!(GameTileComputations::get_segment_triggers(&cross, &[0, 0], 1, 0), (true, false));
    assert_eq!(GameTileComputations::get_segment_triggers(&cross, &[0, 0], 1, 1), (true, true));
    // four sides and three corners
    let mut almost = block(3, 3);
    almost.retain(|tile| *tile != [2, 2]);
    let index = index_of(&almost);
    assert_eq!(GameTileComputations::count_neighbors(&index, &[1, 1]), (4, 3));
    assert_eq!(GameTileComputations::get_segment_triggers(&index, &[1, 1], 0, 1), (true, true));
}
