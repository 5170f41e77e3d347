use game_maps::segments::scan_pass;
use game_maps::{GameMapSegment, GameMapTile, GameTileComputations, GameTileExistHashMap};

fn walls_of(tiles: &[GameMapTile]) -> GameTileExistHashMap {
    let pool: Vec<&GameMapTile> = tiles.iter().collect();
    GameTileComputations::create_tile_exist_hash_map(&pool)
}

fn scan(
    tiles: &[GameMapTile],
    horizontal: bool,
    first: i64,
    last: i64,
    lo: i64,
    hi: i64,
) -> Vec<GameMapSegment> {
    let mut segments = Vec::new();
    scan_pass(&walls_of(tiles), horizontal, first, last, lo, hi, &mut segments);
    segments
}

const ROW: [GameMapTile; 4] = [[0, 0], [1, 0], [2, 0], [3, 0]];

const SHAPES: [GameMapTile; 8] =
    [[0, 0], [1, 0], [3, 0], [4, 0], [0, 1], [0, 2], [4, 2], [5, 2]];

#[test]
fn run_is_closed_by_the_first_free_cell() {
    assert_eq!(scan(&ROW, true, 0, 0, 0, 5), vec![[0, 0, 3, 0]]);
    assert_eq!(scan(&ROW, true, 0, 0, -3, 4), vec![[0, 0, 3, 0]]);
}

#[test]
fn run_that_reaches_the_last_place_is_dropped() {
    assert_eq!(scan(&ROW, true, 0, 0, 0, 3), Vec::<GameMapSegment>::new());
    assert_eq!(scan(&ROW, true, 0, 0, 0, 2), Vec::<GameMapSegment>::new());
}

#[test]
fn run_starts_no_earlier_than_the_scan() {
    assert_eq!(scan(&ROW, true, 0, 0, 1, 5), vec![[1, 0, 3, 0]]);
}

#[test]
fn row_is_no_run_of_its_columns() {
    assert_eq!(scan(&ROW, false, 0, 3, -1, 1), Vec::<GameMapSegment>::new());
}

#[test]
fn scan_of_no_line_or_of_no_place_finds_nothing() {
    assert_eq!(scan(&ROW, true, 1, 0, 0, 5), Vec::<GameMapSegment>::new());
    assert_eq!(scan(&ROW, true, 0, 0, 5, 0), Vec::<GameMapSegment>::new());
    assert_eq!(scan(&[], true, -2, 2, -2, 2), Vec::<GameMapSegment>::new());
}

#[test]
fn lines_are_scanned_one_after_the_other() {
    assert_eq!(
        scan(&SHAPES, true, 0, 2, -1, 7),
        vec![[0, 0, 1, 0], [3, 0, 4, 0], [4, 2, 5, 2]]
    );
    assert_eq!(scan(&SHAPES, false, -1, 6, -1, 4), vec![[0, 0, 0, 2]]);
    assert_eq!(scan(&SHAPES, true, 2, 2, 4, 6), vec![[4, 2, 5, 2]]);
}

#[test]
fn segments_are_appended_to_those_given() {
    let mut segments: Vec<GameMapSegment> = vec![[9, 9, 9, 9]];
    scan_pass(&walls_of(&ROW), true, 0, 0, 0, 5, &mut segments);
    assert_eq!(segments, vec![[9, 9, 9, 9], [0, 0, 3, 0]]);
    scan_pass(&walls_of(&ROW), false, 0, 3, 0, 5, &mut segments);
    assert_eq!(segments, vec![[9, 9, 9, 9], [0, 0, 3, 0]]);
}
