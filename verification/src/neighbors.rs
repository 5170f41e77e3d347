use crate::tile::{borrowed_positions, in_grid, occupied, tile_pos, GameMapTile};
use std::collections::HashMap;
use vstd::prelude::*;

verus! {

/// Presence index over tile positions: a position is present when its key is.
pub type GameTileExistHashMap = HashMap<u128, bool>;

/// Neighbor queries on a presence index.
pub struct GameTileComputations;

/// The key under which the position `(x, y)` is stored: both coordinates are
/// shifted to be non-negative and packed side by side.
pub open spec fn key_of(x: int, y: int) -> int {
    (x + 0x8000_0000_0000_0000) * 0x1_0000_0000_0000_0000 + (y + 0x8000_0000_0000_0000)
}

/// The set of positions that an index holds.
pub open spec fn index_set(m: Map<u128, bool>) -> Set<(int, int)> {
    Set::new(
        |p: (int, int)| in_grid(p.0) && in_grid(p.1) && m.contains_key(key_of(p.0, p.1) as u128),
    )
}

/// 1 if the position is in the set, else 0.
pub open spec fn present(walls: Set<(int, int)>, x: int, y: int) -> int {
    if walls.contains((x, y)) {
        1
    } else {
        0
    }
}

/// How many of the four edge-adjacent positions of `(x, y)` are in the set.
pub open spec fn side_count(walls: Set<(int, int)>, x: int, y: int) -> int {
    present(walls, x - 1, y) + present(walls, x + 1, y) + present(walls, x, y - 1) + present(
        walls,
        x,
        y + 1,
    )
}

/// How many of the four diagonal positions of `(x, y)` are in the set.
pub open spec fn corner_count(walls: Set<(int, int)>, x: int, y: int) -> int {
    present(walls, x - 1, y - 1) + present(walls, x - 1, y + 1) + present(walls, x + 1, y - 1)
        + present(walls, x + 1, y + 1)
}

/// A wall tile is exposed unless all four sides and all four corners are walls.
pub open spec fn exposed(walls: Set<(int, int)>, x: int, y: int) -> bool {
    walls.contains((x, y)) && (side_count(walls, x, y) <= 3 || corner_count(walls, x, y) <= 3)
}

/// An exposed tile carries a run on in direction `(dx, dy)` when the tile next
/// to it in that direction is a wall.
pub open spec fn continues_run(walls: Set<(int, int)>, x: int, y: int, dx: int, dy: int) -> bool {
    exposed(walls, x, y) && walls.contains((x + dx, y + dy))
}

/// Distinct positions of the grid have distinct keys, and every key fits `u128`.
pub proof fn lemma_key_injective(x1: int, y1: int, x2: int, y2: int)
    requires
        in_grid(x1),
        in_grid(y1),
        in_grid(x2),
        in_grid(y2),
    ensures
        0 <= key_of(x1, y1) <= u128::MAX,
        key_of(x1, y1) == key_of(x2, y2) <==> (x1 == x2 && y1 == y2),
{
}

/// Every key is the key of a position of the grid.
pub proof fn lemma_key_onto(k: u128)
    ensures
        exists|x: int, y: int| in_grid(x) && in_grid(y) && #[trigger] key_of(x, y) == k,
{
    let x = k / 0x1_0000_0000_0000_0000 - 0x8000_0000_0000_0000;
    let y = k % 0x1_0000_0000_0000_0000 - 0x8000_0000_0000_0000;
    assert(key_of(x, y) == k);
}

impl GameTileComputations {
    /// The key of a tile.
    pub fn tile_to_key(tile: &GameMapTile) -> (key: u128)
        ensures
            key == key_of(tile[0] as int, tile[1] as int),
    {
        Self::xy_to_key(tile[0], tile[1])
    }

    /// The key of the position `(x, y)`.
    pub fn xy_to_key(x: i64, y: i64) -> (key: u128)
        ensures
            key == key_of(x as int, y as int),
    {
        let hi: u128 = (x as i128 + 0x8000_0000_0000_0000i128) as u128;
        let lo: u128 = (y as i128 + 0x8000_0000_0000_0000i128) as u128;
        hi * 0x1_0000_0000_0000_0000u128 + lo
    }

    /// Builds the index of a tile list: its keys are the keys of the tiles of
    /// the list, each mapped to `true`, so that it holds exactly the positions
    /// of the list.
    pub fn create_tile_exist_hash_map(tiles: &Vec<&GameMapTile>) -> (hash_map: GameTileExistHashMap)
        ensures
            forall|k: u128|
                hash_map@.contains_key(k) <==> exists|i: int|
                    0 <= i < tiles@.len() && k == key_of(
                        (#[trigger] tiles@[i])[0] as int,
                        tiles@[i][1] as int,
                    ),
            forall|k: u128| hash_map@.contains_key(k) ==> hash_map@[k],
            index_set(hash_map@) == occupied(borrowed_positions(tiles@)),
    {
        let mut hash: HashMap<u128, bool> = HashMap::new();
        let mut i: usize = 0;
        while i < tiles.len()
            invariant
                i <= tiles.len(),
                forall|k: u128|
                    hash@.contains_key(k) <==> exists|j: int|
                        0 <= j < i && k == key_of(
                            (#[trigger] tiles@[j])[0] as int,
                            tiles@[j][1] as int,
                        ),
                forall|k: u128| hash@.contains_key(k) ==> hash@[k],
                index_set(hash@) == occupied(borrowed_positions(tiles@.take(i as int))),
            decreases tiles.len() - i,
        {
            let key: u128 = Self::tile_to_key(tiles[i]);
            let ghost before = hash@;
            hash.insert(key, true);
            proof {
                assert forall|k: u128| hash@.contains_key(k) implies exists|j: int|
                    0 <= j < i + 1 && k == key_of(
                        (#[trigger] tiles@[j])[0] as int,
                        tiles@[j][1] as int,
                    ) by {
                    if k == key {
                        assert(k == key_of(tiles@[i as int][0] as int, tiles@[i as int][1] as int));
                    } else {
                        assert(before.contains_key(k));
                    }
                }
                let seen = borrowed_positions(tiles@.take(i as int));
                let grown = borrowed_positions(tiles@.take(i + 1));
                let added = tile_pos(*tiles@[i as int]);
                assert forall|p: (int, int)|
                    index_set(hash@).contains(p) <==> occupied(grown).contains(p) by {
                    if in_grid(p.0) && in_grid(p.1) {
                        lemma_key_injective(p.0, p.1, added.0, added.1);
                    }
                    assert(index_set(before).contains(p) <==> occupied(seen).contains(p));
                    if occupied(seen).contains(p) {
                        let j = choose|j: int| 0 <= j < seen.len() && seen[j] == p;
                        assert(grown[j] == p);
                    }
                    if p == added {
                        assert(grown[i as int] == p);
                    }
                    if occupied(grown).contains(p) && p != added {
                        let j = choose|j: int| 0 <= j < grown.len() && grown[j] == p;
                        assert(seen[j] == p);
                    }
                }
                assert(index_set(hash@) =~= occupied(grown));
            }
            i += 1;
        }
        proof {
            assert(tiles@.take(tiles@.len() as int) =~= tiles@);
        }
        hash
    }

    /// Whether the position `(x, y)` is in the index.
    pub fn tile_exists_in_hash_map(hash_map: &GameTileExistHashMap, x: i64, y: i64) -> (found: bool)
        ensures
            found == index_set(hash_map@).contains((x as int, y as int)),
    {
        let key: u128 = Self::xy_to_key(x, y);
        match hash_map.get(&key) {
            Some(_) => true,
            None => false,
        }
    }

    /// Whether the position `(x + dx, y + dy)` is in the index. A position
    /// beyond the range of the stored coordinates is in no index.
    fn offset_exists(hash_map: &GameTileExistHashMap, x: i64, y: i64, dx: i64, dy: i64) -> (found:
        bool)
        ensures
            found == index_set(hash_map@).contains((x + dx, y + dy)),
    {
        let nx: i128 = x as i128 + dx as i128;
        let ny: i128 = y as i128 + dy as i128;
        if nx < i64::MIN as i128 || nx > i64::MAX as i128 || ny < i64::MIN as i128 || ny
            > i64::MAX as i128 {
            false
        } else {
            Self::tile_exists_in_hash_map(hash_map, nx as i64, ny as i64)
        }
    }

    /// Counts the occupied neighbors of a tile: first those that share an
    /// edge with it, then those that share only a corner.
    pub fn count_neighbors(hash_map: &GameTileExistHashMap, tile: &GameMapTile) -> (counts: (
        u8,
        u8,
    ))
        ensures
            counts.0 == side_count(index_set(hash_map@), tile[0] as int, tile[1] as int),
            counts.1 == corner_count(index_set(hash_map@), tile[0] as int, tile[1] as int),
    {
        let x: i64 = tile[0];
        let y: i64 = tile[1];
        let mut corners: u8 = 0;
        let mut sides: u8 = 0;

        if Self::offset_exists(hash_map, x, y, -1, -1) {
            corners += 1;
        }
        if Self::offset_exists(hash_map, x, y, -1, 1) {
            corners += 1;
        }
        if Self::offset_exists(hash_map, x, y, 1, -1) {
            corners += 1;
        }
        if Self::offset_exists(hash_map, x, y, 1, 1) {
            corners += 1;
        }

        if Self::offset_exists(hash_map, x, y, -1, 0) {
            sides += 1;
        }
        if Self::offset_exists(hash_map, x, y, 1, 0) {
            sides += 1;
        }

        if Self::offset_exists(hash_map, x, y, 0, -1) {
            sides += 1;
        }
        if Self::offset_exists(hash_map, x, y, 0, 1) {
            sides += 1;
        }

        (sides, corners)
    }

    /// Tells whether the tile is an exposed wall, and whether a run towards
    /// `(x_offset, y_offset)` may start at it.
    pub fn get_segment_triggers(
        hash_map: &GameTileExistHashMap,
        tile: &GameMapTile,
        x_offset: i64,
        y_offset: i64,
    ) -> (triggers: (bool, bool))
        ensures
            triggers.0 == exposed(index_set(hash_map@), tile[0] as int, tile[1] as int),
            triggers.1 == continues_run(
                index_set(hash_map@),
                tile[0] as int,
                tile[1] as int,
                x_offset as int,
                y_offset as int,
            ),
    {
        let x: i64 = tile[0];
        let y: i64 = tile[1];
        let (sides, corners) = Self::count_neighbors(hash_map, tile);

        let sides = sides <= 3;
        let corners = corners <= 3;
        let neighbors = sides || corners;

        let yes = Self::tile_exists_in_hash_map(hash_map, x, y) && neighbors;
        let start = yes && Self::offset_exists(hash_map, x, y, x_offset, y_offset);

        (yes, start)
    }
}

} // verus!
