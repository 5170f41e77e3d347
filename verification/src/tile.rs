use vstd::prelude::*;

verus! {

/// A grid cell, stored as `[x, y]`.
pub type GameMapTile = [i64; 2];

/// An axis-aligned run of cells, stored as `[x1, y1, x2, y2]`.
pub type GameMapSegment = [i64; 4];

/// The grid position `(x, y)` that a tile stands for.
pub open spec fn tile_pos(t: GameMapTile) -> (int, int) {
    (t[0] as int, t[1] as int)
}

/// The end points `(x1, y1, x2, y2)` that a segment stands for.
pub open spec fn segment_ends(s: GameMapSegment) -> (int, int, int, int) {
    (s[0] as int, s[1] as int, s[2] as int, s[3] as int)
}

/// The positions of a tile list, in the list's order.
pub open spec fn tile_positions(tiles: Seq<GameMapTile>) -> Seq<(int, int)> {
    Seq::new(tiles.len(), |i: int| tile_pos(tiles[i]))
}

/// The positions of a list of borrowed tiles, in the list's order.
pub open spec fn borrowed_positions(tiles: Seq<&GameMapTile>) -> Seq<(int, int)> {
    Seq::new(tiles.len(), |i: int| tile_pos(*tiles[i]))
}

/// The end points of a segment list, in the list's order.
pub open spec fn segment_list(segments: Seq<GameMapSegment>) -> Seq<(int, int, int, int)> {
    Seq::new(segments.len(), |i: int| segment_ends(segments[i]))
}

/// The set of positions that occur in a list of positions.
pub open spec fn occupied(positions: Seq<(int, int)>) -> Set<(int, int)> {
    Set::new(|p: (int, int)| exists|i: int| 0 <= i < positions.len() && positions[i] == p)
}

/// Whether a coordinate fits the integer type that tiles are stored in.
pub open spec fn in_grid(c: int) -> bool {
    i64::MIN <= c <= i64::MAX
}

} // verus!
