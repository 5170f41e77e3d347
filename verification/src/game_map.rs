use crate::bounds::{
    all_in_grid, greatest, half, least, lemma_centered_in_grid, lemma_least_greatest,
    lemma_least_greatest_shift, shifted, xs, ys, GameMapBounds,
};
use crate::neighbors::{index_set, GameTileComputations};
use crate::pixels::{
    image_dimensions, image_pixels, lemma_filtered_scan, read_tiles, scan_order, spawn_at,
    spawn_color, wall_at, wall_color,
};
use crate::segments::{
    boundary_tiles, is_lone, lemma_pass_segments_are_runs, lone_segments, neighbor_count,
    on_boundary, pass_segments, point_segment, scan_pass, spans_pass_run, valid_segment,
};
use crate::tile::{
    borrowed_positions, in_grid, occupied, segment_list, tile_pos, tile_positions, GameMapSegment,
    GameMapTile,
};
use vstd::prelude::*;

verus! {

/// A level: its wall and spawn tiles, and the wall outline derived from them.
#[derive(Debug)]
pub struct GameMap {
    pub wall_tiles: Vec<GameMapTile>,
    pub spawn_tiles: Vec<GameMapTile>,
    pub wall_segments: Vec<GameMapSegment>,
    pub wall_segment_tiles: Vec<GameMapTile>,
}

/// What a level holds, as lists of positions and of segment end points.
pub struct GameMapView {
    pub wall_tiles: Seq<(int, int)>,
    pub spawn_tiles: Seq<(int, int)>,
    pub wall_segments: Seq<(int, int, int, int)>,
    pub wall_segment_tiles: Seq<(int, int)>,
}

impl GameMapView {
    /// The positions of all tiles: the walls first, then the spawns.
    pub open spec fn pool(self) -> Seq<(int, int)> {
        self.wall_tiles + self.spawn_tiles
    }

    /// The positions that hold a wall.
    pub open spec fn walls(self) -> Set<(int, int)> {
        occupied(self.wall_tiles)
    }

    /// The offset that centering subtracts from every tile: the midpoint of
    /// the bounding box of all tiles, each coordinate rounded towards zero.
    pub open spec fn center(self) -> (int, int) {
        (
            half(least(xs(self.pool())) + greatest(xs(self.pool()))),
            half(least(ys(self.pool())) + greatest(ys(self.pool()))),
        )
    }

    /// The level with every wall and spawn tile moved by the centering offset.
    pub open spec fn centered(self) -> GameMapView {
        GameMapView {
            wall_tiles: shifted(self.wall_tiles, self.center().0, self.center().1),
            spawn_tiles: shifted(self.spawn_tiles, self.center().0, self.center().1),
            wall_segments: self.wall_segments,
            wall_segment_tiles: self.wall_segment_tiles,
        }
    }

    /// The wall tiles that have a free neighbor, in the order of the walls.
    pub open spec fn boundary(self) -> Seq<(int, int)> {
        boundary_tiles(self.walls(), self.wall_tiles)
    }

    /// The wall outline: the segments of the rows from top to bottom, then
    /// those of the columns from left to right, both scanned within the
    /// bounding box of all tiles, then one point for every lone wall tile.
    pub open spec fn outline(self) -> Seq<(int, int, int, int)> {
        let min_x = least(xs(self.pool()));
        let max_x = greatest(xs(self.pool()));
        let min_y = least(ys(self.pool()));
        let max_y = greatest(ys(self.pool()));
        pass_segments(self.walls(), true, min_y, max_y, min_x, max_x) + pass_segments(
            self.walls(),
            false,
            min_x,
            max_x,
            min_y,
            max_y,
        ) + lone_segments(self.walls(), self.wall_tiles)
    }

    /// The level with its outline derived anew from its wall tiles.
    pub open spec fn outlined(self) -> GameMapView {
        GameMapView {
            wall_tiles: self.wall_tiles,
            spawn_tiles: self.spawn_tiles,
            wall_segments: self.outline(),
            wall_segment_tiles: self.boundary(),
        }
    }
}

/// The level as it is read off a grid of pixels: the wall and the spawn
/// positions in the order of the scan, and no outline yet.
pub open spec fn scanned(pixels: Map<(int, int), [u8; 4]>, width: int, height: int) -> GameMapView {
    GameMapView {
        wall_tiles: scan_order(width, height).filter(wall_at(pixels)),
        spawn_tiles: scan_order(width, height).filter(spawn_at(pixels)),
        wall_segments: Seq::empty(),
        wall_segment_tiles: Seq::empty(),
    }
}

impl GameMapView {
    /// Whether the segment belongs to the outline by its kind: it spans a
    /// run of a row or of a column of the bounding box, or it is the point
    /// of a lone wall tile.
    pub open spec fn has_outline_segment(self, s: (int, int, int, int)) -> bool {
        let min_x = least(xs(self.pool()));
        let max_x = greatest(xs(self.pool()));
        let min_y = least(ys(self.pool()));
        let max_y = greatest(ys(self.pool()));
        ||| spans_pass_run(self.walls(), true, min_y, max_y, min_x, max_x, s)
        ||| spans_pass_run(self.walls(), false, min_x, max_x, min_y, max_y, s)
        ||| exists|p: (int, int)|
            self.wall_tiles.contains(p) && neighbor_count(self.walls(), p.0, p.1) <= 2 && s
                == #[trigger] point_segment(p)
    }

    /// Whether every coordinate of a tile fits the integer type that tiles
    /// are stored in, as it does in the view of every `GameMap`.
    pub open spec fn stored(self) -> bool {
        all_in_grid(xs(self.pool())) && all_in_grid(ys(self.pool()))
    }

    /// Centering moves the bounding box by the offset that it subtracts from
    /// the tiles, and leaves its midpoint at the origin.
    pub proof fn lemma_centered_bounds(self)
        requires
            self.stored(),
            self.pool().len() > 0,
        ensures
            self.centered().stored(),
            least(xs(self.centered().pool())) == least(xs(self.pool())) - self.center().0,
            greatest(xs(self.centered().pool())) == greatest(xs(self.pool())) - self.center().0,
            least(ys(self.centered().pool())) == least(ys(self.pool())) - self.center().1,
            greatest(ys(self.centered().pool())) == greatest(ys(self.pool())) - self.center().1,
            self.centered().center() == (0int, 0int),
    {
        let pool = self.pool();
        let moved = self.centered().pool();
        let c = self.center();
        lemma_least_greatest(xs(pool));
        lemma_least_greatest(ys(pool));
        assert(moved =~= shifted(pool, c.0, c.1));
        assert forall|i: int| 0 <= i < pool.len() implies #[trigger] xs(moved)[i] == xs(pool)[i]
            - c.0 && i64::MIN <= xs(moved)[i] <= i64::MAX by {
            lemma_centered_in_grid(least(xs(pool)), greatest(xs(pool)), xs(pool)[i]);
        }
        assert forall|i: int| 0 <= i < pool.len() implies #[trigger] ys(moved)[i] == ys(pool)[i]
            - c.1 && i64::MIN <= ys(moved)[i] <= i64::MAX by {
            lemma_centered_in_grid(least(ys(pool)), greatest(ys(pool)), ys(pool)[i]);
        }
        lemma_least_greatest_shift(xs(pool), xs(moved), c.0);
        lemma_least_greatest_shift(ys(pool), ys(moved), c.1);
        lemma_centered_in_grid(least(xs(pool)), greatest(xs(pool)), xs(pool)[0]);
        lemma_centered_in_grid(least(ys(pool)), greatest(ys(pool)), ys(pool)[0]);
    }

    /// The boundary tiles are the wall tiles with fewer than eight wall
    /// neighbors: a wall tile that is surrounded on all eight sides is no
    /// boundary tile, and one with no neighbor at all is one.
    pub proof fn lemma_boundary(self)
        ensures
            forall|p: (int, int)| #[trigger]
                self.boundary().contains(p) <==> self.wall_tiles.contains(p) && neighbor_count(
                    self.walls(),
                    p.0,
                    p.1,
                ) < 8,
            forall|p: (int, int)|
                self.wall_tiles.contains(p) && neighbor_count(self.walls(), p.0, p.1) == 8
                    ==> !#[trigger] self.boundary().contains(p),
            forall|p: (int, int)|
                self.wall_tiles.contains(p) && neighbor_count(self.walls(), p.0, p.1) == 0
                    ==> #[trigger] self.boundary().contains(p),
    {
        let test = on_boundary(self.walls());
        let tiles = self.wall_tiles;
        assert forall|p: (int, int)| #[trigger]
            self.boundary().contains(p) <==> tiles.contains(p) && test(p) by {
            if self.boundary().contains(p) {
                tiles.lemma_filter_contains_rev(test, p);
                let i = choose|i: int| 0 <= i < self.boundary().len() && self.boundary()[i] == p;
                tiles.lemma_filter_pred(test, i);
            }
            if tiles.contains(p) && test(p) {
                let i = choose|i: int| 0 <= i < tiles.len() && tiles[i] == p;
                tiles.lemma_filter_contains(test, i);
            }
        }
    }

    /// The outline holds the runs of the rows, the runs of the columns and
    /// the points of the lone wall tiles, and nothing else. Every segment
    /// of it is well formed, and every wall tile without a neighbor has
    /// its point in it.
    pub proof fn lemma_outline(self)
        ensures
            forall|s: (int, int, int, int)| #[trigger]
                self.outline().contains(s) <==> self.has_outline_segment(s),
            forall|i: int|
                0 <= i < self.outline().len() ==> valid_segment(#[trigger] self.outline()[i]),
            forall|p: (int, int)|
                self.wall_tiles.contains(p) && neighbor_count(self.walls(), p.0, p.1) == 0
                    ==> self.outline().contains(#[trigger] point_segment(p)),
    {
        let walls = self.walls();
        let min_x = least(xs(self.pool()));
        let max_x = greatest(xs(self.pool()));
        let min_y = least(ys(self.pool()));
        let max_y = greatest(ys(self.pool()));
        let rows = pass_segments(walls, true, min_y, max_y, min_x, max_x);
        let columns = pass_segments(walls, false, min_x, max_x, min_y, max_y);
        let lone_tiles = self.wall_tiles.filter(is_lone(walls));
        let points = lone_segments(walls, self.wall_tiles);
        let all = self.outline();
        lemma_pass_segments_are_runs(walls, true, min_y, max_y, min_x, max_x);
        lemma_pass_segments_are_runs(walls, false, min_x, max_x, min_y, max_y);

        assert forall|s: (int, int, int, int)| #[trigger]
            all.contains(s) implies self.has_outline_segment(s) by {
            let i = choose|i: int| 0 <= i < all.len() && all[i] == s;
            if i < rows.len() {
                assert(rows[i] == s);
                assert(rows.contains(s));
            } else if i < rows.len() + columns.len() {
                assert(columns[i - rows.len()] == s);
                assert(columns.contains(s));
            } else {
                let k = i - rows.len() - columns.len();
                assert(points[k] == s);
                let p = lone_tiles[k];
                assert(lone_tiles.contains(p));
                self.wall_tiles.lemma_filter_contains_rev(is_lone(walls), p);
                self.wall_tiles.lemma_filter_pred(is_lone(walls), k);
                assert(s == point_segment(p));
            }
        }
        assert forall|s: (int, int, int, int)|
            self.has_outline_segment(s) implies #[trigger] all.contains(s) by {
            if spans_pass_run(walls, true, min_y, max_y, min_x, max_x, s) {
                let i = choose|i: int| 0 <= i < rows.len() && rows[i] == s;
                assert(all[i] == s);
            } else if spans_pass_run(walls, false, min_x, max_x, min_y, max_y, s) {
                let i = choose|i: int| 0 <= i < columns.len() && columns[i] == s;
                assert(all[rows.len() + i] == s);
            } else {
                let p = choose|p: (int, int)|
                    self.wall_tiles.contains(p) && neighbor_count(walls, p.0, p.1) <= 2 && s
                        == #[trigger] point_segment(p);
                let j = choose|j: int| 0 <= j < self.wall_tiles.len() && self.wall_tiles[j] == p;
                self.wall_tiles.lemma_filter_contains(is_lone(walls), j);
                let k = choose|k: int| 0 <= k < lone_tiles.len() && lone_tiles[k] == p;
                assert(points[k] == s);
                assert(all[rows.len() + columns.len() + k] == s);
            }
        }
        assert forall|i: int| 0 <= i < all.len() implies valid_segment(#[trigger] all[i]) by {
            assert(all.contains(all[i]));
            assert(self.has_outline_segment(all[i]));
        }
        assert forall|p: (int, int)|
            self.wall_tiles.contains(p) && neighbor_count(walls, p.0, p.1) == 0 implies all.contains(
            #[trigger] point_segment(p),
        ) by {
            assert(self.has_outline_segment(point_segment(p)));
        }
    }
}

/// The tiles of a scanned level are the pixels of their color: a position
/// is a wall tile exactly if it lies in the grid and its pixel is opaque
/// black, a spawn tile exactly if it lies in the grid and its pixel is
/// opaque red, and no position is listed twice.
pub proof fn lemma_scanned_tiles(pixels: Map<(int, int), [u8; 4]>, width: int, height: int)
    requires
        0 <= width,
        0 <= height,
    ensures
        forall|p: (int, int)| #[trigger]
            scanned(pixels, width, height).wall_tiles.contains(p) <==> 0 <= p.0 < width && 0
                <= p.1 < height && wall_color(pixels[p]),
        forall|p: (int, int)| #[trigger]
            scanned(pixels, width, height).spawn_tiles.contains(p) <==> 0 <= p.0 < width && 0
                <= p.1 < height && spawn_color(pixels[p]),
        scanned(pixels, width, height).wall_tiles.no_duplicates(),
        scanned(pixels, width, height).spawn_tiles.no_duplicates(),
{
    lemma_filtered_scan(width, height, wall_at(pixels));
    lemma_filtered_scan(width, height, spawn_at(pixels));
}

impl View for GameMap {
    type V = GameMapView;

    open spec fn view(&self) -> GameMapView {
        GameMapView {
            wall_tiles: tile_positions(self.wall_tiles@),
            spawn_tiles: tile_positions(self.spawn_tiles@),
            wall_segments: segment_list(self.wall_segments@),
            wall_segment_tiles: tile_positions(self.wall_segment_tiles@),
        }
    }
}

/// Every coordinate in the view of a level is a stored coordinate.
pub proof fn lemma_view_stored(game_map: GameMap)
    ensures
        game_map@.stored(),
{
}

/// Two levels with the same view hold the same tiles and segments, one
/// by one and in the same order.
pub proof fn lemma_view_determines_map(a: GameMap, b: GameMap)
    requires
        a@ == b@,
    ensures
        a.wall_tiles@ == b.wall_tiles@,
        a.spawn_tiles@ == b.spawn_tiles@,
        a.wall_segments@ == b.wall_segments@,
        a.wall_segment_tiles@ == b.wall_segment_tiles@,
{
    assert(a.wall_tiles@ =~= b.wall_tiles@) by {
        lemma_same_positions(a.wall_tiles@, b.wall_tiles@);
    }
    assert(a.spawn_tiles@ =~= b.spawn_tiles@) by {
        lemma_same_positions(a.spawn_tiles@, b.spawn_tiles@);
    }
    assert(a.wall_segment_tiles@ =~= b.wall_segment_tiles@) by {
        lemma_same_positions(a.wall_segment_tiles@, b.wall_segment_tiles@);
    }
    assert(a.wall_segments@ =~= b.wall_segments@) by {
        let s = a.wall_segments@;
        let t = b.wall_segments@;
        assert(segment_list(s).len() == s.len());
        assert(segment_list(t).len() == t.len());
        assert forall|i: int| 0 <= i < s.len() implies s[i] == t[i] by {
            assert(segment_list(s)[i] == segment_list(t)[i]);
            assert(s[i][0] == t[i][0] && s[i][1] == t[i][1] && s[i][2] == t[i][2] && s[i][3]
                == t[i][3]);
            assert(s[i] =~= t[i]);
        }
    }
}

/// Tile lists with the same positions are the same lists.
proof fn lemma_same_positions(s: Seq<GameMapTile>, t: Seq<GameMapTile>)
    requires
        tile_positions(s) == tile_positions(t),
    ensures
        s =~= t,
{
    assert(tile_positions(s).len() == s.len());
    assert(tile_positions(t).len() == t.len());
    assert forall|i: int| 0 <= i < s.len() implies s[i] == t[i] by {
        assert(tile_positions(s)[i] == tile_positions(t)[i]);
        assert(s[i][0] == t[i][0] && s[i][1] == t[i][1]);
        assert(s[i] =~= t[i]);
    }
}

/// Building a level is repeatable: two levels built from the same grid of
/// pixels hold the same tiles and segments, one by one and in the same
/// order.
pub proof fn lemma_same_pixels_same_map(
    a: GameMap,
    b: GameMap,
    pixels: Map<(int, int), [u8; 4]>,
    width: int,
    height: int,
)
    requires
        a@ == scanned(pixels, width, height).centered().outlined(),
        b@ == scanned(pixels, width, height).centered().outlined(),
    ensures
        a.wall_tiles@ == b.wall_tiles@,
        a.spawn_tiles@ == b.spawn_tiles@,
        a.wall_segments@ == b.wall_segments@,
        a.wall_segment_tiles@ == b.wall_segment_tiles@,
{
    lemma_view_determines_map(a, b);
}

impl GameMap {
    /// Builds the level that an image shows: reads the tiles off the image,
    /// centers them and derives the wall outline.
    pub fn from_image(img: &image::DynamicImage) -> (game_map: GameMap)
        ensures
            game_map@ == scanned(
                image_pixels(*img),
                image_dimensions(*img).0 as int,
                image_dimensions(*img).1 as int,
            ).centered().outlined(),
    {
        let (wall_tiles, spawn_tiles) = read_tiles(img);
        let mut game_map = GameMap {
            wall_tiles,
            spawn_tiles,
            wall_segments: Vec::new(),
            wall_segment_tiles: Vec::new(),
        };
        proof {
            let read = scanned(
                image_pixels(*img),
                image_dimensions(*img).0 as int,
                image_dimensions(*img).1 as int,
            );
            assert(game_map@.wall_segments =~= read.wall_segments);
            assert(game_map@.wall_segment_tiles =~= read.wall_segment_tiles);
            assert(game_map@ == read);
        }

        game_map.center_tiles();
        game_map.generate_segments();
        game_map
    }

    /// All tiles of the map: the walls first, then the spawns.
    pub fn borrow_tiles(&self) -> (pool: Vec<&GameMapTile>)
        ensures
            pool@.len() == self.wall_tiles@.len() + self.spawn_tiles@.len(),
            forall|i: int|
                0 <= i < pool@.len() ==> *#[trigger] pool@[i] == (self.wall_tiles@
                    + self.spawn_tiles@)[i],
            borrowed_positions(pool@) == self@.pool(),
    {
        let mut pool: Vec<&GameMapTile> = Vec::new();
        let mut i: usize = 0;
        while i < self.wall_tiles.len()
            invariant
                i <= self.wall_tiles@.len(),
                pool@.len() == i,
                forall|j: int| 0 <= j < i ==> *#[trigger] pool@[j] == self.wall_tiles@[j],
            decreases self.wall_tiles@.len() - i,
        {
            pool.push(&self.wall_tiles[i]);
            i += 1;
        }
        let mut k: usize = 0;
        while k < self.spawn_tiles.len()
            invariant
                k <= self.spawn_tiles@.len(),
                pool@.len() == self.wall_tiles@.len() + k,
                forall|j: int|
                    0 <= j < self.wall_tiles@.len() ==> *#[trigger] pool@[j] == self.wall_tiles@[j],
                forall|j: int|
                    0 <= j < k ==> *#[trigger] pool@[self.wall_tiles@.len() + j]
                        == self.spawn_tiles@[j],
            decreases self.spawn_tiles@.len() - k,
        {
            pool.push(&self.spawn_tiles[k]);
            k += 1;
        }
        proof {
            assert forall|j: int| 0 <= j < pool@.len() implies *#[trigger] pool@[j] == (
            self.wall_tiles@ + self.spawn_tiles@)[j] by {
                if j >= self.wall_tiles@.len() {
                    let d = j - self.wall_tiles@.len();
                    assert(*pool@[self.wall_tiles@.len() + d] == self.spawn_tiles@[d]);
                }
            }
            assert(borrowed_positions(pool@) =~= self@.pool());
        }
        pool
    }

    /// The bounding box of all tiles, walls and spawns alike.
    pub fn get_bounds(&self) -> (bounds: GameMapBounds)
        ensures
            bounds.min_x == least(xs(self@.pool())),
            bounds.max_x == greatest(xs(self@.pool())),
            bounds.min_y == least(ys(self@.pool())),
            bounds.max_y == greatest(ys(self@.pool())),
            forall|i: int|
                0 <= i < self@.pool().len() ==> bounds.min_x <= (#[trigger] self@.pool()[i]).0
                    <= bounds.max_x && bounds.min_y <= self@.pool()[i].1 <= bounds.max_y,
            self@.pool().len() > 0 ==> bounds.min_x <= bounds.max_x && bounds.min_y
                <= bounds.max_y,
    {
        let mut min_x: i64 = i64::MAX;
        let mut min_y: i64 = i64::MAX;
        let mut max_x: i64 = i64::MIN;
        let mut max_y: i64 = i64::MIN;

        let pool = self.borrow_tiles();
        let ghost all = self@.pool();

        let mut i: usize = 0;
        while i < pool.len()
            invariant
                i <= pool@.len(),
                all == borrowed_positions(pool@),
                min_x == least(xs(all.take(i as int))),
                max_x == greatest(xs(all.take(i as int))),
                min_y == least(ys(all.take(i as int))),
                max_y == greatest(ys(all.take(i as int))),
            decreases pool@.len() - i,
        {
            let x: i64 = pool[i][0];
            let y: i64 = pool[i][1];
            proof {
                assert(xs(all.take(i + 1)).drop_last() =~= xs(all.take(i as int)));
                assert(ys(all.take(i + 1)).drop_last() =~= ys(all.take(i as int)));
                assert(xs(all.take(i + 1)).last() == x);
                assert(ys(all.take(i + 1)).last() == y);
            }
            if x > max_x {
                max_x = x
            }
            if x < min_x {
                min_x = x
            }
            if y > max_y {
                max_y = y
            }
            if y < min_y {
                min_y = y
            }
            i += 1;
        }
        proof {
            assert(all.take(pool@.len() as int) =~= all);
            lemma_least_greatest(xs(all));
            lemma_least_greatest(ys(all));
            assert forall|i: int| 0 <= i < all.len() implies min_x <= (#[trigger] all[i]).0
                <= max_x && min_y <= all[i].1 <= max_y by {
                assert(xs(all)[i] == all[i].0);
                assert(ys(all)[i] == all[i].1);
            }
            if all.len() > 0 {
                assert(min_x <= all[0].0 <= max_x);
            }
        }

        GameMapBounds { max_x, min_x, max_y, min_y }
    }

    /// Moves every wall and spawn tile so that the midpoint of their common
    /// bounding box comes to lie at the origin.
    pub fn center_tiles(&mut self)
        ensures
            final(self)@ == old(self)@.centered(),
            old(self)@.pool().len() > 0 ==> {
                &&& least(xs(final(self)@.pool())) == least(xs(old(self)@.pool()))
                    - old(self)@.center().0
                &&& greatest(xs(final(self)@.pool())) == greatest(xs(old(self)@.pool()))
                    - old(self)@.center().0
                &&& least(ys(final(self)@.pool())) == least(ys(old(self)@.pool()))
                    - old(self)@.center().1
                &&& greatest(ys(final(self)@.pool())) == greatest(ys(old(self)@.pool()))
                    - old(self)@.center().1
            },
    {
        proof {
            if self@.pool().len() > 0 {
                self@.lemma_centered_bounds();
            }
        }
        let bounds = self.get_bounds();
        let ave_x: i64 = midpoint(bounds.min_x, bounds.max_x);
        let ave_y: i64 = midpoint(bounds.min_y, bounds.max_y);

        proof {
            let pool = self@.pool();
            let n = self.wall_tiles@.len() as int;
            lemma_least_greatest(xs(pool));
            lemma_least_greatest(ys(pool));
            assert forall|i: int| 0 <= i < self.wall_tiles@.len() implies in_grid(
                (#[trigger] self.wall_tiles@[i])[0] - ave_x,
            ) && in_grid(self.wall_tiles@[i][1] - ave_y) by {
                assert(xs(pool)[i] == self.wall_tiles@[i][0]);
                assert(ys(pool)[i] == self.wall_tiles@[i][1]);
                lemma_centered_in_grid(least(xs(pool)), greatest(xs(pool)), xs(pool)[i]);
                lemma_centered_in_grid(least(ys(pool)), greatest(ys(pool)), ys(pool)[i]);
            }
            assert forall|i: int| 0 <= i < self.spawn_tiles@.len() implies in_grid(
                (#[trigger] self.spawn_tiles@[i])[0] - ave_x,
            ) && in_grid(self.spawn_tiles@[i][1] - ave_y) by {
                assert(xs(pool)[n + i] == self.spawn_tiles@[i][0]);
                assert(ys(pool)[n + i] == self.spawn_tiles@[i][1]);
                lemma_centered_in_grid(least(xs(pool)), greatest(xs(pool)), xs(pool)[n + i]);
                lemma_centered_in_grid(least(ys(pool)), greatest(ys(pool)), ys(pool)[n + i]);
            }
        }

        shift_tiles(&mut self.wall_tiles, ave_x, ave_y);
        shift_tiles(&mut self.spawn_tiles, ave_x, ave_y);
    }

    /// Derives the wall outline from the wall tiles: `wall_segment_tiles`
    /// becomes the list of boundary walls and `wall_segments` the list of
    /// outline segments. The tiles themselves stay as they are.
    pub fn generate_segments(&mut self)
        ensures
            final(self)@ == old(self)@.outlined(),
            forall|i: int|
                0 <= i < final(self)@.wall_segments.len() ==> valid_segment(
                    #[trigger] final(self)@.wall_segments[i],
                ),
            forall|i: int|
                0 <= i < final(self)@.wall_segment_tiles.len() ==> final(self)@.wall_tiles.contains(
                    #[trigger] final(self)@.wall_segment_tiles[i],
                ),
            forall|p: (int, int)|
                old(self)@.wall_tiles.contains(p) && neighbor_count(old(self)@.walls(), p.0, p.1)
                    == 8 ==> !#[trigger] final(self)@.wall_segment_tiles.contains(p),
            forall|p: (int, int)|
                old(self)@.wall_tiles.contains(p) && neighbor_count(old(self)@.walls(), p.0, p.1)
                    == 0 ==> #[trigger] final(self)@.wall_segment_tiles.contains(p)
                    && final(self)@.wall_segments.contains(point_segment(p)),
    {
        proof {
            self@.lemma_outline();
            self@.lemma_boundary();
            assert forall|i: int| 0 <= i < self@.boundary().len() implies self@.wall_tiles.contains(
                #[trigger] self@.boundary()[i],
            ) by {
                assert(self@.boundary().contains(self@.boundary()[i]));
            }
        }
        self.wall_segments = Vec::new();
        self.wall_segment_tiles = Vec::new();
        let mut tile_pool: Vec<&GameMapTile> = Vec::new();

        let mut wall_pool: Vec<&GameMapTile> = Vec::new();
        let mut w: usize = 0;
        while w < self.wall_tiles.len()
            invariant
                self.wall_tiles@ == old(self).wall_tiles@,
                self.spawn_tiles@ == old(self).spawn_tiles@,
                self.wall_segments@.len() == 0,
                self.wall_segment_tiles@.len() == 0,
                w <= self.wall_tiles@.len(),
                wall_pool@.len() == w,
                forall|j: int| 0 <= j < w ==> *#[trigger] wall_pool@[j] == self.wall_tiles@[j],
            decreases self.wall_tiles@.len() - w,
        {
            wall_pool.push(&self.wall_tiles[w]);
            w += 1;
        }
        let ghost wall_positions = tile_positions(self.wall_tiles@);
        assert(borrowed_positions(wall_pool@) =~= wall_positions);

        let wall_pool_hash_map = GameTileComputations::create_tile_exist_hash_map(&wall_pool);
        let ghost walls = index_set(wall_pool_hash_map@);

        // select tiles that'll be used for the segments
        let mut i: usize = 0;
        while i < wall_pool.len()
            invariant
                self.wall_tiles@ == old(self).wall_tiles@,
                self.spawn_tiles@ == old(self).spawn_tiles@,
                self.wall_segments@.len() == 0,
                self.wall_segment_tiles@.len() == 0,
                i <= wall_pool@.len(),
                walls == index_set(wall_pool_hash_map@),
                borrowed_positions(wall_pool@) == wall_positions,
                borrowed_positions(tile_pool@) == boundary_tiles(
                    walls,
                    wall_positions.take(i as int),
                ),
            decreases wall_pool@.len() - i,
        {
            let tile: &GameMapTile = wall_pool[i];
            let (sides, corners) = GameTileComputations::count_neighbors(
                &wall_pool_hash_map,
                tile,
            );
            proof {
                let seen = wall_positions.take(i as int);
                assert(wall_positions.take(i + 1) =~= seen.push(wall_positions[i as int]));
                seen.lemma_filter_push(wall_positions[i as int], on_boundary(walls));
            }
            let ghost kept = borrowed_positions(tile_pool@);
            if sides + corners < 8 {
                tile_pool.push(tile);
                assert(borrowed_positions(tile_pool@) =~= kept.push(tile_pos(*tile)));
            }
            i += 1;
        }
        assert(wall_positions.take(wall_pool@.len() as int) =~= wall_positions);

        let bounds = self.get_bounds();

        // horizontal
        scan_pass(
            &wall_pool_hash_map,
            true,
            bounds.min_y,
            bounds.max_y,
            bounds.min_x,
            bounds.max_x,
            &mut self.wall_segments,
        );

        // vertical
        scan_pass(
            &wall_pool_hash_map,
            false,
            bounds.min_x,
            bounds.max_x,
            bounds.min_y,
            bounds.max_y,
            &mut self.wall_segments,
        );

        // lone tiles
        let ghost scanned = segment_list(self.wall_segments@);
        let mut n: usize = 0;
        while n < wall_pool.len()
            invariant
                self.wall_tiles@ == old(self).wall_tiles@,
                self.spawn_tiles@ == old(self).spawn_tiles@,
                self.wall_segment_tiles@.len() == 0,
                n <= wall_pool@.len(),
                walls == index_set(wall_pool_hash_map@),
                borrowed_positions(wall_pool@) == wall_positions,
                segment_list(self.wall_segments@) == scanned + lone_segments(
                    walls,
                    wall_positions.take(n as int),
                ),
            decreases wall_pool@.len() - n,
        {
            let tile: &GameMapTile = wall_pool[n];
            let (sides, corners) = GameTileComputations::count_neighbors(
                &wall_pool_hash_map,
                tile,
            );
            proof {
                let seen = wall_positions.take(n as int);
                assert(wall_positions.take(n + 1) =~= seen.push(wall_positions[n as int]));
                seen.lemma_filter_push(wall_positions[n as int], is_lone(walls));
            }
            let ghost before = segment_list(self.wall_segments@);
            if sides + corners <= 2 {
                let x: i64 = tile[0];
                let y: i64 = tile[1];
                self.wall_segments.push([x, y, x, y]);
                assert(segment_list(self.wall_segments@) =~= before.push(
                    point_segment(tile_pos(*tile)),
                ));
            }
            assert(segment_list(self.wall_segments@) =~= scanned + lone_segments(
                walls,
                wall_positions.take(n + 1),
            ));
            n += 1;
        }

        // wall segment tiles
        let ghost outlined = self.wall_segments@;
        let mut k: usize = 0;
        while k < tile_pool.len()
            invariant
                self.wall_tiles@ == old(self).wall_tiles@,
                self.spawn_tiles@ == old(self).spawn_tiles@,
                self.wall_segments@ == outlined,
                k <= tile_pool@.len(),
                tile_positions(self.wall_segment_tiles@) == borrowed_positions(tile_pool@).take(
                    k as int,
                ),
            decreases tile_pool@.len() - k,
        {
            let ghost before = tile_positions(self.wall_segment_tiles@);
            self.wall_segment_tiles.push(*tile_pool[k]);
            assert(tile_positions(self.wall_segment_tiles@) =~= before.push(
                tile_pos(*tile_pool@[k as int]),
            ));
            assert(borrowed_positions(tile_pool@).take(k + 1) =~= borrowed_positions(
                tile_pool@,
            ).take(k as int).push(tile_pos(*tile_pool@[k as int])));
            k += 1;
        }
        assert(borrowed_positions(tile_pool@).take(tile_pool@.len() as int)
            =~= borrowed_positions(tile_pool@));
        assert(self@ == old(self)@.outlined());
    }
}

/// The midpoint of `low` and `high`, rounded towards zero.
fn midpoint(low: i64, high: i64) -> (mid: i64)
    ensures
        mid == half(low + high),
{
    let sum: i128 = low as i128 + high as i128;
    let mid: i128 = if sum >= 0 {
        sum / 2
    } else {
        -((-sum) / 2)
    };
    mid as i64
}

/// Subtracts `(dx, dy)` from every tile of the list.
fn shift_tiles(pool: &mut Vec<GameMapTile>, dx: i64, dy: i64)
    requires
        forall|i: int|
            0 <= i < old(pool)@.len() ==> in_grid((#[trigger] old(pool)@[i])[0] - dx) && in_grid(
                old(pool)@[i][1] - dy,
            ),
    ensures
        tile_positions(final(pool)@) == shifted(tile_positions(old(pool)@), dx as int, dy as int),
{
    let ghost given = pool@;
    let mut i: usize = 0;
    while i < pool.len()
        invariant
            i <= pool@.len(),
            pool@.len() == given.len(),
            forall|j: int|
                0 <= j < given.len() ==> in_grid((#[trigger] given[j])[0] - dx) && in_grid(
                    given[j][1] - dy,
                ),
            forall|j: int|
                0 <= j < i ==> tile_pos(#[trigger] pool@[j]) == (
                    given[j][0] - dx,
                    given[j][1] - dy,
                ),
            forall|j: int| i <= j < pool@.len() ==> #[trigger] pool@[j] == given[j],
        decreases pool@.len() - i,
    {
        let x: i64 = pool[i][0];
        let y: i64 = pool[i][1];
        assert(in_grid(given[i as int][0] - dx));
        pool.set(i, [x - dx, y - dy]);
        i += 1;
    }
    assert(tile_positions(pool@) =~= shifted(tile_positions(given), dx as int, dy as int));
}

} // verus!
