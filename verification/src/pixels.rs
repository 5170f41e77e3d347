use crate::tile::{tile_positions, GameMapTile};
use vstd::arithmetic::div_mod::{
    lemma_div_pos_is_pos, lemma_fundamental_div_mod, lemma_fundamental_div_mod_converse,
    lemma_mod_pos_bound, lemma_multiply_divide_lt,
};
use vstd::prelude::*;

verus! {

/// A decoded image of the `image` crate. Nothing of what it holds is
/// visible here except through `image_dimensions` and `image_pixels`.
#[verifier::external_type_specification]
#[verifier::external_body]
pub struct ExDynamicImage(image::DynamicImage);

/// The width and the height of an image, in pixels.
pub uninterp spec fn image_dimensions(img: image::DynamicImage) -> (u32, u32);

/// The color of each pixel of an image as red, green, blue and alpha, under
/// the pixel's column and row, both counted from the top left corner.
pub uninterp spec fn image_pixels(img: image::DynamicImage) -> Map<(int, int), [u8; 4]>;

/// Calls `GenericImageView::dimensions` of the `image` crate, which hands
/// back the width and the height that the image was made with.
#[verifier::external_body]
fn dimensions_of(img: &image::DynamicImage) -> (size: (u32, u32))
    ensures
        size == image_dimensions(*img),
{
    image::GenericImageView::dimensions(img)
}

/// Calls `GenericImageView::get_pixel` of the `image` crate, which hands
/// back the pixel at column `x` and row `y` converted to 8-bit RGBA, and
/// panics outside the image.
#[verifier::external_body]
fn pixel_of(img: &image::DynamicImage, x: u32, y: u32) -> (rgba: [u8; 4])
    requires
        x < image_dimensions(*img).0,
        y < image_dimensions(*img).1,
    ensures
        rgba == image_pixels(*img)[(x as int, y as int)],
{
    image::GenericImageView::get_pixel(img, x, y).0
}

/// The color of a wall: opaque black.
pub open spec fn wall_color(rgba: [u8; 4]) -> bool {
    rgba[3] == 255 && rgba[0] + rgba[1] + rgba[2] == 0
}

/// The color of a spawn point: opaque pure red.
pub open spec fn spawn_color(rgba: [u8; 4]) -> bool {
    rgba[3] == 255 && rgba[0] == 255 && rgba[1] + rgba[2] == 0
}

/// The test "the pixel at this position is a wall".
pub open spec fn wall_at(pixels: Map<(int, int), [u8; 4]>) -> spec_fn((int, int)) -> bool {
    |p: (int, int)| wall_color(pixels[p])
}

/// The test "the pixel at this position is a spawn point".
pub open spec fn spawn_at(pixels: Map<(int, int), [u8; 4]>) -> spec_fn((int, int)) -> bool {
    |p: (int, int)| spawn_color(pixels[p])
}

/// The positions of a `width` by `height` grid in the order of the scan:
/// row after row from the top, each row from the left.
pub open spec fn scan_order(width: int, height: int) -> Seq<(int, int)> {
    Seq::new((width * height) as nat, |i: int| (i % width, i / width))
}

/// Whether the pixel is a wall.
pub fn is_wall_pixel(rgba: &[u8; 4]) -> (wall: bool)
    ensures
        wall == wall_color(*rgba),
{
    rgba[3] == 255 && rgba[0] == 0 && rgba[1] == 0 && rgba[2] == 0
}

/// Whether the pixel is a spawn point.
pub fn is_spawn_pixel(rgba: &[u8; 4]) -> (spawn: bool)
    ensures
        spawn == spawn_color(*rgba),
{
    rgba[3] == 255 && rgba[0] == 255 && rgba[1] == 0 && rgba[2] == 0
}

/// The place of column `x` of row `y` in the scan of a grid.
proof fn lemma_scan_place(width: int, height: int, x: int, y: int)
    requires
        0 <= x < width,
        0 <= y < height,
    ensures
        0 <= y * width + x < width * height,
        scan_order(width, height)[y * width + x] == (x, y),
{
    assert(0 <= y * width && y * width + width <= width * height) by (nonlinear_arith)
        requires
            0 <= y < height,
            0 < width,
    ;
    lemma_fundamental_div_mod_converse(y * width + x, width, y, x);
}

/// The scan visits every position of the grid, each once, and no other.
pub proof fn lemma_scan_order(width: int, height: int)
    requires
        0 <= width,
        0 <= height,
    ensures
        forall|p: (int, int)| #[trigger]
            scan_order(width, height).contains(p) <==> 0 <= p.0 < width && 0 <= p.1 < height,
        scan_order(width, height).no_duplicates(),
{
    let order = scan_order(width, height);
    assert(0 <= width * height) by (nonlinear_arith)
        requires
            0 <= width,
            0 <= height,
    ;
    assert forall|i: int| 0 <= i < order.len() implies 0 <= (#[trigger] order[i]).0 < width && 0
        <= order[i].1 < height && i == width * order[i].1 + order[i].0 by {
        assert(0 < width) by (nonlinear_arith)
            requires
                0 <= i < width * height,
                0 <= width,
        ;
        lemma_mod_pos_bound(i, width);
        lemma_div_pos_is_pos(i, width);
        lemma_multiply_divide_lt(i, width, height);
        lemma_fundamental_div_mod(i, width);
    }
    assert forall|p: (int, int)| 0 <= p.0 < width && 0 <= p.1 < height implies order.contains(
        p,
    ) by {
        lemma_scan_place(width, height, p.0, p.1);
        assert(order[p.1 * width + p.0] == p);
    }
    assert forall|p: (int, int)| order.contains(p) implies 0 <= p.0 < width && 0 <= p.1
        < height by {
        let i = choose|i: int| 0 <= i < order.len() && order[i] == p;
        assert(0 <= order[i].0 < width);
    }
    assert forall|i: int, j: int| 0 <= i < order.len() && 0 <= j < order.len() && i != j implies
        order[i] != order[j] by {
        assert(i == width * order[i].1 + order[i].0);
        assert(j == width * order[j].1 + order[j].0);
    }
}

/// Choosing from a list without repetitions gives a list without
/// repetitions.
proof fn lemma_filter_no_duplicates(s: Seq<(int, int)>, test: spec_fn((int, int)) -> bool)
    requires
        s.no_duplicates(),
    ensures
        s.filter(test).no_duplicates(),
    decreases s.len(),
{
    reveal(Seq::filter);
    if s.len() > 0 {
        let front = s.drop_last();
        lemma_filter_no_duplicates(front, test);
        if test(s.last()) {
            if front.filter(test).contains(s.last()) {
                front.lemma_filter_contains_rev(test, s.last());
                let i = choose|i: int| 0 <= i < front.len() && front[i] == s.last();
                assert(s[i] == s[s.len() - 1]);
            }
        }
    }
}

/// The tiles read off a grid are the positions of the grid that pass the
/// test: each of them lies in the grid and passes, none that passes is left
/// out, and none is listed twice.
pub proof fn lemma_filtered_scan(width: int, height: int, test: spec_fn((int, int)) -> bool)
    requires
        0 <= width,
        0 <= height,
    ensures
        forall|p: (int, int)| #[trigger]
            scan_order(width, height).filter(test).contains(p) <==> 0 <= p.0 < width && 0 <= p.1
                < height && test(p),
        scan_order(width, height).filter(test).no_duplicates(),
{
    let order = scan_order(width, height);
    let found = order.filter(test);
    lemma_scan_order(width, height);
    lemma_filter_no_duplicates(order, test);
    assert forall|p: (int, int)| #[trigger]
        found.contains(p) <==> 0 <= p.0 < width && 0 <= p.1 < height && test(p) by {
        if found.contains(p) {
            order.lemma_filter_contains_rev(test, p);
            let i = choose|i: int| 0 <= i < found.len() && found[i] == p;
            order.lemma_filter_pred(test, i);
        }
        if 0 <= p.0 < width && 0 <= p.1 < height && test(p) {
            assert(order.contains(p));
            let i = choose|i: int| 0 <= i < order.len() && order[i] == p;
            order.lemma_filter_contains(test, i);
        }
    }
}

/// Reads the wall tiles and the spawn tiles off an image. Each list holds
/// the positions of the pixels of its color, in the order of the scan.
pub fn read_tiles(img: &image::DynamicImage) -> (tiles: (Vec<GameMapTile>, Vec<GameMapTile>))
    ensures
        tile_positions(tiles.0@) == scan_order(
            image_dimensions(*img).0 as int,
            image_dimensions(*img).1 as int,
        ).filter(wall_at(image_pixels(*img))),
        tile_positions(tiles.1@) == scan_order(
            image_dimensions(*img).0 as int,
            image_dimensions(*img).1 as int,
        ).filter(spawn_at(image_pixels(*img))),
        forall|p: (int, int)| #[trigger]
            tile_positions(tiles.0@).contains(p) <==> 0 <= p.0 < image_dimensions(*img).0 && 0
                <= p.1 < image_dimensions(*img).1 && wall_color(image_pixels(*img)[p]),
        forall|p: (int, int)| #[trigger]
            tile_positions(tiles.1@).contains(p) <==> 0 <= p.0 < image_dimensions(*img).0 && 0
                <= p.1 < image_dimensions(*img).1 && spawn_color(image_pixels(*img)[p]),
{
    let (width, height) = dimensions_of(img);
    proof {
        lemma_filtered_scan(width as int, height as int, wall_at(image_pixels(*img)));
        lemma_filtered_scan(width as int, height as int, spawn_at(image_pixels(*img)));
    }
    let ghost pixels = image_pixels(*img);
    let ghost order = scan_order(width as int, height as int);
    let mut wall_tiles: Vec<GameMapTile> = Vec::new();
    let mut spawn_tiles: Vec<GameMapTile> = Vec::new();

    let mut y: u32 = 0;
    while y < height
        invariant
            y <= height,
            (width, height) == image_dimensions(*img),
            pixels == image_pixels(*img),
            order == scan_order(width as int, height as int),
            0 <= y * width <= order.len(),
            tile_positions(wall_tiles@) == order.take(y * width).filter(wall_at(pixels)),
            tile_positions(spawn_tiles@) == order.take(y * width).filter(spawn_at(pixels)),
        decreases height - y,
    {
        let mut x: u32 = 0;
        while x < width
            invariant
                x <= width,
                y < height,
                (width, height) == image_dimensions(*img),
                pixels == image_pixels(*img),
                order == scan_order(width as int, height as int),
                0 <= y * width + x <= order.len(),
                tile_positions(wall_tiles@) == order.take(y * width + x).filter(wall_at(pixels)),
                tile_positions(spawn_tiles@) == order.take(y * width + x).filter(
                    spawn_at(pixels),
                ),
            decreases width - x,
        {
            let rgba: [u8; 4] = pixel_of(img, x, y);
            proof {
                lemma_scan_place(width as int, height as int, x as int, y as int);
                let place = y * width + x;
                let seen = order.take(place);
                assert(order.take(place + 1) =~= seen.push((x as int, y as int)));
                seen.lemma_filter_push((x as int, y as int), wall_at(pixels));
                seen.lemma_filter_push((x as int, y as int), spawn_at(pixels));
            }
            let ghost walls_before = tile_positions(wall_tiles@);
            let ghost spawns_before = tile_positions(spawn_tiles@);


            // wall tiles
            if is_wall_pixel(&rgba) {
                wall_tiles.push([x as i64, y as i64]);
                assert(tile_positions(wall_tiles@) =~= walls_before.push((x as int, y as int)));
            }

            // spawn tiles
            if is_spawn_pixel(&rgba) {
                spawn_tiles.push([x as i64, y as i64]);
                assert(tile_positions(spawn_tiles@) =~= spawns_before.push((x as int, y as int)));
            }
            x += 1;
        }
        proof {
            assert((y + 1) * width == y * width + width) by (nonlinear_arith);
        }
        y += 1;
    }
    proof {
        assert(order.take(height * width) =~= order) by {
            assert(height * width == width * height) by (nonlinear_arith);
        }
    }
    (wall_tiles, spawn_tiles)
}

} // verus!
