use game_maps::pixels::{is_spawn_pixel, is_wall_pixel, read_tiles};
use image::{DynamicImage, Luma, GrayImage, Rgba, RgbaImage};

#[test]
fn wall_is_opaque_black() {
    assert!(is_wall_pixel(&[0, 0, 0, 255]));
    for color in [
        [0, 0, 0, 254],
        [0, 0, 0, 0],
        [1, 0, 0, 255],
        [0, 1, 0, 255],
        [0, 0, 1, 255],
        [255, 0, 0, 255],
        [1, 255, 0, 255],
        [128, 128, 0, 255],
        [255, 255, 2, 255],
        [255, 255, 255, 255],
    ] {
        assert!(!is_wall_pixel(&color), "{:?}", color);
    }
}

#[test]
fn spawn_is_opaque_pure_red() {
    assert!(is_spawn_pixel(&[255, 0, 0, 255]));
    for color in [
        [255, 0, 0, 254],
        [255, 0, 0, 0],
        [254, 0, 0, 255],
        [255, 1, 0, 255],
        [255, 0, 1, 255],
        [255, 1, 255, 255],
        [255, 128, 128, 255],
        [0, 0, 0, 255],
        [255, 255, 255, 255],
    ] {
        assert!(!is_spawn_pixel(&color), "{:?}", color);
    }
}

#[test]
fn read_tiles_keeps_the_pixel_coordinates() {
    let mut buffer = RgbaImage::new(4, 3);
    buffer.put_pixel(3, 0, Rgba([0, 0, 0, 255]));
    buffer.put_pixel(0, 1, Rgba([255, 0, 0, 255]));
    buffer.put_pixel(1, 1, Rgba([0, 0, 0, 255]));
    buffer.put_pixel(0, 2, Rgba([0, 0, 0, 255]));
    buffer.put_pixel(3, 2, Rgba([255, 0, 0, 255]));
    buffer.put_pixel(2, 2, Rgba([0, 0, 0, 100]));
    let (walls, spawns) = read_tiles(&DynamicImage::ImageRgba8(buffer));
    assert_eq!(walls, vec![[3, 0], [1, 1], [0, 2]]);
    assert_eq!(spawns, vec![[0, 1], [3, 2]]);
}

#[test]
fn read_tiles_of_a_wide_and_of_a_tall_image() {
    let mut wide = RgbaImage::new(5, 1);
    wide.put_pixel(4, 0, Rgba([0, 0, 0, 255]));
    let (walls, spawns) = read_tiles(&DynamicImage::ImageRgba8(wide));
    assert_eq!(walls, vec![[4, 0]]);
    assert!(spawns.is_empty());

    let mut tall = RgbaImage::new(1, 5);
    tall.put_pixel(0, 4, Rgba([255, 0, 0, 255]));
    let (walls, spawns) = read_tiles(&DynamicImage::ImageRgba8(tall));
    assert!(walls.is_empty());
    assert_eq!(spawns, vec![[0, 4]]);
}

#[test]
fn read_tiles_of_a_gray_image() {
    // In a gray image every pixel is opaque; black is a wall, and no pixel
    // is red.
    let mut gray = GrayImage::new(3, 2);
    for (x, y, value) in [(0, 0, 0), (1, 0, 255), (2, 0, 1), (0, 1, 7), (1, 1, 0), (2, 1, 0)] {
        gray.put_pixel(x, y, Luma([value]));
    }
    let (walls, spawns) = read_tiles(&DynamicImage::ImageLuma8(gray));
    assert_eq!(walls, vec![[0, 0], [1, 1], [2, 1]]);
    assert!(spawns.is_empty());
}

#[test]
fn read_tiles_of_an_image_without_pixels() {
    let (walls, spawns) = read_tiles(&DynamicImage::ImageRgba8(RgbaImage::new(0, 0)));
    assert!(walls.is_empty());
    assert!(spawns.is_empty());
}
