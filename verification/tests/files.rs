use game_maps::files::{is_map_png, output_file_name};

#[test]
fn png_names_in_any_case() {
    for name in ["level1.png", "LEVEL1.PNG", "a.PnG", "a.pNg", ".png", "two.dots.png", "karte-\u{e4}.png"] {
        assert!(is_map_png(name), "{}", name);
    }
}

#[test]
fn other_names_are_no_png() {
    for name in [
        "", "png", "apng", "a.jpg", "a.png.bak", "a.pn", "a.pngx", "a.png ", "a_png", "a.p\u{f1}g",
        "a.png\u{e9}", "a.\u{ff50}ng",
    ] {
        assert!(!is_map_png(name), "{}", name);
    }
}

#[test]
fn output_name_adds_the_suffix_to_the_stem() {
    assert_eq!(output_file_name("level1"), "level1.rust.map.json");
    assert_eq!(output_file_name("two.dots"), "two.dots.rust.map.json");
    assert_eq!(output_file_name(""), ".rust.map.json");
    assert_eq!(output_file_name("karte-\u{e4}"), "karte-\u{e4}.rust.map.json");
}
