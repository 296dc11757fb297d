use palette_kmeans::color::{hex_to_rgb, rgb_to_hex, squared_distance, Color};
use palette_kmeans::tally::{tally, tally_colors, ColorCount};

fn c(r: u8, g: u8, b: u8) -> Color {
    Color::new(r, g, b)
}

#[test]
fn tally_two_by_two_grid() {
    let black = c(0, 0, 0);
    let white = c(255, 255, 255);
    let pixels = vec![black, black, white, white];
    let entries = tally(&pixels);
    assert_eq!(entries.len(), 2);
    assert!(entries.contains(&ColorCount { color: black, count: 2 }));
    assert!(entries.contains(&ColorCount { color: white, count: 2 }));
}

#[test]
fn tally_empty_grid() {
    let entries = tally(&Vec::new());
    assert!(entries.is_empty());
}

#[test]
fn tally_counts_every_pixel_once() {
    let a = c(1, 2, 3);
    let b = c(3, 2, 1);
    let d = c(9, 9, 9);
    let pixels = vec![a, b, a, d, a, b];
    let entries = tally(&pixels);
    assert_eq!(entries.len(), 3);
    assert!(entries.contains(&ColorCount { color: a, count: 3 }));
    assert!(entries.contains(&ColorCount { color: b, count: 2 }));
    assert!(entries.contains(&ColorCount { color: d, count: 1 }));
    let total: usize = entries.iter().map(|e| e.count).sum();
    assert_eq!(total, pixels.len());
    let colors: Vec<Color> = entries.iter().map(|e| e.color).collect();
    assert_eq!(tally_colors(&entries), colors);
}

#[test]
fn distance_is_symmetric_and_zero_on_itself() {
    let a = c(10, 200, 30);
    let b = c(250, 0, 31);
    assert_eq!(squared_distance(a, b), squared_distance(b, a));
    assert_eq!(squared_distance(a, a), 0);
    assert_eq!(squared_distance(a, b), 240 * 240 + 200 * 200 + 1);
    assert_eq!(squared_distance(c(0, 0, 0), c(255, 255, 255)), 195075);
    assert!(squared_distance(c(0, 0, 0), c(0, 0, 1)) > 0);
}

#[test]
fn hex_text_is_uppercase_and_padded() {
    assert_eq!(rgb_to_hex(255, 0, 16), "#FF0010");
    assert_eq!(rgb_to_hex(0, 0, 0), "#000000");
    assert_eq!(rgb_to_hex(171, 205, 239), "#ABCDEF");
}

#[test]
fn hex_text_reads_back() {
    assert_eq!(hex_to_rgb("#FF0010"), (255, 0, 16));
    assert_eq!(hex_to_rgb("#abcdef"), (171, 205, 239));
    assert_eq!(hex_to_rgb(&rgb_to_hex(1, 128, 254)), (1, 128, 254));
}

#[test]
fn text_after_the_first_character_reads_as_one_number() {
    assert_eq!(hex_to_rgb("#FFF"), (0, 15, 255));
    assert_eq!(hex_to_rgb("X123456"), (0x12, 0x34, 0x56));
    assert_eq!(hex_to_rgb("FF0010A"), (0xF0, 0x01, 0x0A));
    assert_eq!(hex_to_rgb("#+ff"), (0, 0, 255));
    assert_eq!(hex_to_rgb("#AB123456"), (0x12, 0x34, 0x56));
    assert_eq!(hex_to_rgb("#000000000000FF"), (0, 0, 255));
    assert_eq!(hex_to_rgb("#7"), (0, 0, 7));
}

#[test]
fn malformed_hex_text_reads_as_black() {
    assert_eq!(hex_to_rgb(""), (0, 0, 0));
    assert_eq!(hex_to_rgb("#"), (0, 0, 0));
    assert_eq!(hex_to_rgb("#+"), (0, 0, 0));
    assert_eq!(hex_to_rgb("#-12"), (0, 0, 0));
    assert_eq!(hex_to_rgb("#++12"), (0, 0, 0));
    assert_eq!(hex_to_rgb("#FF00G0"), (0, 0, 0));
    assert_eq!(hex_to_rgb("#FF00é"), (0, 0, 0));
    assert_eq!(hex_to_rgb("é123456"), (0, 0, 0));
    assert_eq!(hex_to_rgb("#100000000"), (0, 0, 0));
    assert_eq!(hex_to_rgb("#123456789"), (0, 0, 0));
}

#[test]
fn color_key_round_trip() {
    let a = c(0x12, 0x34, 0x56);
    assert_eq!(a.to_key(), 0x123456);
    assert_eq!(Color::from_key(0x123456), a);
    assert_eq!(Color::from_key(0xFFFFFF), c(255, 255, 255));
}

#[test]
fn pixel_renders_as_hex() {
    assert_eq!(palette_kmeans::color::pixel_to_hex(&c(0x0A, 0xB0, 0xFF)), "#0AB0FF");
}
