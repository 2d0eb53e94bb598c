//! CSS color parsing to ARGB.

use cortex_browser_env::color::{argb_to_components, parse_color_to_argb};

#[test]
fn test_parse_color_named_black() {
    let argb = parse_color_to_argb("black");
    assert_eq!(argb, 0xff000000);
}

#[test]
fn test_parse_color_named_white() {
    let argb = parse_color_to_argb("white");
    assert_eq!(argb, 0xffffffff);
}

#[test]
fn test_parse_color_named_red() {
    let argb = parse_color_to_argb("red");
    assert_eq!(argb, 0xffff0000);
}

#[test]
fn test_parse_color_named_green() {
    let argb = parse_color_to_argb("green");
    assert_eq!(argb, 0xff008000);
}

#[test]
fn test_parse_color_named_blue() {
    let argb = parse_color_to_argb("blue");
    assert_eq!(argb, 0xff0000ff);
}

#[test]
fn test_parse_color_hex_format() {
    let argb = parse_color_to_argb("#ff0000");
    assert_eq!(argb, 0xffff0000);
}

#[test]
fn test_parse_color_hex_white() {
    let argb = parse_color_to_argb("#ffffff");
    assert_eq!(argb, 0xffffffff);
}

#[test]
fn test_parse_color_hex_black() {
    let argb = parse_color_to_argb("#000000");
    assert_eq!(argb, 0xff000000);
}

#[test]
fn test_parse_color_rgb_format_red() {
    let argb = parse_color_to_argb("rgb(255, 0, 0)");
    assert_eq!(argb, 0xffff0000);
}

#[test]
fn test_parse_color_rgb_format_green() {
    let argb = parse_color_to_argb("rgb(0, 255, 0)");
    assert_eq!(argb, 0xff00ff00);
}

#[test]
fn test_parse_color_rgb_format_blue() {
    let argb = parse_color_to_argb("rgb(0, 0, 255)");
    assert_eq!(argb, 0xff0000ff);
}

#[test]
fn test_parse_color_rgb_format_white() {
    let argb = parse_color_to_argb("rgb(255, 255, 255)");
    assert_eq!(argb, 0xffffffff);
}

#[test]
fn test_parse_color_rgb_with_spaces() {
    let argb = parse_color_to_argb("rgb( 255 , 0 , 0 )");
    assert_eq!(argb, 0xffff0000);
}

#[test]
fn test_parse_color_case_insensitive() {
    let argb1 = parse_color_to_argb("RED");
    let argb2 = parse_color_to_argb("red");
    assert_eq!(argb1, argb2);
}

#[test]
fn test_parse_color_default_invalid() {
    let argb = parse_color_to_argb("invalid-color");

    assert_eq!(argb, 0xff000000);
}

#[test]
fn test_argb_component_split() {
    let (a, r, g, b) = argb_to_components(0xff336699);
    assert_eq!(a, 0xff);
    assert_eq!(r, 0x33);
    assert_eq!(g, 0x66);
    assert_eq!(b, 0x99);
}

#[test]
fn test_parse_color_rgb_out_of_range_part() {
    // a component over 255 cannot be read, so the text falls back to black
    let argb = parse_color_to_argb("rgb(300, 0, 0)");
    assert_eq!(argb, 0xff000000);
}

#[test]
fn test_parse_color_gray_spellings() {
    assert_eq!(parse_color_to_argb("gray"), 0xff808080);
    assert_eq!(parse_color_to_argb("grey"), 0xff808080);
}
