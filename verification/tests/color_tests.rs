use simpleterm::color::Color;

#[test]
fn white_is_brighter_than_black() {
    let white = Color::new(1000, 1000, 1000, 1000);
    let black = Color::new(0, 0, 0, 1000);
    assert!(white.brighter_than(black));
    assert!(!black.brighter_than(white));
    assert!(!white.brighter_than(white));
}

#[test]
fn transparent_color_has_zero_brightness() {
    let invisible = Color::new(1000, 700, 300, 0);
    assert_eq!(invisible.brightness(), 0);
    let also_invisible = Color::new(0, 0, 0, 0);
    assert_eq!(also_invisible.brightness(), 0);
    assert!(!invisible.brighter_than(also_invisible));
    assert!(!also_invisible.brighter_than(invisible));
}

#[test]
fn opaque_white_brightness_is_the_full_scale() {
    let white = Color::new(1000, 1000, 1000, 1000);
    assert_eq!(white.brightness(), 1_000_000_000_000_000);
}

#[test]
fn green_weighs_more_than_red_and_blue() {
    let red = Color::new(1000, 0, 0, 1000);
    let green = Color::new(0, 1000, 0, 1000);
    let blue = Color::new(0, 0, 1000, 1000);
    assert!(green.brighter_than(red));
    assert!(red.brighter_than(blue));
    assert_eq!(red.brightness(), 241_000_000_000_000);
}

#[test]
fn alpha_scales_brightness_down() {
    let full = Color::new(600, 600, 600, 1000);
    let faded = Color::new(600, 600, 600, 500);
    assert!(full.brighter_than(faded));
}
