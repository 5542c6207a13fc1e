use rasterizer::color::Color;
use rasterizer::color::BACKGROUND;

#[test]
fn pack_puts_blue_low_and_red_high() {
    assert_eq!(Color::new(0x12, 0x34, 0x56).pack(), 0x0012_3456);
    assert_eq!(Color::new(255, 0, 0).pack(), 0x00ff_0000);
    assert_eq!(Color::new(0, 255, 0).pack(), 0x0000_ff00);
    assert_eq!(Color::new(0, 0, 255).pack(), 0x0000_00ff);
    assert_eq!(Color::new(255, 255, 255).pack(), 0x00ff_ffff);
}

#[test]
fn black_packs_to_the_background() {
    assert_eq!(Color::new(0, 0, 0).pack(), BACKGROUND);
    assert_eq!(BACKGROUND, 0);
}

#[test]
fn gray_repeats_the_level() {
    assert_eq!(Color::gray(153), Color::new(153, 153, 153));
    assert_eq!(Color::gray(153).pack(), 0x0099_9999);
}
