use rasterizer::color::Color;
use rasterizer::surface::Drawer;
use rasterizer::vector::IVec2;
use rasterizer::vector::UVec2;

const WHITE: u32 = 0x00ff_ffff;

fn surface(width: u32, height: u32) -> Drawer {
    match Drawer::new(width, height) {
        Ok(drawer) => drawer,
        Err(error) => panic!("no surface: {:?}", error),
    }
}

/// The positions that are not black, column by column from the bottom up.
fn colored(drawer: &Drawer) -> Vec<(u32, u32)> {
    let size = drawer.screen_size();
    let mut found = Vec::new();
    for x in 0..size.x {
        for y in 1..size.y + 1 {
            if drawer.get(UVec2::new(x, y)) != Some(0) {
                found.push((x, y));
            }
        }
    }
    found
}

fn drawn(from: (i32, i32), to: (i32, i32)) -> Vec<(u32, u32)> {
    let mut drawer = surface(16, 16);
    drawer.line(IVec2::new(from.0, from.1), IVec2::new(to.0, to.1), Color::new(255, 255, 255));
    colored(&drawer)
}

#[test]
fn level_line_leaves_its_right_end_out() {
    let expected: Vec<(u32, u32)> = (0..10).map(|x| (x, 1)).collect();
    assert_eq!(drawn((0, 1), (10, 1)), expected);
}

#[test]
fn level_line_at_height_zero_lands_nowhere() {
    let mut drawer = surface(16, 16);
    drawer.line(IVec2::new(0, 0), IVec2::new(10, 0), Color::new(255, 255, 255));
    assert_eq!(drawer.finish(), vec![0u32; 256]);
}

#[test]
fn level_line_is_stored_in_the_flipped_row() {
    let mut drawer = surface(16, 16);
    drawer.line(IVec2::new(0, 16), IVec2::new(10, 16), Color::new(255, 255, 255));
    let pixels = drawer.finish();
    for (i, word) in pixels.iter().enumerate() {
        assert_eq!(*word, if i < 10 { WHITE } else { 0 });
    }
}

#[test]
fn line_is_the_same_from_either_end() {
    assert_eq!(drawn((10, 1), (0, 1)), drawn((0, 1), (10, 1)));
    assert_eq!(drawn((13, 2), (1, 9)), drawn((1, 9), (13, 2)));
    assert_eq!(drawn((4, 15), (2, 1)), drawn((2, 1), (4, 15)));
}

#[test]
fn gentle_line_rounds_halves_up() {
    assert_eq!(drawn((0, 1), (4, 3)), vec![(0, 1), (1, 2), (2, 2), (3, 3)]);
}

#[test]
fn falling_line_is_walked_from_the_left() {
    assert_eq!(drawn((0, 3), (5, 1)), vec![(0, 3), (1, 3), (2, 2), (3, 2), (4, 1)]);
}

#[test]
fn upright_line_is_walked_along_its_height() {
    assert_eq!(drawn((2, 1), (2, 6)), vec![(2, 1), (2, 2), (2, 3), (2, 4), (2, 5)]);
}

#[test]
fn steep_line_has_one_position_for_each_row() {
    assert_eq!(
        drawn((1, 1), (4, 9)),
        vec![(1, 1), (1, 2), (2, 3), (2, 4), (3, 5), (3, 6), (3, 7), (4, 8)]
    );
}

#[test]
fn line_of_one_point_draws_nothing() {
    assert_eq!(drawn((3, 3), (3, 3)), vec![]);
}

#[test]
fn line_from_the_left_of_the_surface_starts_at_column_zero() {
    assert_eq!(drawn((-3, 2), (3, 2)), vec![(0, 2), (1, 2), (2, 2)]);
}

#[test]
fn line_left_of_the_surface_draws_nothing() {
    assert_eq!(drawn((-5, 5), (-1, 2)), vec![]);
}

#[test]
fn line_below_zero_is_not_drawn_there() {
    let mut drawer = surface(16, 16);
    drawer.line(IVec2::new(-2, 6), IVec2::new(2, -2), Color::new(255, 255, 255));
    assert_eq!(colored(&drawer), vec![(0, 2), (1, 1)]);
}

#[test]
fn line_from_the_left_draws_nothing_in_column_zero_for_points_left_of_it() {
    let mut drawer = surface(8, 8);
    drawer.line(IVec2::new(-3, 1), IVec2::new(2, 7), Color::new(255, 0, 0));
    assert_eq!(colored(&drawer), vec![(0, 5), (1, 6)]);
    let pixels = drawer.finish();
    assert_eq!(pixels[56], 0);
    assert_eq!(pixels[48], 0);
    assert_eq!(pixels[40], 0);
    assert_eq!(pixels[32], 0);
    assert_eq!(pixels[24], 0x00ff_0000);
    assert_eq!(pixels[17], 0x00ff_0000);
}

#[test]
fn line_from_below_draws_nothing_in_row_zero_for_points_below_it() {
    let mut drawer = surface(8, 8);
    drawer.line(IVec2::new(1, -3), IVec2::new(7, 2), Color::new(255, 0, 0));
    assert_eq!(colored(&drawer), vec![(6, 1)]);
    assert_eq!(drawer.finish().iter().filter(|word| **word != 0).count(), 1);
}

#[test]
fn line_beyond_the_surface_is_cut_off() {
    let mut drawer = surface(4, 4);
    drawer.line(IVec2::new(0, 2), IVec2::new(4, 2), Color::new(255, 255, 255));
    assert_eq!(colored(&drawer), vec![(0, 2), (1, 2), (2, 2), (3, 2)]);
    let mut tall = surface(4, 4);
    tall.line(IVec2::new(1, 1), IVec2::new(1, 100), Color::new(255, 255, 255));
    assert_eq!(colored(&tall), vec![(1, 1), (1, 2), (1, 3), (1, 4)]);
}

#[test]
fn line_keeps_what_it_does_not_cross() {
    let mut drawer = surface(16, 16);
    drawer.line(IVec2::new(0, 5), IVec2::new(16, 5), Color::new(255, 0, 0));
    drawer.line(IVec2::new(3, 1), IVec2::new(3, 16), Color::new(0, 0, 255));
    assert_eq!(drawer.get(UVec2::new(3, 5)), Some(0x0000_00ff));
    assert_eq!(drawer.get(UVec2::new(2, 5)), Some(0x00ff_0000));
    assert_eq!(drawer.get(UVec2::new(3, 4)), Some(0x0000_00ff));
    assert_eq!(drawer.get(UVec2::new(4, 4)), Some(0));
}

#[test]
fn long_lines_have_one_position_for_each_step() {
    let mut drawer = surface(100, 100);
    drawer.line(IVec2::new(13, 20), IVec2::new(80, 40), Color::new(255, 255, 255));
    let gentle = colored(&drawer);
    assert_eq!(gentle.len(), 67);
    assert_eq!(gentle[..5], [(13, 20), (14, 20), (15, 21), (16, 21), (17, 21)]);
    assert_eq!(gentle[64..], [(77, 39), (78, 39), (79, 40)]);
    let mut other = surface(100, 100);
    other.line(IVec2::new(20, 13), IVec2::new(40, 80), Color::new(255, 0, 0));
    let steep = colored(&other);
    assert_eq!(steep.len(), 67);
    assert_eq!(steep[..5], [(20, 13), (20, 14), (21, 15), (21, 16), (21, 17)]);
}
