use rasterizer::depth::Depth;
use rasterizer::geometry::barycentric;
use rasterizer::geometry::fragment;
use rasterizer::geometry::Weights;
use rasterizer::vector::IVec2;
use rasterizer::vector::IVec3;

fn triangle() -> [IVec3; 3] {
    [IVec3::new(0, 0, 0), IVec3::new(4, 0, 40), IVec3::new(0, 4, -80)]
}

#[test]
fn weights_at_the_corners_are_one_and_zero() {
    let pts = triangle();
    assert_eq!(barycentric(pts, IVec2::new(0, 0)), Weights { w0: 16, w1: 0, w2: 0, den: 16 });
    assert_eq!(barycentric(pts, IVec2::new(4, 0)), Weights { w0: 0, w1: 16, w2: 0, den: 16 });
    assert_eq!(barycentric(pts, IVec2::new(0, 4)), Weights { w0: 0, w1: 0, w2: 16, den: 16 });
}

#[test]
fn weights_inside_are_quarters() {
    let pts = triangle();
    assert_eq!(barycentric(pts, IVec2::new(1, 1)), Weights { w0: 8, w1: 4, w2: 4, den: 16 });
    assert_eq!(barycentric(pts, IVec2::new(2, 1)), Weights { w0: 4, w1: 8, w2: 4, den: 16 });
}

#[test]
fn weights_add_up_to_the_denominator() {
    let pts = [IVec3::new(-7, 3, 0), IVec3::new(12, -5, 0), IVec3::new(4, 19, 0)];
    for x in -10..25 {
        for y in -10..25 {
            let w = barycentric(pts, IVec2::new(x, y));
            assert!(w.den > 0);
            assert_eq!(w.w0 + w.w1 + w.w2, w.den);
            assert_eq!(w.w0 * -7 + w.w1 * 12 + w.w2 * 4, w.den * x as i128);
            assert_eq!(w.w0 * 3 + w.w1 * -5 + w.w2 * 19, w.den * y as i128);
        }
    }
}

#[test]
fn weights_outside_have_a_negative_one() {
    let pts = triangle();
    assert_eq!(barycentric(pts, IVec2::new(3, 3)), Weights { w0: -8, w1: 12, w2: 12, den: 16 });
    assert_eq!(barycentric(pts, IVec2::new(-1, 1)), Weights { w0: 16, w1: -4, w2: 4, den: 16 });
    assert_eq!(barycentric(pts, IVec2::new(1, -1)), Weights { w0: 16, w1: 4, w2: -4, den: 16 });
}

#[test]
fn weights_do_not_depend_on_the_turn_of_the_corners() {
    let left = [IVec3::new(0, 0, 0), IVec3::new(4, 0, 0), IVec3::new(0, 4, 0)];
    let right = [IVec3::new(0, 0, 0), IVec3::new(0, 4, 0), IVec3::new(4, 0, 0)];
    for x in -2..7 {
        for y in -2..7 {
            let l = barycentric(left, IVec2::new(x, y));
            let r = barycentric(right, IVec2::new(x, y));
            assert_eq!(l, Weights { w0: r.w0, w1: r.w2, w2: r.w1, den: r.den });
        }
    }
}

#[test]
fn weights_of_a_triangle_without_area_are_all_minus_one() {
    let flat = [IVec3::new(0, 0, 0), IVec3::new(2, 2, 0), IVec3::new(5, 5, 0)];
    let point = [IVec3::new(3, 3, 1), IVec3::new(3, 3, 1), IVec3::new(3, 3, 1)];
    let outside = Weights { w0: -1, w1: -1, w2: -1, den: 1 };
    assert_eq!(barycentric(flat, IVec2::new(1, 1)), outside);
    assert_eq!(barycentric(flat, IVec2::new(9, 0)), outside);
    assert_eq!(barycentric(point, IVec2::new(3, 3)), outside);
    assert_eq!(fragment(flat, IVec2::new(1, 1)), None);
    assert_eq!(fragment(point, IVec2::new(3, 3)), None);
}

#[test]
fn weights_at_the_ends_of_the_coordinate_range() {
    let pts = [
        IVec3::new(i32::MIN, i32::MIN, 0),
        IVec3::new(i32::MAX, i32::MIN, 0),
        IVec3::new(i32::MIN, i32::MAX, 0),
    ];
    let w = barycentric(pts, IVec2::new(i32::MIN, i32::MIN));
    let side = u32::MAX as i128;
    assert_eq!(w, Weights { w0: side * side, w1: 0, w2: 0, den: side * side });
    let far = barycentric(pts, IVec2::new(i32::MAX, i32::MAX));
    assert_eq!(far, Weights { w0: -side * side, w1: side * side, w2: side * side, den: side * side });
}

#[test]
fn fragment_weighs_the_depths_of_the_corners() {
    let pts = triangle();
    let at = |whole: i64| Some(Depth { whole, part: 0, den: 16 });
    assert_eq!(fragment(pts, IVec2::new(0, 0)), at(0));
    assert_eq!(fragment(pts, IVec2::new(4, 0)), at(40));
    assert_eq!(fragment(pts, IVec2::new(0, 4)), at(-80));
    assert_eq!(fragment(pts, IVec2::new(1, 1)), at(-10));
    assert_eq!(fragment(pts, IVec2::new(2, 2)), at(-20));
    assert_eq!(fragment(pts, IVec2::new(2, 1)), at(0));
}

#[test]
fn fragment_keeps_the_fraction_of_a_depth() {
    let rising = [IVec3::new(0, 0, 0), IVec3::new(4, 0, 1), IVec3::new(0, 4, 1)];
    assert_eq!(fragment(rising, IVec2::new(1, 1)), Some(Depth { whole: 0, part: 8, den: 16 }));
    assert_eq!(fragment(rising, IVec2::new(1, 0)), Some(Depth { whole: 0, part: 4, den: 16 }));
    assert_eq!(fragment(rising, IVec2::new(2, 2)), Some(Depth { whole: 1, part: 0, den: 16 }));
    let falling = [IVec3::new(0, 0, 0), IVec3::new(4, 0, -1), IVec3::new(0, 4, -1)];
    assert_eq!(fragment(falling, IVec2::new(1, 0)), Some(Depth { whole: -1, part: 12, den: 16 }));
    assert_eq!(fragment(falling, IVec2::new(1, 1)), Some(Depth { whole: -1, part: 8, den: 16 }));
    assert_eq!(fragment(falling, IVec2::new(0, 0)), Some(Depth { whole: 0, part: 0, den: 16 }));
}

#[test]
fn fragment_is_nothing_outside_and_something_on_the_edges() {
    let pts = triangle();
    let at = |whole: i64| Some(Depth { whole, part: 0, den: 16 });
    assert_eq!(fragment(pts, IVec2::new(3, 3)), None);
    assert_eq!(fragment(pts, IVec2::new(-1, 0)), None);
    assert_eq!(fragment(pts, IVec2::new(5, 0)), None);
    assert_eq!(fragment(pts, IVec2::new(2, 0)), at(20));
    assert_eq!(fragment(pts, IVec2::new(0, 2)), at(-40));
    assert_eq!(fragment(pts, IVec2::new(3, 1)), at(10));
}

#[test]
fn fragment_keeps_to_the_range_of_the_depths() {
    let pts = [
        IVec3::new(0, 0, i32::MAX),
        IVec3::new(1000, 0, i32::MAX),
        IVec3::new(0, 1000, i32::MIN),
    ];
    let at = |whole: i64, part: i128| Some(Depth { whole, part, den: 1_000_000 });
    assert_eq!(fragment(pts, IVec2::new(0, 0)), at(i32::MAX as i64, 0));
    assert_eq!(fragment(pts, IVec2::new(500, 0)), at(i32::MAX as i64, 0));
    assert_eq!(fragment(pts, IVec2::new(0, 1000)), at(i32::MIN as i64, 0));
    assert_eq!(fragment(pts, IVec2::new(0, 500)), at(-1, 500_000));
}
