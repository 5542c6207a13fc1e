use rasterizer::depth::Depth;
use rasterizer::depth::MAX_DEN;

fn fraction(whole: i64, part: i128, den: i128) -> Depth {
    Depth { whole, part, den }
}

#[test]
fn whole_depths_have_no_fraction() {
    assert_eq!(Depth::of(5), fraction(5, 0, 1));
    assert_eq!(Depth::of(-5), fraction(-5, 0, 1));
    assert_eq!(Depth::of(i32::MIN), fraction(i32::MIN as i64, 0, 1));
}

#[test]
fn negative_infinity_is_below_every_whole_depth() {
    assert_eq!(Depth::neg_infinity(), fraction(i64::MIN, 0, 1));
    assert!(Depth::neg_infinity().is_below(Depth::of(i32::MIN)));
    assert!(Depth::neg_infinity().is_below(Depth::of(0)));
    assert!(!Depth::of(i32::MIN).is_below(Depth::neg_infinity()));
    assert!(!Depth::neg_infinity().is_below(Depth::neg_infinity()));
}

#[test]
fn whole_parts_decide_first() {
    assert!(Depth::of(1).is_below(Depth::of(2)));
    assert!(!Depth::of(2).is_below(Depth::of(1)));
    assert!(!Depth::of(2).is_below(Depth::of(2)));
    assert!(fraction(1, 9, 10).is_below(fraction(2, 0, 10)));
    assert!(fraction(-1, 9, 10).is_below(fraction(0, 0, 3)));
    assert!(!fraction(0, 0, 3).is_below(fraction(-1, 9, 10)));
}

#[test]
fn fractions_decide_between_equal_whole_parts() {
    assert!(fraction(0, 0, 1).is_below(fraction(0, 8, 16)));
    assert!(!fraction(0, 8, 16).is_below(fraction(0, 0, 1)));
    assert!(fraction(3, 1, 3).is_below(fraction(3, 1, 2)));
    assert!(!fraction(3, 1, 2).is_below(fraction(3, 1, 3)));
    assert!(fraction(-2, 2, 7).is_below(fraction(-2, 3, 10)));
    assert!(!fraction(-2, 3, 10).is_below(fraction(-2, 2, 7)));
}

#[test]
fn equal_fractions_are_not_below_each_other() {
    assert!(!fraction(0, 1, 2).is_below(fraction(0, 8, 16)));
    assert!(!fraction(0, 8, 16).is_below(fraction(0, 1, 2)));
    assert!(fraction(0, 1, 2).is_same(fraction(0, 8, 16)));
    assert!(fraction(7, 0, 25).is_same(Depth::of(7)));
    assert!(!fraction(7, 1, 25).is_same(Depth::of(7)));
    assert!(!fraction(6, 0, 25).is_same(Depth::of(7)));
}

#[test]
fn fractions_with_the_greatest_denominators_compare_exactly() {
    let near = fraction(0, MAX_DEN - 2, MAX_DEN - 1);
    let nearer = fraction(0, MAX_DEN - 1, MAX_DEN);
    assert!(near.is_below(nearer));
    assert!(!nearer.is_below(near));
    assert!(!near.is_same(nearer));
    assert!(nearer.is_same(nearer));
    let half = fraction(0, MAX_DEN / 2, MAX_DEN);
    assert!(half.is_same(fraction(0, 1, 2)));
    assert!(!half.is_below(fraction(0, 1, 2)));
    assert!(fraction(0, MAX_DEN / 2 - 1, MAX_DEN).is_below(fraction(0, 1, 2)));
    assert!(fraction(0, 1, 2).is_below(fraction(0, MAX_DEN / 2 + 1, MAX_DEN)));
    let low = fraction(0, 0x1_0000_0000_0000_0000, MAX_DEN - 1);
    let high = fraction(0, 0x1_0000_0000_0000_0001, MAX_DEN);
    assert!(low.is_below(high));
    assert!(!high.is_below(low));
}

#[test]
fn greatest_denominator_is_two_to_the_65() {
    assert_eq!(MAX_DEN, 1i128 << 65);
}
