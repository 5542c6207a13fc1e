//! Drawing a line one pixel wide.
//!
//! A line is walked along its longer axis, one point per step. A line that
//! is steeper than it is wide is transposed first, walked, and each point
//! transposed back, so that no gaps open. The walk runs from the left end up
//! to the right end and leaves the right end out; a line whose two ends
//! coincide therefore draws nothing. Each point is rounded to the nearest
//! pixel. A point that rounds to a pixel left of or below zero lies off every
//! surface: it is no position of the line, and nothing is drawn for it.
use vstd::prelude::*;
use vstd::arithmetic::div_mod::lemma_fundamental_div_mod;
use vstd::arithmetic::div_mod::lemma_fundamental_div_mod_converse;
use crate::arith::floor_div;
use crate::arith::product;
use crate::color::Color;
use crate::surface::Drawer;
use crate::surface::Surface;
use crate::vector::IVec2;
use crate::vector::Point;
use crate::vector::UVec2;

verus! {

/// The distance of a number from zero.
pub open spec fn abs(v: int) -> int {
    if v < 0 {
        -v
    } else {
        v
    }
}

/// The fraction `n / d` with a positive `d`, rounded to the nearest whole
/// number, a half away from zero.
pub open spec fn rounded(n: int, d: int) -> int {
    if n >= 0 {
        (2 * n + d) / (2 * d)
    } else {
        -((d - 2 * n) / (2 * d))
    }
}

/// Whether the line rises faster than it runs.
pub open spec fn steep(from: Point, to: Point) -> bool {
    abs(from.x - to.x) < abs(from.y - to.y)
}

/// The two ends in the order of the walk: transposed if the line is steep,
/// and the one further left first.
pub open spec fn ends(from: Point, to: Point) -> (Point, Point) {
    let a = if steep(from, to) {
        from.transposed()
    } else {
        from
    };
    let b = if steep(from, to) {
        to.transposed()
    } else {
        to
    };
    if a.x > b.x {
        (b, a)
    } else {
        (a, b)
    }
}

/// The height of the segment from `a` to `b` above column `x`, rounded to
/// the nearest whole number. Meant for `a.x < b.x`.
pub open spec fn height_at(a: Point, b: Point, x: int) -> int {
    rounded(a.y * (b.x - a.x) + (b.y - a.y) * (x - a.x), b.x - a.x)
}

/// The pixel to which the point above column `x` of the walk from `a` to `b`
/// rounds, transposed back if the line was transposed.
pub open spec fn walk_point(a: Point, b: Point, transposed: bool, x: int) -> Point {
    if transposed {
        Point { x: height_at(a, b, x), y: x }
    } else {
        Point { x, y: height_at(a, b, x) }
    }
}

/// The positions of the walk from `a` to `b` for the columns below `x`, in
/// the order of the walk: the pixel of each column, unless it lies left of
/// or below zero.
pub open spec fn walked(a: Point, b: Point, transposed: bool, x: int) -> Seq<Point>
    decreases x - a.x,
{
    if x <= a.x {
        Seq::empty()
    } else {
        let before = walked(a, b, transposed, x - 1);
        let p = walk_point(a, b, transposed, x - 1);
        if p.x >= 0 && p.y >= 0 {
            before.push(p)
        } else {
            before
        }
    }
}

/// The positions of the line from `from` to `to`, in the order of the walk.
pub open spec fn line_points(from: Point, to: Point) -> Seq<Point> {
    walked(ends(from, to).0, ends(from, to).1, steep(from, to), ends(from, to).1.x)
}

impl Surface {
    /// The surface after `word` was written at each of `points` in turn.
    pub open spec fn write_all(self, points: Seq<Point>, word: u32) -> Surface
        decreases points.len(),
    {
        if points.len() == 0 {
            self
        } else {
            self.write_all(points.drop_last(), word).write(
                points.last().x,
                points.last().y,
                word,
            )
        }
    }
}

/// No position of a walk lies left of or below zero, and a walk that has not
/// come to column zero yet has no position at all.
pub proof fn lemma_walk_stays_on_the_grid(a: Point, b: Point, transposed: bool, x: int)
    ensures
        forall|i: int|
            0 <= i < walked(a, b, transposed, x).len() ==> (#[trigger] walked(
                a,
                b,
                transposed,
                x,
            )[i]).x >= 0 && walked(a, b, transposed, x)[i].y >= 0,
        x <= 0 ==> walked(a, b, transposed, x).len() == 0,
    decreases x - a.x,
{
    if x > a.x {
        lemma_walk_stays_on_the_grid(a, b, transposed, x - 1);
        let before = walked(a, b, transposed, x - 1);
        let all = walked(a, b, transposed, x);
        assert forall|i: int| 0 <= i < all.len() implies (#[trigger] all[i]).x >= 0 && all[i].y
            >= 0 by {
            if i < before.len() {
                assert(all[i] == before[i]);
            }
        }
    }
}

/// No position of a line lies left of or below zero.
pub proof fn lemma_line_stays_on_the_grid(from: Point, to: Point)
    ensures
        forall|i: int|
            0 <= i < line_points(from, to).len() ==> (#[trigger] line_points(from, to)[i]).x >= 0
                && line_points(from, to)[i].y >= 0,
{
    lemma_walk_stays_on_the_grid(
        ends(from, to).0,
        ends(from, to).1,
        steep(from, to),
        ends(from, to).1.x,
    );
}

/// A line has the same positions from whichever end it is given.
pub proof fn lemma_line_symmetric(from: Point, to: Point)
    ensures
        line_points(from, to) == line_points(to, from),
{
    assert(steep(from, to) == steep(to, from));
}

/// The walk along a level line above zero visits every column in turn at
/// the height of the line.
proof fn lemma_level_walk(x1: int, x2: int, y: int, x: int)
    requires
        0 <= x1 <= x <= x2,
        0 <= y,
    ensures
        walked(Point { x: x1, y }, Point { x: x2, y }, false, x) == Seq::new(
            (x - x1) as nat,
            |k: int| Point { x: x1 + k, y },
        ),
    decreases x - x1,
{
    let a = Point { x: x1, y };
    let b = Point { x: x2, y };
    if x > x1 {
        lemma_level_walk(x1, x2, y, x - 1);
        let run = x2 - x1;
        assert((y - y) * ((x - 1) - x1) == 0) by (nonlinear_arith);
        assert(y * run >= 0) by (nonlinear_arith)
            requires
                y >= 0,
                run >= 0,
        ;
        assert(2 * (y * run + 0) + run == y * (2 * run) + run) by (nonlinear_arith);
        lemma_fundamental_div_mod_converse(y * (2 * run) + run, 2 * run, y, run);
        assert(walk_point(a, b, false, x - 1) == Point { x: x - 1, y });
    }
    assert(walked(a, b, false, x) =~= Seq::new((x - x1) as nat, |k: int| Point { x: x1 + k, y }));
}

/// A level line that starts at or right of zero, at a height of zero or
/// more, is drawn from its left end up to its right end, which is left out.
pub proof fn lemma_level_line(x1: int, x2: int, y: int)
    requires
        0 <= x1 <= x2,
        0 <= y,
    ensures
        line_points(Point { x: x1, y }, Point { x: x2, y }) == Seq::new(
            (x2 - x1) as nat,
            |k: int| Point { x: x1 + k, y },
        ),
{
    lemma_level_walk(x1, x2, y, x2);
}

/// The height of a walk lies between the heights of its two ends.
pub proof fn lemma_height_between_ends(a: Point, b: Point, x: int)
    requires
        a.x <= x < b.x,
    ensures
        a.y <= b.y ==> a.y <= height_at(a, b, x) <= b.y,
        b.y <= a.y ==> b.y <= height_at(a, b, x) <= a.y,
{
    let run = b.x - a.x;
    let t = x - a.x;
    let n = a.y * run + (b.y - a.y) * t;
    let lo = if a.y <= b.y {
        a.y
    } else {
        b.y
    };
    let hi = if a.y <= b.y {
        b.y
    } else {
        a.y
    };
    assert(lo * run <= n <= hi * run) by (nonlinear_arith)
        requires
            n == a.y * run + (b.y - a.y) * t,
            0 <= t < run,
            lo <= a.y <= hi,
            lo <= b.y <= hi,
            a.y == lo || a.y == hi,
            b.y == lo || b.y == hi,
    ;
    if n >= 0 {
        let m = 2 * n + run;
        lemma_fundamental_div_mod(m, 2 * run);
        let q = m / (2 * run);
        let r = m % (2 * run);
        assert(0 <= r < 2 * run) by (nonlinear_arith)
            requires
                r == m % (2 * run),
                run > 0,
        ;
        assert(lo <= q <= hi) by (nonlinear_arith)
            requires
                m == (2 * run) * q + r,
                0 <= r < 2 * run,
                m == 2 * n + run,
                lo * run <= n <= hi * run,
                run > 0,
        ;
    } else {
        let m = run - 2 * n;
        lemma_fundamental_div_mod(m, 2 * run);
        let q = m / (2 * run);
        let r = m % (2 * run);
        assert(0 <= r < 2 * run) by (nonlinear_arith)
            requires
                r == m % (2 * run),
                run > 0,
        ;
        assert(-hi <= q <= -lo) by (nonlinear_arith)
            requires
                m == (2 * run) * q + r,
                0 <= r < 2 * run,
                m == run - 2 * n,
                lo * run <= n <= hi * run,
                run > 0,
        ;
    }
}

/// The height of the segment from `a` to `b` above column `x`, if it is not
/// below zero.
fn height(a: IVec2, b: IVec2, x: i64) -> (y: Option<u32>)
    requires
        a.x <= x < b.x,
    ensures
        match y {
            Some(h) => h == height_at(a@, b@, x as int),
            None => height_at(a@, b@, x as int) < 0,
        },
{
    let run: i64 = b.x as i64 - a.x as i64;
    let n: i128 = product(a.y as i64, run) + product(b.y as i64 - a.y as i64, x - a.x as i64);
    proof {
        lemma_height_between_ends(a@, b@, x as int);
    }
    if n >= 0 {
        let q: i128 = floor_div(2 * n + run as i128, 2 * run as i128);
        Some(q as u32)
    } else {
        let q: i128 = floor_div(run as i128 - 2 * n, 2 * run as i128);
        if q >= 1 {
            None
        } else {
            Some(0)
        }
    }
}

impl Drawer {
    /// Draws the line from `pos_1` to `pos_2` in `color`: writes each of the
    /// line's positions in the order of the walk.
    pub fn line(&mut self, pos_1: IVec2, pos_2: IVec2, color: Color)
        requires
            old(self).wf(),
        ensures
            final(self).wf(),
            final(self)@ == old(self)@.write_all(line_points(pos_1@, pos_2@), color.packed()),
    {
        let run: i64 = pos_1.x as i64 - pos_2.x as i64;
        let rise: i64 = pos_1.y as i64 - pos_2.y as i64;
        let across: i64 = if run < 0 {
            -run
        } else {
            run
        };
        let up: i64 = if rise < 0 {
            -rise
        } else {
            rise
        };
        let is_steep: bool = across < up;
        let mut a: IVec2 = pos_1;
        let mut b: IVec2 = pos_2;
        if is_steep {
            a = pos_1.transpose();
            b = pos_2.transpose();
        }
        if a.x > b.x {
            let left = b;
            b = a;
            a = left;
        }
        let first: i64 = if a.x < 0 {
            0
        } else {
            a.x as i64
        };
        let end: i64 = if (b.x as i64) < first {
            first
        } else {
            b.x as i64
        };
        let ghost from = self@;
        let ghost word = color.packed();
        proof {
            lemma_walk_stays_on_the_grid(a@, b@, is_steep, first as int);
            lemma_walk_stays_on_the_grid(a@, b@, is_steep, b.x as int);
            assert(walked(a@, b@, is_steep, first as int) =~= Seq::<Point>::empty());
            if b.x < first {
                assert(walked(a@, b@, is_steep, b.x as int) =~= Seq::<Point>::empty());
            }
        }
        let mut x: i64 = first;
        while x < end
            invariant
                self.wf(),
                word == color.packed(),
                a.x <= b.x,
                a.x <= first <= x <= end,
                0 <= first,
                end <= i32::MAX,
                end == b.x || end == first,
                self@ == from.write_all(walked(a@, b@, is_steep, x as int), word),
            decreases end - x,
        {
            let ghost before = walked(a@, b@, is_steep, x as int);
            let ghost after = walked(a@, b@, is_steep, x + 1);
            match height(a, b, x) {
                Some(y) => {
                    let pos = if is_steep {
                        UVec2 { x: y, y: x as u32 }
                    } else {
                        UVec2 { x: x as u32, y }
                    };
                    self.pixel(pos, color);
                    proof {
                        assert(pos@ == walk_point(a@, b@, is_steep, x as int));
                        assert(after == before.push(pos@));
                        assert(after.drop_last() =~= before);
                        assert(after.last() == pos@);
                    }
                },
                None => {
                    proof {
                        assert(after == before);
                    }
                },
            }
            x += 1;
        }
    }
}

} // verus!
