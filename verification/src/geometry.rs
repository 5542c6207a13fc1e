//! Barycentric weights of a pixel against a triangle, in exact arithmetic.
//!
//! The weights of a pixel are three fractions with a common denominator. They
//! are kept as three integer numerators and that denominator, which is made
//! positive, so that the sign of a weight is the sign of its numerator.
use vstd::prelude::*;
use vstd::arithmetic::div_mod::lemma_fundamental_div_mod;
use vstd::arithmetic::div_mod::lemma_mod_bound;
use crate::arith::floor_div;
use crate::arith::lemma_product_bound;
use crate::arith::product;
use crate::depth::lemma_below_is_the_order_of_fractions;
use crate::depth::Depth;
use crate::depth::MAX_DEN;
use crate::vector::IVec2;
use crate::vector::IVec3;
use crate::vector::Point;

verus! {

/// The barycentric weights of a point against a triangle: the weight of
/// corner `i` is `wi / den`, and `den` is positive.
#[derive(Clone, Copy, Debug, PartialEq, Eq, Structural)]
pub struct Weights {
    pub w0: i128,
    pub w1: i128,
    pub w2: i128,
    pub den: i128,
}

/// The weights as mathematical integers.
pub struct WeightsModel {
    pub w0: int,
    pub w1: int,
    pub w2: int,
    pub den: int,
}

impl View for Weights {
    type V = WeightsModel;

    open spec fn view(&self) -> WeightsModel {
        WeightsModel {
            w0: self.w0 as int,
            w1: self.w1 as int,
            w2: self.w2 as int,
            den: self.den as int,
        }
    }
}

impl WeightsModel {
    /// A point is inside when none of its weights is negative. Points on an
    /// edge are inside for both triangles that share the edge.
    pub open spec fn inside(self) -> bool {
        self.w0 >= 0 && self.w1 >= 0 && self.w2 >= 0
    }
}

/// First component of the cross product of the two difference vectors
/// `(c.x - a.x, b.x - a.x, a.x - p.x)` and `(c.y - a.y, b.y - a.y, a.y - p.y)`
/// of a triangle `a`, `b`, `c` and a point `p`.
pub open spec fn cross_x(a: IVec3, b: IVec3, p: Point) -> int {
    (b.x - a.x) * (a.y - p.y) - (a.x - p.x) * (b.y - a.y)
}

/// Second component of that cross product.
pub open spec fn cross_y(a: IVec3, c: IVec3, p: Point) -> int {
    (a.x - p.x) * (c.y - a.y) - (c.x - a.x) * (a.y - p.y)
}

/// Third component of that cross product. It does not depend on the point:
/// it is twice the signed area of the triangle, and zero exactly when the
/// three corners lie on one line.
pub open spec fn cross_z(a: IVec3, b: IVec3, c: IVec3) -> int {
    (c.x - a.x) * (b.y - a.y) - (b.x - a.x) * (c.y - a.y)
}

/// The triangle has no area. Doubled areas are whole numbers, so a triangle
/// that is not degenerate has a doubled area of one at least: there are no
/// nearly degenerate triangles to guard against.
pub open spec fn degenerate(pts: [IVec3; 3]) -> bool {
    cross_z(pts[0], pts[1], pts[2]) == 0
}

/// The barycentric weights of `p` against the triangle `pts`. With `u` the
/// cross product above, they are `1 - (u.x + u.y) / u.z`, `u.y / u.z` and
/// `u.x / u.z`. For a triangle without area all three are `-1`, which marks
/// every point as outside.
pub open spec fn weights(pts: [IVec3; 3], p: Point) -> WeightsModel {
    let x = cross_x(pts[0], pts[1], p);
    let y = cross_y(pts[0], pts[2], p);
    let z = cross_z(pts[0], pts[1], pts[2]);
    if z > 0 {
        WeightsModel { w0: z - (x + y), w1: y, w2: x, den: z }
    } else if z < 0 {
        WeightsModel { w0: (x + y) - z, w1: -y, w2: -x, den: -z }
    } else {
        WeightsModel { w0: -1, w1: -1, w2: -1, den: 1 }
    }
}

/// The triangle covers the point: none of the point's weights is negative.
pub open spec fn covers(pts: [IVec3; 3], p: Point) -> bool {
    weights(pts, p).inside()
}

/// The corners' depths weighted by the numerators of the weights of `p`:
/// the numerator of the triangle's depth at `p`, over the denominator of
/// the weights.
pub open spec fn depth_sum(pts: [IVec3; 3], p: Point) -> int {
    let w = weights(pts, p);
    w.w0 * pts[0].z + w.w1 * pts[1].z + w.w2 * pts[2].z
}

/// The depth of the triangle at `p`: the corners' depths weighted by the
/// weights of `p`, exactly, as a whole part and a fraction.
pub open spec fn depth_at(pts: [IVec3; 3], p: Point) -> Depth {
    let den = weights(pts, p).den;
    Depth {
        whole: (depth_sum(pts, p) / den) as i64,
        part: (depth_sum(pts, p) % den) as i128,
        den: den as i128,
    }
}

/// Computes the barycentric weights of `p` against the triangle `pts`.
pub fn barycentric(pts: [IVec3; 3], p: IVec2) -> (w: Weights)
    ensures
        w@ == weights(pts, p@),
        w.den > 0,
{
    bounded_weights(pts, p)
}

/// The weights, with the room that they leave for further arithmetic.
fn bounded_weights(pts: [IVec3; 3], p: IVec2) -> (w: Weights)
    ensures
        w@ == weights(pts, p@),
        0 < w.den <= MAX_DEN,
        -0x10_0000_0000_0000_0000 <= w.w0 <= 0x10_0000_0000_0000_0000,
        -0x10_0000_0000_0000_0000 <= w.w1 <= 0x10_0000_0000_0000_0000,
        -0x10_0000_0000_0000_0000 <= w.w2 <= 0x10_0000_0000_0000_0000,
{
    let ax: i64 = pts[0].x as i64;
    let ay: i64 = pts[0].y as i64;
    let bx: i64 = pts[1].x as i64;
    let by: i64 = pts[1].y as i64;
    let cx: i64 = pts[2].x as i64;
    let cy: i64 = pts[2].y as i64;
    let px: i64 = p.x as i64;
    let py: i64 = p.y as i64;
    let x: i128 = product(bx - ax, ay - py) - product(ax - px, by - ay);
    let y: i128 = product(ax - px, cy - ay) - product(cx - ax, ay - py);
    let z: i128 = product(cx - ax, by - ay) - product(bx - ax, cy - ay);
    if z > 0 {
        Weights { w0: z - (x + y), w1: y, w2: x, den: z }
    } else if z < 0 {
        Weights { w0: (x + y) - z, w1: -y, w2: -x, den: -z }
    } else {
        Weights { w0: -1, w1: -1, w2: -1, den: 1 }
    }
}

/// The least of three numbers.
pub open spec fn min3(a: int, b: int, c: int) -> int {
    if a <= b && a <= c {
        a
    } else if b <= c {
        b
    } else {
        c
    }
}

/// The greatest of three numbers.
pub open spec fn max3(a: int, b: int, c: int) -> int {
    if a >= b && a >= c {
        a
    } else if b >= c {
        b
    } else {
        c
    }
}

/// The denominator is positive, and the weights of any point against a
/// triangle with area add up to one.
pub proof fn lemma_weights_sum_to_one(pts: [IVec3; 3], p: Point)
    ensures
        weights(pts, p).den > 0,
        !degenerate(pts) ==> weights(pts, p).w0 + weights(pts, p).w1 + weights(pts, p).w2
            == weights(pts, p).den,
{
}

/// The cross product of two vectors is orthogonal to both of them.
pub proof fn lemma_cross_is_orthogonal(a1: int, a2: int, a3: int, b1: int, b2: int, b3: int)
    ensures
        (a2 * b3 - a3 * b2) * a1 + (a3 * b1 - a1 * b3) * a2 + (a1 * b2 - a2 * b1) * a3 == 0,
        (a2 * b3 - a3 * b2) * b1 + (a3 * b1 - a1 * b3) * b2 + (a1 * b2 - a2 * b1) * b3 == 0,
{
    assert((a2 * b3 - a3 * b2) * a1 == a1 * a2 * b3 - a1 * a3 * b2) by (nonlinear_arith);
    assert((a3 * b1 - a1 * b3) * a2 == a2 * a3 * b1 - a1 * a2 * b3) by (nonlinear_arith);
    assert((a1 * b2 - a2 * b1) * a3 == a1 * a3 * b2 - a2 * a3 * b1) by (nonlinear_arith);
    assert((a2 * b3 - a3 * b2) * b1 == a2 * b3 * b1 - a3 * b2 * b1) by (nonlinear_arith);
    assert((a3 * b1 - a1 * b3) * b2 == a3 * b2 * b1 - a1 * b3 * b2) by (nonlinear_arith);
    assert((a1 * b2 - a2 * b1) * b3 == a1 * b3 * b2 - a2 * b3 * b1) by (nonlinear_arith);
}

/// The weights of a point against a triangle with area give the point back
/// as the weighted sum of the corners. Together with their sum this fixes them.
pub proof fn lemma_weights_locate_point(pts: [IVec3; 3], p: Point)
    requires
        !degenerate(pts),
    ensures
        weights(pts, p).w0 * pts[0].x + weights(pts, p).w1 * pts[1].x + weights(pts, p).w2
            * pts[2].x == weights(pts, p).den * p.x,
        weights(pts, p).w0 * pts[0].y + weights(pts, p).w1 * pts[1].y + weights(pts, p).w2
            * pts[2].y == weights(pts, p).den * p.y,
{
    let ax = pts[0].x as int;
    let ay = pts[0].y as int;
    let bx = pts[1].x as int;
    let by = pts[1].y as int;
    let cx = pts[2].x as int;
    let cy = pts[2].y as int;
    let px = p.x;
    let py = p.y;
    let b1 = bx - ax;
    let c1 = cx - ax;
    let q1 = ax - px;
    let b2 = by - ay;
    let c2 = cy - ay;
    let q2 = ay - py;
    let x = b1 * q2 - q1 * b2;
    let y = q1 * c2 - c1 * q2;
    let z = c1 * b2 - b1 * c2;
    lemma_cross_is_orthogonal(c1, b1, q1, c2, b2, q2);
    lemma_locate(x, y, z, ax, bx, cx, px);
    lemma_locate(x, y, z, ay, by, cy, py);
}

/// If `x`, `y`, `z` weigh the differences `c - a`, `b - a`, `a - p` to zero,
/// then `z - (x + y)`, `y`, `x` weigh `a`, `b`, `c` to `z` times `p`.
proof fn lemma_locate(x: int, y: int, z: int, a: int, b: int, c: int, p: int)
    requires
        x * (c - a) + y * (b - a) + z * (a - p) == 0,
    ensures
        (z - (x + y)) * a + y * b + x * c == z * p,
        ((x + y) - z) * a + (-y) * b + (-x) * c == (-z) * p,
{
    assert(x * (c - a) == x * c - x * a) by (nonlinear_arith);
    assert(y * (b - a) == y * b - y * a) by (nonlinear_arith);
    assert(z * (a - p) == z * a - z * p) by (nonlinear_arith);
    assert((z - (x + y)) * a == z * a - x * a - y * a) by (nonlinear_arith);
    assert(((x + y) - z) * a == x * a + y * a - z * a) by (nonlinear_arith);
    assert((-y) * b == -(y * b)) by (nonlinear_arith);
    assert((-x) * c == -(x * c)) by (nonlinear_arith);
    assert((-z) * p == -(z * p)) by (nonlinear_arith);
}

/// A weighted mean with weights that are not negative lies between the
/// least and the greatest of the three values, also after rounding down.
pub proof fn lemma_mean_in_range(w0: int, w1: int, w2: int, den: int, a: int, b: int, c: int)
    requires
        w0 >= 0,
        w1 >= 0,
        w2 >= 0,
        den > 0,
        w0 + w1 + w2 == den,
    ensures
        min3(a, b, c) * den <= w0 * a + w1 * b + w2 * c <= max3(a, b, c) * den,
        min3(a, b, c) <= (w0 * a + w1 * b + w2 * c) / den <= max3(a, b, c),
{
    let lo = min3(a, b, c);
    let hi = max3(a, b, c);
    let n = w0 * a + w1 * b + w2 * c;
    assert(lo * den <= n) by (nonlinear_arith)
        requires
            w0 >= 0,
            w1 >= 0,
            w2 >= 0,
            w0 + w1 + w2 == den,
            lo <= a,
            lo <= b,
            lo <= c,
            n == w0 * a + w1 * b + w2 * c,
    ;
    assert(n <= hi * den) by (nonlinear_arith)
        requires
            w0 >= 0,
            w1 >= 0,
            w2 >= 0,
            w0 + w1 + w2 == den,
            hi >= a,
            hi >= b,
            hi >= c,
            n == w0 * a + w1 * b + w2 * c,
    ;
    lemma_fundamental_div_mod(n, den);
    let q = n / den;
    let r = n % den;
    assert(0 <= r < den) by (nonlinear_arith)
        requires
            r == n % den,
            den > 0,
    ;
    assert(lo <= q) by (nonlinear_arith)
        requires
            lo * den <= n,
            n == den * q + r,
            0 <= r < den,
    ;
    assert(q <= hi) by (nonlinear_arith)
        requires
            n <= hi * den,
            n == den * q + r,
            0 <= r < den,
    ;
}

/// The denominator of the weights is at most the greatest denominator of a depth.
pub proof fn lemma_denominator_in_range(pts: [IVec3; 3], p: Point)
    ensures
        0 < weights(pts, p).den <= MAX_DEN,
{
    lemma_product_bound(
        pts[2].x - pts[0].x,
        pts[1].y - pts[0].y,
        0x1_0000_0000,
        0x1_0000_0000,
    );
    lemma_product_bound(
        pts[1].x - pts[0].x,
        pts[2].y - pts[0].y,
        0x1_0000_0000,
        0x1_0000_0000,
    );
}

/// A triangle covers only points of its bounding box, and its depth at a
/// point that it covers lies between the depths of its corners: it is a
/// depth in good order, and above negative infinity.
pub proof fn lemma_covered_point_is_bounded(pts: [IVec3; 3], p: Point)
    requires
        covers(pts, p),
    ensures
        !degenerate(pts),
        min3(pts[0].x as int, pts[1].x as int, pts[2].x as int) <= p.x <= max3(
            pts[0].x as int,
            pts[1].x as int,
            pts[2].x as int,
        ),
        min3(pts[0].y as int, pts[1].y as int, pts[2].y as int) <= p.y <= max3(
            pts[0].y as int,
            pts[1].y as int,
            pts[2].y as int,
        ),
        min3(pts[0].z as int, pts[1].z as int, pts[2].z as int) <= depth_at(pts, p).whole <= max3(
            pts[0].z as int,
            pts[1].z as int,
            pts[2].z as int,
        ),
        min3(pts[0].z as int, pts[1].z as int, pts[2].z as int) <= depth_sum(pts, p) / weights(
            pts,
            p,
        ).den <= max3(pts[0].z as int, pts[1].z as int, pts[2].z as int),
        depth_at(pts, p).valid(),
        depth_at(pts, p).numerator() == depth_sum(pts, p),
        depth_at(pts, p).den == weights(pts, p).den,
        Depth::nothing().below(depth_at(pts, p)),
{
    let w = weights(pts, p);
    lemma_denominator_in_range(pts, p);
    lemma_fundamental_div_mod(depth_sum(pts, p), w.den);
    lemma_mod_bound(depth_sum(pts, p), w.den);
    assert(w.den * (depth_sum(pts, p) / w.den) == (depth_sum(pts, p) / w.den) * w.den)
        by (nonlinear_arith);
    lemma_weights_sum_to_one(pts, p);
    lemma_weights_locate_point(pts, p);
    lemma_mean_in_range(
        w.w0,
        w.w1,
        w.w2,
        w.den,
        pts[0].x as int,
        pts[1].x as int,
        pts[2].x as int,
    );
    lemma_mean_in_range(
        w.w0,
        w.w1,
        w.w2,
        w.den,
        pts[0].y as int,
        pts[1].y as int,
        pts[2].y as int,
    );
    lemma_mean_in_range(
        w.w0,
        w.w1,
        w.w2,
        w.den,
        pts[0].z as int,
        pts[1].z as int,
        pts[2].z as int,
    );
    let lox = min3(pts[0].x as int, pts[1].x as int, pts[2].x as int);
    let hix = max3(pts[0].x as int, pts[1].x as int, pts[2].x as int);
    let loy = min3(pts[0].y as int, pts[1].y as int, pts[2].y as int);
    let hiy = max3(pts[0].y as int, pts[1].y as int, pts[2].y as int);
    let den = w.den;
    let px = p.x;
    let py = p.y;
    assert(lox <= px <= hix) by (nonlinear_arith)
        requires
            den > 0,
            lox * den <= den * px <= hix * den,
    ;
    assert(loy <= py <= hiy) by (nonlinear_arith)
        requires
            den > 0,
            loy * den <= den * py <= hiy * den,
    ;
}

/// Where two triangles cover a point, their depths there compare as the two
/// weighted means of their corners' depths do, exactly: nothing is rounded
/// before the comparison.
pub proof fn lemma_depths_compare_exactly(near: [IVec3; 3], far: [IVec3; 3], p: Point)
    requires
        covers(near, p),
        covers(far, p),
    ensures
        depth_at(far, p).below(depth_at(near, p)) <==> depth_sum(far, p) * weights(near, p).den
            < depth_sum(near, p) * weights(far, p).den,
        depth_at(far, p).same(depth_at(near, p)) <==> depth_sum(far, p) * weights(near, p).den
            == depth_sum(near, p) * weights(far, p).den,
{
    lemma_covered_point_is_bounded(near, p);
    lemma_covered_point_is_bounded(far, p);
    lemma_below_is_the_order_of_fractions(depth_at(far, p), depth_at(near, p));
}

/// Twice the signed area of the triangle `a`, `b`, `c`: positive when the
/// corners turn left in that order, negative when they turn right.
pub open spec fn orient(a: Point, b: Point, c: Point) -> int {
    (b.x - a.x) * (c.y - a.y) - (c.x - a.x) * (b.y - a.y)
}

/// Whether two numbers are both positive or both negative.
pub open spec fn same_side(s: int, t: int) -> bool {
    (s > 0 && t > 0) || (s < 0 && t < 0)
}

/// The point lies strictly inside the triangle: seen from each edge it is on
/// the side of the opposite corner, and on none of the edges.
pub open spec fn strictly_inside(pts: [IVec3; 3], p: Point) -> bool {
    let a = pts[0].point();
    let b = pts[1].point();
    let c = pts[2].point();
    &&& same_side(orient(a, b, p), orient(a, b, c))
    &&& same_side(orient(b, c, p), orient(b, c, a))
    &&& same_side(orient(c, a, p), orient(c, a, b))
}

/// The point lies strictly outside a triangle with area: seen from some
/// edge it is on the side away from the opposite corner.
pub open spec fn strictly_outside(pts: [IVec3; 3], p: Point) -> bool {
    let a = pts[0].point();
    let b = pts[1].point();
    let c = pts[2].point();
    ||| same_side(orient(a, b, p), -orient(a, b, c))
    ||| same_side(orient(b, c, p), -orient(b, c, a))
    ||| same_side(orient(c, a, p), -orient(c, a, b))
}

/// Each numerator is the doubled area that the point spans with the edge
/// opposite to its corner, taken with the sign of the triangle's turn.
pub proof fn lemma_weights_are_areas(pts: [IVec3; 3], p: Point)
    ensures
        cross_z(pts[0], pts[1], pts[2]) == -orient(pts[0].point(), pts[1].point(), pts[2].point()),
        orient(pts[1].point(), pts[2].point(), pts[0].point()) == orient(
            pts[0].point(),
            pts[1].point(),
            pts[2].point(),
        ),
        orient(pts[2].point(), pts[0].point(), pts[1].point()) == orient(
            pts[0].point(),
            pts[1].point(),
            pts[2].point(),
        ),
        cross_x(pts[0], pts[1], p) == -orient(pts[0].point(), pts[1].point(), p),
        cross_y(pts[0], pts[2], p) == -orient(pts[2].point(), pts[0].point(), p),
        cross_z(pts[0], pts[1], pts[2]) - (cross_x(pts[0], pts[1], p) + cross_y(
            pts[0],
            pts[2],
            p,
        )) == -orient(pts[1].point(), pts[2].point(), p),
{
    let ax = pts[0].x as int;
    let ay = pts[0].y as int;
    let bx = pts[1].x as int;
    let by = pts[1].y as int;
    let cx = pts[2].x as int;
    let cy = pts[2].y as int;
    let px = p.x;
    let py = p.y;
    lemma_expand(cx, ax, by, ay);
    lemma_expand(bx, ax, cy, ay);
    lemma_expand(bx, ax, ay, py);
    lemma_expand(ax, px, by, ay);
    lemma_expand(ax, px, cy, ay);
    lemma_expand(cx, ax, ay, py);
    lemma_expand(cx, bx, ay, by);
    lemma_expand(ax, bx, cy, by);
    lemma_expand(ax, cx, by, cy);
    lemma_expand(bx, cx, ay, cy);
    lemma_expand(bx, ax, py, ay);
    lemma_expand(px, ax, by, ay);
    lemma_expand(ax, cx, py, cy);
    lemma_expand(px, cx, ay, cy);
    lemma_expand(cx, bx, py, by);
    lemma_expand(px, bx, cy, by);
}

/// The product of two differences, multiplied out.
proof fn lemma_expand(a: int, b: int, c: int, d: int)
    ensures
        (a - b) * (c - d) == a * c - a * d - b * c + b * d,
{
    assert((a - b) * (c - d) == a * c - a * d - b * c + b * d) by (nonlinear_arith);
}

/// For a point strictly inside a triangle with area all three weights are
/// positive and add up to one.
pub proof fn lemma_strictly_inside_weights(pts: [IVec3; 3], p: Point)
    requires
        strictly_inside(pts, p),
    ensures
        !degenerate(pts),
        weights(pts, p).w0 > 0,
        weights(pts, p).w1 > 0,
        weights(pts, p).w2 > 0,
        weights(pts, p).w0 + weights(pts, p).w1 + weights(pts, p).w2 == weights(pts, p).den,
        covers(pts, p),
{
    lemma_weights_are_areas(pts, p);
}

/// For a point strictly outside a triangle with area at least one weight is
/// negative, so the triangle does not cover the point.
pub proof fn lemma_strictly_outside_weights(pts: [IVec3; 3], p: Point)
    requires
        strictly_outside(pts, p),
    ensures
        weights(pts, p).w0 < 0 || weights(pts, p).w1 < 0 || weights(pts, p).w2 < 0,
        !covers(pts, p),
{
    lemma_weights_are_areas(pts, p);
}

/// Every point of the plane is outside a triangle without area.
pub proof fn lemma_degenerate_covers_nothing(pts: [IVec3; 3], p: Point)
    requires
        degenerate(pts),
    ensures
        !covers(pts, p),
        weights(pts, p).w0 < 0 && weights(pts, p).w1 < 0 && weights(pts, p).w2 < 0,
{
}

/// The product of a weight and a depth.
fn weigh(w: i128, z: i32) -> (r: i128)
    requires
        -0x10_0000_0000_0000_0000 <= w <= 0x10_0000_0000_0000_0000,
    ensures
        r == w * z,
        -0x10_0000_0000_0000_0000_0000_0000 <= r <= 0x10_0000_0000_0000_0000_0000_0000,
{
    assert(-0x10_0000_0000_0000_0000_0000_0000 <= w * z <= 0x10_0000_0000_0000_0000_0000_0000)
        by (nonlinear_arith)
        requires
            -0x10_0000_0000_0000_0000 <= w <= 0x10_0000_0000_0000_0000,
            -0x1_0000_0000 <= z <= 0x1_0000_0000,
    ;
    w * (z as i128)
}

/// The fragment that the triangle `pts` yields at `p`: its depth there if
/// the triangle covers `p`, and nothing if it does not.
pub fn fragment(pts: [IVec3; 3], p: IVec2) -> (depth: Option<Depth>)
    ensures
        match depth {
            Some(z) => covers(pts, p@) && z == depth_at(pts, p@) && z.valid(),
            None => !covers(pts, p@),
        },
{
    let w = bounded_weights(pts, p);
    if w.w0 >= 0 && w.w1 >= 0 && w.w2 >= 0 {
        proof {
            lemma_covered_point_is_bounded(pts, p@);
            lemma_weights_sum_to_one(pts, p@);
        }
        let n: i128 = weigh(w.w0, pts[0].z) + weigh(w.w1, pts[1].z) + weigh(w.w2, pts[2].z);
        let whole: i128 = floor_div(n, w.den);
        proof {
            lemma_product_bound(whole as int, w.den as int, 0x1_0000_0000, MAX_DEN as int);
            lemma_fundamental_div_mod(n as int, w.den as int);
            assert(w.den * whole == whole * w.den) by (nonlinear_arith);
        }
        let part: i128 = n - whole * w.den;
        Some(Depth { whole: whole as i64, part, den: w.den })
    } else {
        None
    }
}

} // verus!
