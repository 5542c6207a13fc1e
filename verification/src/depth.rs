//! Depths as exact fractions.
//!
//! The depth of a triangle at a pixel is a weighted mean of the depths of its
//! corners, a fraction. It is kept whole: as a mixed number, with a whole
//! part, and a fraction between zero and one as numerator and denominator.
//! Two depths are compared as the fractions that they are, so that the
//! greater depth wins the depth test however small the difference.
use vstd::prelude::*;

verus! {

/// The greatest denominator that a depth can have: the greatest doubled area
/// of a triangle of screen points.
pub const MAX_DEN: i128 = 0x2_0000_0000_0000_0000;

/// The depth `whole + part / den`, with `0 <= part < den`.
#[derive(Clone, Copy, Debug, PartialEq, Eq, Structural)]
pub struct Depth {
    pub whole: i64,
    pub part: i128,
    pub den: i128,
}

impl Depth {
    /// The fraction lies between zero and one, and its denominator is in range.
    pub open spec fn valid(self) -> bool {
        0 <= self.part < self.den <= MAX_DEN
    }

    /// The depth as one fraction: this is its numerator, over `den`.
    pub open spec fn numerator(self) -> int {
        self.whole * self.den + self.part
    }

    /// Whether this depth is strictly less than the other.
    pub open spec fn below(self, other: Depth) -> bool {
        self.whole < other.whole || (self.whole == other.whole && self.part * other.den
            < other.part * self.den)
    }

    /// Whether the two depths are the same number, whatever their denominators.
    pub open spec fn same(self, other: Depth) -> bool {
        self.whole == other.whole && self.part * other.den == other.part * self.den
    }

    /// The depth of a cell into which nothing has been drawn: negative
    /// infinity. It lies below every depth that a screen point can carry, so
    /// the first draw into a cell always wins.
    pub open spec fn nothing() -> Depth {
        Depth { whole: i64::MIN, part: 0, den: 1 }
    }

    /// The whole depth `z`.
    pub open spec fn level(z: int) -> Depth {
        Depth { whole: z as i64, part: 0, den: 1 }
    }

    /// The depth of a cell into which nothing has been drawn.
    pub fn neg_infinity() -> (depth: Depth)
        ensures
            depth == Depth::nothing(),
    {
        Depth { whole: i64::MIN, part: 0, den: 1 }
    }

    /// The whole depth `z`.
    pub fn of(z: i32) -> (depth: Depth)
        ensures
            depth == Depth::level(z as int),
            depth.valid(),
    {
        Depth { whole: z as i64, part: 0, den: 1 }
    }

    /// Whether this depth is strictly less than the other.
    pub fn is_below(self, other: Depth) -> (less: bool)
        requires
            self.valid(),
            other.valid(),
        ensures
            less == self.below(other),
    {
        if self.whole != other.whole {
            self.whole < other.whole
        } else {
            let (left_hi, left_lo) = wide_product(self.part as u128, other.den as u128);
            let (right_hi, right_lo) = wide_product(other.part as u128, self.den as u128);
            left_hi < right_hi || (left_hi == right_hi && left_lo < right_lo)
        }
    }

    /// Whether the two depths are the same number.
    pub fn is_same(self, other: Depth) -> (same: bool)
        requires
            self.valid(),
            other.valid(),
        ensures
            same == self.same(other),
    {
        if self.whole != other.whole {
            false
        } else {
            let (left_hi, left_lo) = wide_product(self.part as u128, other.den as u128);
            let (right_hi, right_lo) = wide_product(other.part as u128, self.den as u128);
            left_hi == right_hi && left_lo == right_lo
        }
    }
}

/// The product of two numbers of up to 66 bits, in two parts: it is
/// `hi * 2^64 + lo`, with `lo` below `2^64`.
fn wide_product(a: u128, b: u128) -> (parts: (u128, u128))
    requires
        a <= MAX_DEN,
        b <= MAX_DEN,
    ensures
        parts.0 * 0x1_0000_0000_0000_0000 + parts.1 == a * b,
        parts.1 < 0x1_0000_0000_0000_0000,
{
    let a_hi: u128 = a / 0x1_0000_0000_0000_0000;
    let a_lo: u128 = a % 0x1_0000_0000_0000_0000;
    let b_hi: u128 = b / 0x1_0000_0000_0000_0000;
    let b_lo: u128 = b % 0x1_0000_0000_0000_0000;
    assert(a_lo * b_lo <= 0xffff_ffff_ffff_ffff * 0xffff_ffff_ffff_ffff) by (nonlinear_arith)
        requires
            a_lo <= 0xffff_ffff_ffff_ffff,
            b_lo <= 0xffff_ffff_ffff_ffff,
    ;
    assert(a_hi * b <= 2 * 0x2_0000_0000_0000_0000) by (nonlinear_arith)
        requires
            a_hi <= 2,
            b <= 0x2_0000_0000_0000_0000,
    ;
    assert(a_lo * b_hi <= 0xffff_ffff_ffff_ffff * 2) by (nonlinear_arith)
        requires
            a_lo <= 0xffff_ffff_ffff_ffff,
            b_hi <= 2,
    ;
    let low: u128 = a_lo * b_lo;
    let high: u128 = a_hi * b + a_lo * b_hi + low / 0x1_0000_0000_0000_0000;
    assert(a * b == (a_hi * b + a_lo * b_hi) * 0x1_0000_0000_0000_0000 + a_lo * b_lo)
        by (nonlinear_arith)
        requires
            a == a_hi * 0x1_0000_0000_0000_0000 + a_lo,
            b == b_hi * 0x1_0000_0000_0000_0000 + b_lo,
    ;
    (high, low % 0x1_0000_0000_0000_0000)
}

/// The order of depths is the order of the fractions that they are.
pub proof fn lemma_below_is_the_order_of_fractions(a: Depth, b: Depth)
    requires
        a.valid(),
        b.valid(),
    ensures
        a.below(b) <==> a.numerator() * b.den < b.numerator() * a.den,
        a.same(b) <==> a.numerator() * b.den == b.numerator() * a.den,
{
    let qa = a.whole as int;
    let qb = b.whole as int;
    let ra = a.part as int;
    let rb = b.part as int;
    let da = a.den as int;
    let db = b.den as int;
    assert((qa * da + ra) * db == qa * (da * db) + ra * db) by (nonlinear_arith);
    assert((qb * db + rb) * da == qb * (da * db) + rb * da) by (nonlinear_arith);
    assert(0 <= ra * db < da * db) by (nonlinear_arith)
        requires
            0 <= ra < da,
            0 < db,
    ;
    assert(0 <= rb * da < da * db) by (nonlinear_arith)
        requires
            0 <= rb < db,
            0 < da,
    ;
    let unit = da * db;
    assert(qa < qb ==> qa * unit + unit <= qb * unit) by (nonlinear_arith)
        requires
            unit > 0,
    ;
    assert(qb < qa ==> qb * unit + unit <= qa * unit) by (nonlinear_arith)
        requires
            unit > 0,
    ;
}

/// A depth below a second that is below a third is below the third.
pub proof fn lemma_below_is_transitive(a: Depth, b: Depth, c: Depth)
    requires
        a.valid(),
        b.valid(),
        c.valid(),
        a.below(b),
        b.below(c),
    ensures
        a.below(c),
{
    if a.whole == b.whole && b.whole == c.whole {
        let ra = a.part as int;
        let rb = b.part as int;
        let rc = c.part as int;
        let da = a.den as int;
        let db = b.den as int;
        let dc = c.den as int;
        assert(ra * dc < rc * da) by (nonlinear_arith)
            requires
                ra * db < rb * da,
                rb * dc < rc * db,
                0 <= ra,
                0 <= rb,
                0 <= rc,
                0 < da,
                0 < db,
                0 < dc,
        ;
    }
}

/// Of two depths one is below the other, or they are the same number; no
/// two of these hold at once.
pub proof fn lemma_below_is_total(a: Depth, b: Depth)
    ensures
        a.below(b) || b.below(a) || a.same(b),
        !(a.below(b) && b.below(a)),
        !(a.below(b) && a.same(b)),
        a.same(b) == b.same(a),
{
}

} // verus!
