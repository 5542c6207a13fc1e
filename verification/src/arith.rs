//! Exact arithmetic on wide integers for the geometry.
use vstd::prelude::*;
use vstd::arithmetic::div_mod::lemma_fundamental_div_mod;
use vstd::arithmetic::div_mod::lemma_fundamental_div_mod_converse;

verus! {

/// The product of two numbers lies within the product of their bounds.
pub proof fn lemma_product_bound(a: int, b: int, bound_a: int, bound_b: int)
    requires
        -bound_a <= a <= bound_a,
        -bound_b <= b <= bound_b,
    ensures
        -(bound_a * bound_b) <= a * b <= bound_a * bound_b,
{
    assert(-(bound_a * bound_b) <= a * b <= bound_a * bound_b) by (nonlinear_arith)
        requires
            -bound_a <= a <= bound_a,
            -bound_b <= b <= bound_b,
    ;
}

/// The product of two differences of coordinates.
pub(crate) fn product(a: i64, b: i64) -> (r: i128)
    requires
        -0x1_0000_0000 <= a <= 0x1_0000_0000,
        -0x1_0000_0000 <= b <= 0x1_0000_0000,
    ensures
        r == a * b,
        -0x1_0000_0000_0000_0000 <= r <= 0x1_0000_0000_0000_0000,
{
    assert(-0x1_0000_0000_0000_0000 <= a * b <= 0x1_0000_0000_0000_0000) by (nonlinear_arith)
        requires
            -0x1_0000_0000 <= a <= 0x1_0000_0000,
            -0x1_0000_0000 <= b <= 0x1_0000_0000,
    ;
    a as i128 * b as i128
}

/// The quotient of `n` by a positive `d`, rounded down.
pub(crate) fn floor_div(n: i128, d: i128) -> (q: i128)
    requires
        0 < d <= 0x1_0000_0000_0000_0000_0000_0000,
        -0x1_0000_0000_0000_0000_0000_0000_0000 <= n <= 0x1_0000_0000_0000_0000_0000_0000_0000,
    ensures
        q == n / d,
{
    if n >= 0 {
        n / d
    } else {
        let m: i128 = -n;
        let c: i128 = (m + (d - 1)) / d;
        proof {
            let t = m + (d - 1);
            lemma_fundamental_div_mod(t, d as int);
            let r = t % (d as int);
            assert(0 <= r < d) by (nonlinear_arith)
                requires
                    r == t % (d as int),
                    d > 0,
            ;
            assert(n == (-c) * d + (d - 1 - r)) by (nonlinear_arith)
                requires
                    t == d * c + r,
                    t == -n + (d - 1),
            ;
            assert(0 <= c <= t) by (nonlinear_arith)
                requires
                    t == d * c + r,
                    0 <= r < d,
                    d >= 1,
                    t >= 0,
            ;
            lemma_fundamental_div_mod_converse(n as int, d as int, -c, d - 1 - r);
        }
        -c
    }
}

} // verus!
