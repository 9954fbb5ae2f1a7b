//! Small facts of arithmetic that the solver does not find by itself.

use vstd::prelude::*;

verus! {

/// The product of two bounded integers is bounded by the product of the bounds.
pub proof fn lemma_mul_bounded(a: int, b: int, ba: int, bb: int)
    by (nonlinear_arith)
    requires
        -ba <= a <= ba,
        -bb <= b <= bb,
    ensures
        -(ba * bb) <= a * b <= ba * bb,
{
}

/// A quotient by a positive integer is no larger in size than the dividend.
pub proof fn lemma_div_bounded(n: int, d: int, b: int)
    by (nonlinear_arith)
    requires
        d > 0,
        -b <= n <= b,
    ensures
        -b <= n / d <= b,
{
}

/// A negative number divided by a positive one stays negative.
pub proof fn lemma_negative_quotient(n: int, d: int)
    by (nonlinear_arith)
    requires
        n < 0,
        d > 0,
    ensures
        n / d < 0,
{
}

/// A fraction between 0 and 1, as a fixed-point number, is between 0 and 65536.
pub proof fn lemma_fraction_bounded(n: int, d: int)
    by (nonlinear_arith)
    requires
        0 <= n <= d,
        d > 0,
    ensures
        0 <= (n * 65536) / d <= 65536,
{
}

pub proof fn lemma_mul_comm(a: int, b: int)
    by (nonlinear_arith)
    ensures
        a * b == b * a,
{
}

pub proof fn lemma_mul_neg(a: int, b: int)
    by (nonlinear_arith)
    ensures
        (-a) * b == -(a * b),
{
}

pub proof fn lemma_mul_nonneg(w: int, x: int)
    by (nonlinear_arith)
    requires
        w >= 0,
        x >= 0,
    ensures
        w * x >= 0,
{
}

/// Multiplication spreads over a sum and over a difference.
pub proof fn lemma_mul_add(x: int, y: int, z: int)
    by (nonlinear_arith)
    ensures
        x * (y + z) == x * y + x * z,
        x * (y - z) == x * y - x * z,
{
}

/// Multiplication spreads over a sum of three, from either side.
pub proof fn lemma_mul_add3(x: int, a: int, b: int, c: int)
    by (nonlinear_arith)
    ensures
        x * (a + b + c) == x * a + x * b + x * c,
        (a + b + c) * x == a * x + b * x + c * x,
{
}

/// The product of three numbers does not depend on their order or grouping.
pub proof fn lemma_mul3(a: int, b: int, c: int)
    by (nonlinear_arith)
    ensures
        a * (b * c) == b * (a * c),
        a * (b * c) == c * (a * b),
        a * (b * c) == c * (b * a),
        a * (b * c) == b * (c * a),
        a * (b * c) == a * (c * b),
        a * (b * c) == (a * b) * c,
{
}

/// Multiplying by a positive number keeps the order.
pub proof fn lemma_scale_order(det: int, a: int, b: int)
    by (nonlinear_arith)
    requires
        det > 0,
        a <= b,
    ensures
        det * a <= det * b,
{
}

/// A multiple of a number between two bounds lies between the multiples of
/// the bounds, the other way round for a negative factor.
pub proof fn lemma_term_between(r: int, p: int, lo: int, hi: int)
    by (nonlinear_arith)
    requires
        lo <= p <= hi,
    ensures
        r >= 0 ==> r * lo <= r * p <= r * hi,
        r < 0 ==> r * hi <= r * p <= r * lo,
{
}

/// Rounding down keeps the order of two fractions: if `a / b <= c / e` then
/// the fixed-point value of the first is at most that of the second.
pub proof fn lemma_floor_monotone(a: int, b: int, c: int, e: int)
    requires
        b > 0,
        e > 0,
        a * e <= c * b,
    ensures
        (a * 65536) / b <= (c * 65536) / e,
{
    let q = (a * 65536) / b;
    let r = (c * 65536) / e;
    assert(q * b <= a * 65536) by (nonlinear_arith)
        requires
            b > 0,
            q == (a * 65536) / b,
    ;
    assert(c * 65536 < (r + 1) * e) by (nonlinear_arith)
        requires
            e > 0,
            r == (c * 65536) / e,
    ;
    if q > r {
        // Then q e >= (r + 1) e > 65536 c, although q b <= 65536 a and a e <= c b.
        assert((q * e) * b > (c * 65536) * b) by (nonlinear_arith)
            requires
                q >= r + 1,
                e > 0,
                b > 0,
                c * 65536 < (r + 1) * e,
        ;
        assert((q * b) * e <= (a * 65536) * e) by (nonlinear_arith)
            requires
                q * b <= a * 65536,
                e > 0,
        ;
        assert((a * 65536) * e <= (c * 65536) * b) by (nonlinear_arith)
            requires
                a * e <= c * b,
        ;
        assert((q * e) * b == (q * b) * e) by (nonlinear_arith);
        assert(false);
    }
}

} // verus!
