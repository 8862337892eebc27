//! Elementary facts of integer arithmetic, each proved on its own so that
//! no proof elsewhere hangs on how the solver fares with products.

use vstd::prelude::*;

verus! {

/// A positive factor keeps an order.
pub proof fn lemma_order_times(l: int, a: int, b: int)
    by (nonlinear_arith)
    requires
        l > 0,
        a <= b,
    ensures
        l * a <= l * b,
{
}

/// A product of a factor of at most `l` in magnitude and one of at most
/// `big` is at most `l * big` in magnitude.
pub proof fn lemma_product_within(a: int, b: int, l: int, big: int)
    by (nonlinear_arith)
    requires
        -l <= a <= l,
        -big <= b <= big,
    ensures
        -(l * big) <= a * b <= l * big,
{
}

/// A number whose square is at most `q`, which is at most the square of
/// `b`, is at most `b` in magnitude.
pub proof fn lemma_root_within(x: int, q: int, b: int)
    by (nonlinear_arith)
    requires
        x * x <= q <= b * b,
        b >= 0,
    ensures
        -b <= x <= b,
{
    if x > b {
        assert(x * x > b * b);
    }
    if x < -b {
        assert(x * x > b * b);
    }
}

/// A factor distributes over a sum of three.
pub proof fn lemma_three_terms(f: int, a: int, b: int, c: int)
    by (nonlinear_arith)
    ensures
        f * (a + b + c) == f * a + f * b + f * c,
{
}

/// Four factors in two groupings.
pub proof fn lemma_four_factors(a: int, b: int, c: int, d: int)
    by (nonlinear_arith)
    ensures
        (a * b) * (c * d) == (b * d) * (a * c),
        (a * b) * c == b * (a * c),
{
}

} // verus!
