//! Fixed-point scalars: an `i64` that counts millionths.
use vstd::prelude::*;

verus! {

/// The scalar 1.0.
pub const ONE: i64 = 1_000_000;

/// The total weight of a transition distribution. Weights count
/// half-millionths, so that the remainder `1 - noise` splits into two equal
/// integer halves whatever `noise` is.
pub const WHOLE: i64 = 2_000_000;

/// The largest magnitude of a reward or a value: a million units.
pub const LIMIT: i64 = 1_000_000_000_000;

/// A scalar whose magnitude the solvers can work with.
pub open spec fn in_range(v: int) -> bool {
    -LIMIT <= v <= LIMIT
}

/// A scalar between 0.0 and 1.0, such as a discount or a probability.
pub open spec fn is_fraction(p: int) -> bool {
    0 <= p <= ONE
}

/// Every entry is in range.
pub open spec fn all_in_range(values: Seq<i64>) -> bool {
    forall|i: int| 0 <= i < values.len() ==> in_range(#[trigger] values[i] as int)
}

/// The quotient `x / d` rounded toward zero.
pub open spec fn quotient(x: int, d: int) -> int {
    if x >= 0 {
        x / d
    } else {
        -((-x) / d)
    }
}

/// The fixed-point product of a fraction and a scalar, rounded toward zero.
pub open spec fn scaled(fraction: int, x: int) -> int {
    quotient(fraction * x, ONE as int)
}

/// The share of `x` that a transition weight takes, rounded toward zero.
pub open spec fn weighed(weight: int, x: int) -> int {
    quotient(weight * x, WHOLE as int)
}

/// The magnitude of an integer.
pub open spec fn magnitude(x: int) -> int {
    if x >= 0 {
        x
    } else {
        -x
    }
}

/// A product is no larger in magnitude than its nonnegative factor times a
/// bound on the other.
pub proof fn lemma_product_magnitude(p: int, x: int, bound: int)
    by (nonlinear_arith)
    requires
        0 <= p,
        -bound <= x <= bound,
    ensures
        -(p * bound) <= p * x <= p * bound,
{
}

/// Multiplies a scalar in range by a fraction.
pub fn scale(fraction: i64, x: i64) -> (r: i64)
    requires
        is_fraction(fraction as int),
        in_range(x as int),
    ensures
        r == scaled(fraction as int, x as int),
        in_range(r as int),
{
    proof {
        lemma_product_magnitude(fraction as int, x as int, LIMIT as int);
        lemma_product_magnitude(LIMIT as int, fraction as int, ONE as int);
    }
    let product: i64 = fraction * x;
    product / ONE
}

/// Takes the share of a scalar in range that a transition weight stands for.
pub fn weigh(weight: i64, x: i64) -> (r: i64)
    requires
        0 <= weight <= WHOLE,
        in_range(x as int),
    ensures
        r == weighed(weight as int, x as int),
        magnitude(r as int) * WHOLE <= weight * LIMIT,
        in_range(r as int),
{
    proof {
        lemma_product_magnitude(weight as int, x as int, LIMIT as int);
        lemma_product_magnitude(LIMIT as int, weight as int, WHOLE as int);
    }
    let product: i64 = weight * x;
    product / WHOLE
}

} // verus!
