//! Identities between sums of products of real numbers.
use crate::real_laws::ulp;
use vstd::prelude::*;

verus! {

/// A product does not mind the order of its factors.
pub proof fn lemma_swap(a: real, b: real)
    ensures
        a * b == b * a,
{
    assert(a * b == b * a) by (nonlinear_arith);
}

/// Nothing times a number is nothing.
pub proof fn lemma_nothing(a: real)
    ensures
        0 as real * a == 0 as real,
        a * (0 as real) == 0 as real,
        1 as real * a == a,
        a * (1 as real) == a,
{
    assert(0 as real * a == 0 as real && a * (0 as real) == 0 as real && 1 as real * a == a && a
        * (1 as real) == a) by (nonlinear_arith);
}

/// A product of three factors.
pub proof fn lemma_three(a: real, b: real, c: real)
    ensures
        (a * b) * c == a * (b * c),
        (a * b) * c == (a * c) * b,
{
    assert((a * b) * c == a * (b * c)) by (nonlinear_arith);
    assert((a * b) * c == (a * c) * b) by (nonlinear_arith);
}

/// A sum or a difference times a factor.
pub proof fn lemma_spread_out(a: real, b: real, c: real)
    ensures
        (a + b) * c == a * c + b * c,
        (a - b) * c == a * c - b * c,
        c * (a + b) == c * a + c * b,
        c * (a - b) == c * a - c * b,
{
    assert((a + b) * c == a * c + b * c) by (nonlinear_arith);
    assert((a - b) * c == a * c - b * c) by (nonlinear_arith);
    assert(c * (a + b) == c * a + c * b) by (nonlinear_arith);
    assert(c * (a - b) == c * a - c * b) by (nonlinear_arith);
}

/// The square of a sum.
pub proof fn lemma_square_of_sum(a: real, b: real)
    ensures
        (a + b) * (a + b) == a * a + 2 as real * (a * b) + b * b,
{
    assert((a + b) * (a + b) == a * a + 2 as real * (a * b) + b * b) by (nonlinear_arith);
}

/// What the last place is of a number.
pub proof fn lemma_ulp(x: real)
    ensures
        (x * ulp()) * 0x10_0000_0000_0000 as real == x,
{
    lemma_three(x, ulp(), 0x10_0000_0000_0000 as real);
    lemma_nothing(x);
    assert(ulp() * 0x10_0000_0000_0000 as real == 1 as real);
}

} // verus!
