//! Single-precision results of at most 64, and how far rounding takes them
//! off the exact ones.
use crate::algebra::{lemma_nothing, lemma_spread_out, lemma_three};
use crate::radius_laws::{lemma_scaled, lemma_size_times};
use crate::real_laws::size;
use crate::real_single_laws::{
    lemma_minus, lemma_plus, lemma_speck, lemma_times, rounds, speck, ulp, val,
};
use crate::single::F32;
use vstd::prelude::*;

verus! {

/// A finite number is close to a real one.
pub open spec fn nigh(x: F32, y: real, e: real) -> bool {
    x.finite() && size(val(x) - y) <= e
}

/// Two to the power -17: more than what is lost when a result of at most 64 is
/// rounded.
pub open spec fn notch() -> real {
    1 as real / 0x2_0000 as real
}

/// What the last place is of a number.
pub proof fn lemma_last_place(x: real)
    ensures
        (x * ulp()) * 0x80_0000 as real == x,
{
    lemma_three(x, ulp(), 0x80_0000 as real);
    lemma_nothing(x);
    assert(ulp() * 0x80_0000 as real == 1 as real);
}

/// What is lost to rounding, relative to the exact result.
pub proof fn lemma_relative(r: real, exact: real)
    requires
        rounds(r, exact),
    ensures
        size(r - exact) <= size(exact) * ulp() + speck(),
{
    lemma_speck();
    lemma_last_place(size(r));
    lemma_last_place(size(exact));
    assert(size(r) <= size(exact) + size(r - exact));
}

/// What is lost when a result of at most 64 is rounded.
pub proof fn lemma_notch(r: real, exact: real)
    requires
        rounds(r, exact),
        size(exact) <= 64 as real,
    ensures
        size(r - exact) <= notch(),
{
    lemma_speck();
    lemma_last_place(size(r));
    assert(size(r) <= size(exact) + size(r - exact));
}

/// A sum of numbers that are close to others.
pub proof fn lemma_nigh_plus(a: F32, x: real, d: real, b: F32, y: real, e: real)
    requires
        nigh(a, x, d),
        nigh(b, y, e),
        size(x + y) + d + e <= 64 as real,
    ensures
        nigh(a.plus(b), x + y, d + e + notch()),
{
    lemma_plus(a, b);
    assert(size(val(a) + val(b)) <= 64 as real);
    lemma_notch(val(a.plus(b)), val(a) + val(b));
}

/// A difference of numbers that are close to others.
pub proof fn lemma_nigh_minus(a: F32, x: real, d: real, b: F32, y: real, e: real)
    requires
        nigh(a, x, d),
        nigh(b, y, e),
        size(x - y) + d + e <= 64 as real,
    ensures
        nigh(a.minus(b), x - y, d + e + notch()),
{
    lemma_minus(a, b);
    assert(size(val(a) - val(b)) <= 64 as real);
    lemma_notch(val(a.minus(b)), val(a) - val(b));
}

/// A product of numbers that are close to others.
pub proof fn lemma_nigh_times(
    a: F32,
    x: real,
    d: real,
    b: F32,
    y: real,
    e: real,
    m: real,
    n: real,
)
    requires
        nigh(a, x, d),
        nigh(b, y, e),
        size(x) <= m,
        size(y) + e <= n,
        m * n + d * n + m * e <= 64 as real,
    ensures
        nigh(a.times(b), x * y, d * n + m * e + notch()),
{
    let (u, v) = (val(a), val(b));
    lemma_spread_out(u, x, v);
    lemma_spread_out(v, y, x);
    assert(u * v - x * y == (u - x) * v + x * (v - y));
    lemma_size_times(u - x, v);
    lemma_size_times(x, v - y);
    lemma_size_times(x, y);
    lemma_scaled(size(u - x), d, size(v));
    lemma_scaled(size(v), n, d);
    lemma_scaled(size(x), m, size(v - y));
    lemma_scaled(size(v - y), e, m);
    lemma_scaled(size(x), m, size(y));
    lemma_scaled(size(y), n, m);
    lemma_times(a, b);
    lemma_notch(val(a.times(b)), u * v);
}

} // verus!
