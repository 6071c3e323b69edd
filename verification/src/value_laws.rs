//! The values of whole numbers, of a few constants, and of numbers that change
//! their precision, in real numbers.
use crate::{real_laws, real_single_laws};
use crate::algebra::lemma_three;
use crate::double::F64;
use crate::panner_config::ONE;
use crate::plane_laws::{lemma_constants, value_d};
use crate::projection::{HALF_D, TWO, TWO_D};
use crate::rounding::{
    gap_exp, in_binade, law_rounding_keeps_order, lemma_rung_in_binade, lemma_rung_zero, rung,
    Format,
};
use crate::single::F32;
use crate::speed_laws::value;
use crate::viewport::HALF;
use vstd::arithmetic::power2::{
    lemma2_to64, lemma2_to64_rest, lemma_pow2_adds, lemma_pow2_pos, lemma_pow2_unfold, pow2,
};
use vstd::prelude::*;

verus! {

/// The number of the value `q` times two to the power `t`.
proof fn lemma_key(p: nat, q: int, t: nat) -> (k: int)
    requires
        0 <= q < 2 * pow2(p),
    ensures
        0 <= k <= t * pow2(p) + q,
        rung(p, k) == q * pow2(t),
    decreases t,
{
    lemma_pow2_pos(p);
    let b = pow2(p) as int;
    assert(0 <= t * b) by (nonlinear_arith)
        requires
            b > 0,
            t >= 0,
    ;
    if t == 0 || q >= b {
        assert(in_binade(p, t, q));
        lemma_rung_in_binade(p, t, q);
        t * b + q
    } else {
        lemma_pow2_unfold(t);
        let below = pow2((t - 1) as nat);
        assert((2 * q) * below == q * pow2(t)) by (nonlinear_arith)
            requires
                pow2(t) == 2 * below,
        ;
        assert((t - 1) * b == t * b - b) by (nonlinear_arith);
        lemma_key(p, 2 * q, (t - 1) as nat)
    }
}

/// A whole number of up to 53 bits is held exactly.
pub proof fn lemma_whole(n: nat)
    requires
        n < 0x20_0000_0000_0000,
    ensures
        F64::of_whole(n).finite(),
        !F64::of_whole(n).parts().neg,
        real_laws::val(F64::of_whole(n)) == n as real,
{
    reveal(F64::of_whole);
    lemma2_to64();
    lemma2_to64_rest();
    lemma_pow2_pos(1074);
    lemma_rung_zero(52);
    real_laws::lemma_speck();
    let x = F64::of_whole(n);
    let u = pow2(1074) as int;
    if n > 0 {
        let k = lemma_key(52, n as int, 1074);
        law_rounding_keeps_order(Format::Double, n * u, 1, k);
    } else {
        assert(0 * u == 0);
    }
    real_laws::lemma_val(x);
    assert(value_d(x) == n * u);
    let v = real_laws::val(x);
    lemma_same_value(v, n as int, u);
}

/// A value that is a whole number of units.
proof fn lemma_same_value(v: real, n: int, u: int)
    requires
        u > 0,
        v * u as real == (n * u) as real,
    ensures
        v == n as real,
{
    let (a, w) = (n as real, u as real);
    assert((n * u) as real == a * w) by (nonlinear_arith)
        requires
            a == n as real,
            w == u as real,
    ;
    assert(v == a) by (nonlinear_arith)
        requires
            v * w == a * w,
            w > 0 as real,
    ;
}

/// A whole number of up to 24 bits is held exactly in single precision.
pub proof fn lemma_whole_single(n: nat)
    requires
        n < 0x100_0000,
    ensures
        F32::of_whole(n).finite(),
        !F32::of_whole(n).parts().neg,
        real_single_laws::val(F32::of_whole(n)) == n as real,
{
    reveal(F32::of_whole);
    lemma2_to64();
    lemma2_to64_rest();
    lemma_pow2_pos(149);
    lemma_rung_zero(23);
    real_single_laws::lemma_speck();
    let x = F32::of_whole(n);
    let u = pow2(149) as int;
    if n > 0 {
        let k = lemma_key(23, n as int, 149);
        law_rounding_keeps_order(Format::Single, n * u, 1, k);
    } else {
        assert(0 * u == 0);
    }
    real_single_laws::lemma_val(x);
    assert(value(x) == n * u);
    lemma_same_value(real_single_laws::val(x), n as int, u);
}

/// A finite number keeps its value when it is widened.
pub proof fn lemma_wide(x: F32)
    requires
        x.finite(),
    ensures
        x.wide().finite(),
        real_laws::val(x.wide()) == real_single_laws::val(x),
{
    reveal(F32::wide);
    lemma2_to64();
    lemma2_to64_rest();
    lemma_rung_zero(23);
    lemma_rung_zero(52);
    lemma_pow2_pos(149);
    lemma_pow2_pos(925);
    lemma_pow2_pos(1074);
    lemma_pow2_adds(149, 925);
    let k = x.parts().key as int;
    let t = gap_exp(23, k);
    let q = k - t * 0x80_0000;
    let (h, g, u) = (pow2(925) as int, pow2(149) as int, pow2(1074) as int);
    let n = x.parts().size(Format::Single);
    assert(in_binade(23, t, q));
    lemma_rung_in_binade(23, t, q);
    lemma_pow2_adds(t, 925);
    assert(n == q * pow2(t));
    assert(q * (pow2(t) * h) == (q * pow2(t)) * h) by (nonlinear_arith);
    let j = lemma_key(52, q, t + 925);
    let y = x.wide();
    if k > 0 {
        law_rounding_keeps_order(Format::Double, n * h, 1, j);
    } else {
        assert(0 * h == 0);
    }
    assert((-n) * h == -(n * h)) by (nonlinear_arith);
    assert(value_d(y) == value(x) * h);
    real_laws::lemma_val(y);
    real_single_laws::lemma_val(x);
    let (a, b) = (real_laws::val(y), real_single_laws::val(x));
    let m = value(x);
    assert(a == b) by (nonlinear_arith)
        requires
            a * u as real == (m * h) as real,
            b * g as real == m as real,
            u == g * h,
            g > 0,
            h > 0,
    {
        assert(u as real == g as real * h as real) by (nonlinear_arith)
            requires
                u == g * h,
        ;
        assert((m * h) as real == m as real * h as real) by (nonlinear_arith);
        assert(b * (g as real * h as real) == (b * g as real) * h as real) by (nonlinear_arith);
        assert(a == b) by (nonlinear_arith)
            requires
                a * u as real == b * u as real,
                u as real > 0 as real,
        ;
    }
}

/// A number of units over the unit.
proof fn lemma_over_unit(v: real, n: int, m: int, u: int)
    requires
        u > 0,
        v * u as real == m as real,
        m == n * u,
    ensures
        v == n as real,
{
    lemma_same_value(v, n, u);
}

/// A half, one and two.
pub proof fn lemma_small_constants()
    ensures
        (F32 { bits: HALF }).finite(),
        (F32 { bits: ONE }).finite(),
        (F32 { bits: TWO }).finite(),
        2 as real * real_single_laws::val(F32 { bits: HALF }) == 1 as real,
        real_single_laws::val(F32 { bits: ONE }) == 1 as real,
        real_single_laws::val(F32 { bits: TWO }) == 2 as real,
        (F64 { bits: HALF_D }).finite(),
        (F64 { bits: TWO_D }).finite(),
        2 as real * real_laws::val(F64 { bits: HALF_D }) == 1 as real,
        real_laws::val(F64 { bits: TWO_D }) == 2 as real,
{
    lemma_constants();
    lemma_pow2_pos(149);
    lemma_pow2_pos(1074);
    let (g, u) = (pow2(149) as int, pow2(1074) as int);
    let (h, o, t) = (F32 { bits: HALF }, F32 { bits: ONE }, F32 { bits: TWO });
    let (hd, td) = (F64 { bits: HALF_D }, F64 { bits: TWO_D });
    real_single_laws::lemma_val(h);
    real_single_laws::lemma_val(o);
    real_single_laws::lemma_val(t);
    real_laws::lemma_val(hd);
    real_laws::lemma_val(td);
    lemma_three(2 as real, real_single_laws::val(h), g as real);
    lemma_three(2 as real, real_laws::val(hd), u as real);
    lemma_over_unit(2 as real * real_single_laws::val(h), 1, 2 * value(h), g);
    lemma_over_unit(real_single_laws::val(o), 1, value(o), g);
    lemma_over_unit(real_single_laws::val(t), 2, value(t), g);
    lemma_over_unit(2 as real * real_laws::val(hd), 1, 2 * value_d(hd), u);
    lemma_over_unit(real_laws::val(td), 2, value_d(td), u);
}

} // verus!
