//! That the way from a camera's frame to the plane and back leads to the pixel at
//! which it began.
use crate::double::F64;
use crate::kb4::{even_powers, growth_at, one_and_terms, shown_at, ODD, ONE};
use crate::plane_laws::value_d;
use crate::projection::{length, LensSolve, SolveStep, CONVERGED, FLAT};
use crate::radius_laws::{lemma_radius_real, lemma_scaled, lemma_size_bounded, radius_of};
use crate::real_laws::{
    lemma_minus, lemma_over, lemma_plus, lemma_root, lemma_speck, lemma_times, lemma_val,
    lemma_val_ordered, rounds, size, speck, ulp, val,
};
use crate::rounding::{law_ratio_rounds, lemma_rung_in_binade, Format};
use vstd::arithmetic::power2::{
    lemma2_to64, lemma2_to64_rest, lemma_pow2_adds, lemma_pow2_pos, pow2,
};
use vstd::prelude::*;

verus! {

/// Two to the power -39: more than what is lost when a result of at most 4096 is
/// rounded.
pub open spec fn tick() -> real {
    1 as real / 0x80_0000_0000 as real
}

/// A finite number is close to a real one.
pub open spec fn near(x: F64, y: real, e: real) -> bool {
    x.finite() && size(val(x) - y) <= e
}

/// What is lost when a result of at most 4096 is rounded.
pub proof fn lemma_tick(r: real, exact: real)
    requires
        rounds(r, exact),
        size(exact) <= 4096 as real,
    ensures
        size(r - exact) <= tick(),
{
    lemma_speck();
    let h = size(r) * ulp();
    assert(h * 0x10_0000_0000_0000 as real == size(r)) by (nonlinear_arith)
        requires
            h == size(r) * ulp(),
            ulp() == 1 as real / 0x10_0000_0000_0000 as real,
    ;
    assert(speck() <= 1 as real / 0x10_0000_0000_0000_0000 as real);
    assert(size(r) <= size(exact) + size(r - exact));
}

/// A sum of numbers that are close to others.
pub proof fn lemma_near_plus(a: F64, x: real, d: real, b: F64, y: real, e: real)
    requires
        near(a, x, d),
        near(b, y, e),
        size(x + y) + d + e <= 4096 as real,
    ensures
        near(a.plus(b), x + y, d + e + tick()),
{
    lemma_plus(a, b);
    assert(size(val(a) + val(b)) <= 4096 as real);
    lemma_tick(val(a.plus(b)), val(a) + val(b));
}

/// A difference of numbers that are close to others.
pub proof fn lemma_near_minus(a: F64, x: real, d: real, b: F64, y: real, e: real)
    requires
        near(a, x, d),
        near(b, y, e),
        size(x - y) + d + e <= 4096 as real,
    ensures
        near(a.minus(b), x - y, d + e + tick()),
{
    lemma_minus(a, b);
    assert(size(val(a) - val(b)) <= 4096 as real);
    lemma_tick(val(a.minus(b)), val(a) - val(b));
}

/// A product of numbers that are close to others. `m` and `n` bound the first of
/// those and the second number.
pub proof fn lemma_near_times(
    a: F64,
    x: real,
    d: real,
    b: F64,
    y: real,
    e: real,
    m: real,
    n: real,
)
    requires
        near(a, x, d),
        near(b, y, e),
        size(x) <= m,
        size(val(b)) <= n,
        (m + d) * n <= 4096 as real,
    ensures
        near(a.times(b), x * y, m * e + n * d + tick()),
{
    let (v, w) = (val(a), val(b));
    assert(size(v * w) <= (m + d) * n) by (nonlinear_arith)
        requires
            size(v) <= m + d,
            size(w) <= n,
    ;
    lemma_times(a, b);
    lemma_tick(val(a.times(b)), v * w);
    assert(size(v * w - x * y) <= m * e + n * d) by (nonlinear_arith)
        requires
            size(v - x) <= d,
            size(w - y) <= e,
            size(x) <= m,
            size(w) <= n,
    {
        assert(v * w - x * y == (v - x) * w + x * (w - y)) by (nonlinear_arith);
        assert(size((v - x) * w) <= n * d) by (nonlinear_arith)
            requires
                size(v - x) <= d,
                size(w) <= n,
        ;
        assert(size(x * (w - y)) <= m * e) by (nonlinear_arith)
            requires
                size(x) <= m,
                size(w - y) <= e,
        ;
    }
}

/// The lens polynomial in real numbers.
pub open spec fn polynomial(t: real, k: Seq<F64>) -> real {
    let t2 = t * t;
    let t4 = t2 * t2;
    t * (1 as real + val(k[0]) * t2 + val(k[1]) * t4 + val(k[2]) * (t4 * t2) + val(k[3]) * (t4
        * t4))
}

/// The coefficients of a lens are at most an eighth.
pub open spec fn mild(k: Seq<F64>) -> bool {
    &&& k.len() == 4
    &&& forall|i: int| 0 <= i < 4 ==> (#[trigger] k[i]).finite() && 8 as real * size(val(k[i]))
        <= 1 as real
}

/// The value one.
pub proof fn lemma_one()
    ensures
        (F64 { bits: ONE }).finite(),
        val(F64 { bits: ONE }) == 1 as real,
{
    lemma_power(0);
    lemma2_to64();
    let (v, p) = (val(F64 { bits: ONE }), pow2(0) as real);
    assert(v == 1 as real) by (nonlinear_arith)
        requires
            v * p == 1 as real,
            p == 1 as real,
    ;
}

/// The value of a number by its fraction and its exponent.
pub proof fn lemma_dyadic(x: F64, t: nat, q: int)
    requires
        t <= 1074,
        0x10_0000_0000_0000 <= q < 0x20_0000_0000_0000,
        x.bits == t * 0x10_0000_0000_0000 + q,
        x.bits < 0x7FF0_0000_0000_0000,
    ensures
        x.finite(),
        val(x) * pow2((1074 - t) as nat) as real == q as real,
{
    lemma2_to64();
    lemma2_to64_rest();
    lemma_speck();
    lemma_rung_in_binade(52, t, q);
    lemma_pow2_adds(t, (1074 - t) as nat);
    lemma_pow2_pos(t);
    lemma_val(x);
    let (h, p, u) = (pow2((1074 - t) as nat) as int, pow2(t) as int, pow2(1074) as int);
    let v = value_d(x);
    assert(v == q * p);
    assert(val(x) * h as real == q as real) by (nonlinear_arith)
        requires
            val(x) * u as real == v as real,
            v == q * p,
            u == p * h,
            p > 0,
    {
        assert(u as real == p as real * h as real && v as real == q as real * p as real)
            by (nonlinear_arith)
            requires
                u == p * h,
                v == q * p,
        ;
        assert((val(x) * h as real) * p as real == val(x) * (p as real * h as real))
            by (nonlinear_arith);
        assert(val(x) * h as real == q as real) by (nonlinear_arith)
            requires
                (val(x) * h as real) * p as real == q as real * p as real,
                p as real > 0 as real,
        ;
    }
}

/// The value two to the power `-j`.
proof fn lemma_power(j: nat)
    requires
        j <= 60,
    ensures
        ({
            let x = F64 { bits: ((1023 - j) * 0x10_0000_0000_0000) as u64 };
            x.finite() && val(x) * pow2(j) as real == 1 as real
        }),
{
    let x = F64 { bits: ((1023 - j) * 0x10_0000_0000_0000) as u64 };
    let t = (1022 - j) as nat;
    lemma2_to64();
    lemma2_to64_rest();
    lemma_dyadic(x, t, 0x10_0000_0000_0000);
    lemma_pow2_adds(52, j);
    let (h, p) = (pow2((52 + j) as nat) as int, pow2(j) as int);
    assert(val(x) * p as real == 1 as real) by (nonlinear_arith)
        requires
            val(x) * h as real == 0x10_0000_0000_0000int as real,
            h == 0x10_0000_0000_0000 * p,
    {
        assert(h as real == 0x10_0000_0000_0000 as real * p as real) by (nonlinear_arith)
            requires
                h == 0x10_0000_0000_0000 * p,
        ;
        assert(val(x) * (0x10_0000_0000_0000 as real * p as real) == 0x10_0000_0000_0000 as real * (
        val(x) * p as real)) by (nonlinear_arith);
    }
}

/// The powers of an angle that is close to `t`.
pub proof fn lemma_powers(theta: F64, t: real, d: real)
    requires
        near(theta, t, d),
        0 as real <= d <= 1 as real / 8192 as real,
        size(t) <= 111 as real / 100 as real,
    ensures
        ({
            let p = even_powers(theta);
            let t2 = t * t;
            let t4 = t2 * t2;
            let tk = tick();
            &&& near(p[0], t2, 224 as real / 100 as real * d + 2 as real * tk)
            &&& near(p[1], t4, 556 as real / 100 as real * d + 6 as real * tk)
            &&& near(p[2], t4 * t2, 1040 as real / 100 as real * d + 12 as real * tk)
            &&& near(p[3], t4 * t4, 1720 as real / 100 as real * d + 20 as real * tk)
            &&& 0 as real <= t2 <= 124 as real / 100 as real
            &&& 0 as real <= t4 <= 153 as real / 100 as real
            &&& 0 as real <= t4 * t2 <= 189 as real / 100 as real
            &&& 0 as real <= t4 * t4 <= 233 as real / 100 as real
        }),
{
    let p = even_powers(theta);
    let t2 = t * t;
    let t4 = t2 * t2;
    assert(0 as real <= t2 <= 1233 as real / 1000 as real) by (nonlinear_arith)
        requires
            t2 == t * t,
            size(t) <= 111 as real / 100 as real,
    ;
    assert(0 as real <= t4 <= 1521 as real / 1000 as real) by (nonlinear_arith)
        requires
            t4 == t2 * t2,
            0 as real <= t2 <= 1233 as real / 1000 as real,
    ;
    assert(0 as real <= t4 * t2 <= 188 as real / 100 as real) by (nonlinear_arith)
        requires
            0 as real <= t4 <= 1521 as real / 1000 as real,
            0 as real <= t2 <= 1233 as real / 1000 as real,
    ;
    assert(0 as real <= t4 * t4 <= 232 as real / 100 as real) by (nonlinear_arith)
        requires
            0 as real <= t4 <= 1521 as real / 1000 as real,
    ;
    let tk = tick();
    let (m1, n1) = (111 as real / 100 as real, 112 as real / 100 as real);
    lemma_near_times(theta, t, d, theta, t, d, m1, n1);
    let e2 = 224 as real / 100 as real * d + 2 as real * tk;
    assert(near(p[0], t2, e2));
    let m2 = 124 as real / 100 as real;
    lemma_near_times(p[0], t2, e2, p[0], t2, e2, m2, m2);
    let e4 = 556 as real / 100 as real * d + 6 as real * tk;
    assert(near(p[1], t4, e4));
    let m4 = 153 as real / 100 as real;
    lemma_near_times(p[1], t4, e4, p[0], t2, e2, m4, m2);
    lemma_near_times(p[1], t4, e4, p[1], t4, e4, m4, m4);
}

/// A term of the polynomial and the sum up to it.
pub proof fn lemma_term(
    total: F64,
    y: real,
    e: real,
    k: F64,
    c: real,
    power: F64,
    t: real,
    f: real,
    n: real,
)
    requires
        near(total, y, e),
        near(k, c, 0 as real),
        near(power, t, f),
        size(c) <= 1 as real,
        size(val(power)) <= n,
        0 as real <= n <= 4 as real,
        0 as real <= f <= 1 as real,
        0 as real <= e <= 1 as real,
        size(y) <= 4 as real,
        size(t) <= n,
    ensures
        near(total.plus(k.times(power)), y + c * t, e + size(c) * f + 2 as real * tick()),
{
    lemma_scaled(size(c), 1 as real, n);
    assert(1 as real * n == n && (size(c) + 0 as real) * n == size(c) * n) by (nonlinear_arith);
    lemma_near_times(k, c, 0 as real, power, t, f, size(c), n);
    assert(n * (0 as real) == 0 as real);
    let g = size(c) * f + tick();
    lemma_scaled(size(c), 1 as real, f);
    assert(1 as real * f == f) by (nonlinear_arith);
    lemma_size_bounded(c, 1 as real, t, n);
    lemma_near_plus(total, y, e, k.times(power), c * t, g);
}

/// A product with what is at most an eighth.
proof fn lemma_eighth(c: real, y: real, m: real)
    requires
        8 as real * size(c) <= 1 as real,
        size(y) <= m,
    ensures
        8 as real * size(c * y) <= m,
        8 as real * (size(c) * m) <= m,
{
    lemma_size_bounded(8 as real * c, 1 as real, y, m);
    assert((8 as real * c) * y == 8 as real * (c * y) && 1 as real * m == m) by (nonlinear_arith);
    lemma_scaled(8 as real * size(c), 1 as real, m);
    assert((8 as real * size(c)) * m == 8 as real * (size(c) * m)) by (nonlinear_arith);
}

/// The lens polynomial at an angle that is close to `t`.
pub proof fn lemma_shown_near(theta: F64, k: Seq<F64>, t: real, d: real)
    requires
        near(theta, t, d),
        0 as real <= d <= 1 as real / 8192 as real,
        size(t) <= 111 as real / 100 as real,
        mild(k),
    ensures
        near(shown_at(theta, k), polynomial(t, k), 7 as real * d + 20 as real * tick()),
        size(polynomial(t, k)) <= 3 as real,
{
    let p = even_powers(theta);
    let t2 = t * t;
    let t4 = t2 * t2;
    let (t6, t8) = (t4 * t2, t4 * t4);
    lemma_powers(theta, t, d);
    lemma_one();
    reveal_with_fuel(one_and_terms, 5);
    let tk = tick();
    let (c0, c1, c2, c3) = (val(k[0]), val(k[1]), val(k[2]), val(k[3]));
    let one = 1 as real;
    let e2 = 224 as real / 100 as real * d + 2 as real * tk;
    let e4 = 556 as real / 100 as real * d + 6 as real * tk;
    let e6 = 1040 as real / 100 as real * d + 12 as real * tk;
    let e8 = 1720 as real / 100 as real * d + 20 as real * tk;
    lemma_eighth(c0, t2, 124 as real / 100 as real);
    lemma_eighth(c1, t4, 153 as real / 100 as real);
    lemma_eighth(c2, t6, 189 as real / 100 as real);
    lemma_eighth(c3, t8, 233 as real / 100 as real);
    lemma_eighth(c0, 0 as real, e2);
    lemma_eighth(c1, 0 as real, e4);
    lemma_eighth(c2, 0 as real, e6);
    lemma_eighth(c3, 0 as real, e8);
    let n = 3 as real;
    let s0 = F64 { bits: ONE };
    let s1 = s0.plus(k[0].times(p[0]));
    let s2 = s1.plus(k[1].times(p[1]));
    let s3 = s2.plus(k[2].times(p[2]));
    let s4 = s3.plus(k[3].times(p[3]));
    assert(one_and_terms(k, p, 4) == s4);
    let eight = 8 as real;
    lemma_term(s0, one, 0 as real, k[0], c0, p[0], t2, e2, n);
    let y1 = one + c0 * t2;
    let f1 = e2 / eight + 2 as real * tk;
    lemma_term(s1, y1, f1, k[1], c1, p[1], t4, e4, n);
    let y2 = y1 + c1 * t4;
    let f2 = f1 + e4 / eight + 2 as real * tk;
    lemma_term(s2, y2, f2, k[2], c2, p[2], t6, e6, n);
    let y3 = y2 + c2 * t6;
    let f3 = f2 + e6 / eight + 2 as real * tk;
    lemma_term(s3, y3, f3, k[3], c3, p[3], t8, e8, n);
    let y4 = y3 + c3 * t8;
    let f4 = f3 + e8 / eight + 2 as real * tk;
    assert(near(s4, y4, f4));
    assert(size(y4) <= 1875 as real / 1000 as real);
    let (m, w) = (111 as real / 100 as real, 188 as real / 100 as real);
    lemma_near_times(theta, t, d, s4, y4, f4, m, w);
    lemma_size_bounded(t, m, y4, w);
    assert(polynomial(t, k) == t * y4);
}

/// How fast the polynomial grows is finite, and at most eight.
proof fn lemma_growth_bounded(theta: F64, k: Seq<F64>)
    requires
        theta.finite(),
        size(val(theta)) <= 111 as real / 100 as real,
        mild(k),
    ensures
        growth_at(theta, k).finite(),
        size(val(growth_at(theta, k))) <= 8 as real,
{
    let p = even_powers(theta);
    let t = val(theta);
    lemma_powers(theta, t, 0 as real);
    lemma_one();
    lemma_odd();
    let tk = tick();
    let factors = Seq::new(4, |i: int| (F64 { bits: ODD[i] }).times(k[i]));
    assert forall|i: int| 0 <= i < 4 implies (#[trigger] factors[i]).finite() && 8 as real * size(
        val(factors[i]),
    ) <= (2 * i + 3) as real + 8 as real * tk by {
        let odd = F64 { bits: ODD[i] };
        let w = (2 * i + 3) as real;
        assert(w * (1 as real) <= 4096 as real);
        lemma_near_times(odd, w, 0 as real, k[i], val(k[i]), 0 as real, w, 1 as real);
        lemma_eighth(val(k[i]), w, w);
        assert(w * val(k[i]) == val(k[i]) * w) by (nonlinear_arith);
        assert(w * (0 as real) == 0 as real);
    }
    reveal_with_fuel(one_and_terms, 5);
    let s0 = F64 { bits: ONE };
    let s1 = s0.plus(factors[0].times(p[0]));
    let s2 = s1.plus(factors[1].times(p[1]));
    let s3 = s2.plus(factors[2].times(p[2]));
    let s4 = s3.plus(factors[3].times(p[3]));
    assert(one_and_terms(factors, p, 4) == s4);
    let c = 100 as real;
    lemma_bounded_term(s0, 1 as real, factors[0], 38 as real / c, p[0], 125 as real / c);
    let y1 = 15 as real / 10 as real;
    lemma_bounded_term(s1, y1, factors[1], 63 as real / c, p[1], 154 as real / c);
    let y2 = 25 as real / 10 as real;
    lemma_bounded_term(s2, y2, factors[2], 88 as real / c, p[2], 190 as real / c);
    let y3 = 42 as real / 10 as real;
    lemma_bounded_term(s3, y3, factors[3], 113 as real / c, p[3], 234 as real / c);
}

/// A fraction that is a whole number.
proof fn lemma_ratio(v: real, p: int, q: int, w: int)
    requires
        v * p as real == q as real,
        q == w * p,
        p > 0,
    ensures
        v == w as real,
{
    assert(v == w as real) by (nonlinear_arith)
        requires
            v * p as real == q as real,
            q == w * p,
            p > 0,
    {
        assert(q as real == w as real * p as real) by (nonlinear_arith)
            requires
                q == w * p,
        ;
        assert(v == w as real) by (nonlinear_arith)
            requires
                v * p as real == w as real * p as real,
                p as real > 0 as real,
        ;
    }
}

/// Three, five, seven and nine.
pub proof fn lemma_odd()
    ensures
        forall|i: int|
            0 <= i < 4 ==> (F64 { bits: #[trigger] ODD[i] }).finite() && val(
                F64 { bits: ODD[i] },
            ) == (2 * i + 3) as real,
{
    lemma2_to64();
    lemma2_to64_rest();
    assert forall|i: int| 0 <= i < 4 implies (F64 { bits: #[trigger] ODD[i] }).finite() && val(
        F64 { bits: ODD[i] },
    ) == (2 * i + 3) as real by {
        let x = F64 { bits: ODD[i] };
        if i == 0 {
            lemma_dyadic(x, 1023, 0x18_0000_0000_0000);
            lemma_ratio(val(x), pow2(51) as int, 0x18_0000_0000_0000, 3);
        } else if i == 1 {
            lemma_dyadic(x, 1024, 0x14_0000_0000_0000);
            lemma_ratio(val(x), pow2(50) as int, 0x14_0000_0000_0000, 5);
        } else if i == 2 {
            lemma_dyadic(x, 1024, 0x1C_0000_0000_0000);
            lemma_ratio(val(x), pow2(50) as int, 0x1C_0000_0000_0000, 7);
        } else {
            lemma_dyadic(x, 1025, 0x12_0000_0000_0000);
            lemma_ratio(val(x), pow2(49) as int, 0x12_0000_0000_0000, 9);
        }
    }
}

/// A sum with a further term, by size.
proof fn lemma_bounded_term(total: F64, y: real, k: F64, m: real, power: F64, n: real)
    requires
        total.finite(),
        k.finite(),
        power.finite(),
        size(val(total)) <= y,
        size(val(k)) <= m,
        size(val(power)) <= n,
        m * n <= 10 as real,
        y <= 10 as real,
    ensures
        total.plus(k.times(power)).finite(),
        size(val(total.plus(k.times(power)))) <= y + m * n + 2 as real * tick(),
{
    let (c, t) = (val(k), val(power));
    assert(size(c * t) <= m * n) by (nonlinear_arith)
        requires
            size(c) <= m,
            size(t) <= n,
    ;
    lemma_times(k, power);
    lemma_tick(val(k.times(power)), c * t);
    let w = k.times(power);
    lemma_near_plus(total, val(total), 0 as real, w, val(w), 0 as real);
}

/// A number below two to the power `-j` in bits is so in value.
pub proof fn lemma_below_power(x: F64, j: nat)
    requires
        j <= 60,
        x.finite(),
    ensures
        x.parts().key <= (1023 - j) * 0x10_0000_0000_0000 ==> size(val(x)) * pow2(j) as real <= 1
            as real,
        x.parts().key >= (1023 - j) * 0x10_0000_0000_0000 ==> size(val(x)) * pow2(j) as real >= 1
            as real,
{
    let y = F64 { bits: ((1023 - j) * 0x10_0000_0000_0000) as u64 };
    lemma_power(j);
    lemma_val(x);
    lemma_val(x.magnitude());
    lemma_val(y);
    lemma_pow2_pos(j);
    lemma_val_ordered(x.magnitude(), y);
    lemma_val_ordered(y, x.magnitude());
    let (a, b, p) = (size(val(x)), val(y), pow2(j) as real);
    assert((a <= b ==> a * p <= b * p) && (b <= a ==> b * p <= a * p)) by (nonlinear_arith)
        requires
            p > 0 as real,
    ;
}

/// A search that succeeds ends with a step from some angle.
proof fn lemma_last_step(s: LensSolve, k: Seq<F64>) -> (q: LensSolve)
    requires
        s.wf(),
        s.step == SolveStep::Evaluate,
        s.finished(k).step == SolveStep::Solved,
    ensures
        q.step == SolveStep::Evaluate,
        q.lens == s.lens && q.dx == s.dx && q.dy == s.dy && q.theta_d == s.theta_d,
        s.finished(k) == q.stepped(shown_at(q.theta, k), growth_at(q.theta, k)),
    decreases s.left(),
{
    reveal_with_fuel(LensSolve::finished, 2);
    let next = s.stepped(shown_at(s.theta, k), growth_at(s.theta, k));
    if next.step == SolveStep::Evaluate {
        lemma_last_step(next, k)
    } else {
        s
    }
}

/// How far the polynomial at an angle close to the solved one may be off the
/// place that was searched for.
pub open spec fn slip() -> real {
    1 as real / 1990 as real
}

/// How close to the solved angle an angle is to be, in radians.
pub open spec fn fine() -> real {
    1 as real / 14000 as real
}

/// The lens shows an angle that is close to the solved one where the search began.
pub proof fn lemma_solved_shown(s: LensSolve, k: Seq<F64>, theta: F64)
    requires
        s.wf(),
        s.step == SolveStep::Evaluate,
        s.finished(k).step == SolveStep::Solved,
        s.theta_d.finite(),
        size(val(s.theta_d)) <= 2 as real,
        s.finished(k).theta.finite(),
        size(val(s.finished(k).theta)) <= 11 as real / 10 as real,
        near(theta, val(s.finished(k).theta), fine()),
        mild(k),
    ensures
        near(shown_at(theta, k), val(s.theta_d), slip()),
{
    let q = lemma_last_step(s, k);
    let end = s.finished(k);
    let (poly, slope) = (shown_at(q.theta, k), growth_at(q.theta, k));
    let delta = poly.minus(q.theta_d).over(slope);
    assert(end.theta == q.theta.minus(delta));
    assert(delta.finite()) by {
        assert(delta.magnitude().below(F64 { bits: CONVERGED }));
    }
    assert(q.theta.finite()) by {
        reveal(F64::plus);
    }
    lemma2_to64();
    lemma2_to64_rest();
    lemma_below_power(delta, 33);
    let (e, end_t, t) = (val(delta), val(end.theta), val(q.theta));
    let c = 1 as real / 0x2_0000_0000 as real;
    assert(size(e) <= c) by (nonlinear_arith)
        requires
            size(e) * pow2(33) as real <= 1 as real,
            pow2(33) == 0x2_0000_0000,
            c == 1 as real / 0x2_0000_0000 as real,
    ;
    lemma_minus(q.theta, delta);
    lemma_speck();
    let exact = t - e;
    let h = size(end_t) * ulp();
    assert(h * 0x10_0000_0000_0000 as real == size(end_t)) by (nonlinear_arith)
        requires
            h == size(end_t) * ulp(),
            ulp() == 1 as real / 0x10_0000_0000_0000 as real,
    ;
    assert(size(end_t - exact) <= tick());
    assert(size(t) <= 111 as real / 100 as real);
    // the step from there
    lemma_shown_near(q.theta, k, t, 0 as real);
    lemma_growth_bounded(q.theta, k);
    let diff = poly.minus(q.theta_d);
    let pt = polynomial(t, k);
    lemma_near_minus(
        poly,
        pt,
        20 as real * tick(),
        q.theta_d,
        val(q.theta_d),
        0 as real,
    );
    lemma_val(slope);
    lemma_val_ordered(slope.magnitude(), F64 { bits: FLAT });
    lemma_val(F64 { bits: FLAT });
    assert(val(slope) != 0 as real);
    lemma_over(diff, slope);
    let (a, b) = (val(diff), val(slope));
    let g = size(e) * ulp();
    assert(g <= size(e)) by (nonlinear_arith)
        requires
            g == size(e) * ulp(),
            ulp() == 1 as real / 0x10_0000_0000_0000 as real,
    ;
    let ratio = a / b;
    assert(size(ratio) <= 2 as real * c);
    assert(size(a) <= 16 as real * c) by (nonlinear_arith)
        requires
            ratio == a / b,
            b != 0 as real,
            size(b) <= 8 as real,
            size(ratio) <= 2 as real * c,
            c > 0 as real,
    {
        assert(a == ratio * b) by (nonlinear_arith)
            requires
                ratio == a / b,
                b != 0 as real,
        ;
        assert(size(ratio * b) <= (2 as real * c) * 8 as real) by (nonlinear_arith)
            requires
                size(b) <= 8 as real,
                size(ratio) <= 2 as real * c,
        ;
    }
    // the angle given
    let d = fine() + c + tick();
    assert(near(theta, t, d));
    lemma_shown_near(theta, k, t, d);
}

/// What is lost to rounding, relative to the exact result.
pub proof fn lemma_relative(r: real, exact: real)
    requires
        rounds(r, exact),
    ensures
        size(r - exact) <= size(exact) * ulp() + speck(),
{
    lemma_speck();
    let (h, k) = (size(r) * ulp(), size(exact) * ulp());
    assert(h * 0x10_0000_0000_0000 as real == size(r) && k * 0x10_0000_0000_0000 as real == size(
        exact,
    )) by (nonlinear_arith)
        requires
            h == size(r) * ulp(),
            k == size(exact) * ulp(),
            ulp() == 1 as real / 0x10_0000_0000_0000 as real,
    ;
    assert(size(r) <= size(exact) + size(r - exact));
}

/// A length as a real.
pub proof fn lemma_length(a: F64, b: F64)
    requires
        a.finite(),
        b.finite(),
        size(val(a)) <= 200 as real,
        size(val(b)) <= 200 as real,
    ensures
        length(a, b).finite(),
        radius_of(val(length(a, b)), val(a), val(b)),
{
    lemma_speck();
    let (x, y) = (val(a), val(b));
    let (x2, y2) = (x * x, y * y);
    assert(0 as real <= x2 <= 40000 as real && 0 as real <= y2 <= 40000 as real)
        by (nonlinear_arith)
        requires
            x2 == x * x,
            y2 == y * y,
            size(x) <= 200 as real,
            size(y) <= 200 as real,
    ;
    lemma_times(a, a);
    lemma_times(b, b);
    let (p, q) = (a.times(a), b.times(b));
    lemma_relative(val(p), x2);
    lemma_relative(val(q), y2);
    let (w, k) = (ulp(), speck());
    let (xw, yw) = (x2 * w, y2 * w);
    assert(xw * 0x10_0000_0000_0000 as real == x2 && yw * 0x10_0000_0000_0000 as real == y2)
        by (nonlinear_arith)
        requires
            xw == x2 * w,
            yw == y2 * w,
            w == 1 as real / 0x10_0000_0000_0000 as real,
    ;
    lemma_plus(p, q);
    let s = p.plus(q);
    let mid = val(p) + val(q);
    lemma_relative(val(s), mid);
    let mw = size(mid) * w;
    assert(mw * 0x10_0000_0000_0000 as real == size(mid)) by (nonlinear_arith)
        requires
            mw == size(mid) * w,
            w == 1 as real / 0x10_0000_0000_0000 as real,
    ;
    let total = x2 + y2;
    let tw = 3 as real * total * w;
    assert(tw == 3 as real * (xw + yw)) by (nonlinear_arith)
        requires
            tw == 3 as real * total * w,
            total == x2 + y2,
            xw == x2 * w,
            yw == y2 * w,
    ;
    assert(size(val(s) - total) <= tw + 4 as real * k);
    lemma_not_negative(a);
    lemma_not_negative(b);
    lemma_sum_not_negative(p, q);
    lemma_root(s);
    lemma_radius_real(val(s), val(s.root()), total);
}

/// A square is not negative.
pub proof fn lemma_not_negative(a: F64)
    requires
        a.finite(),
        a.times(a).finite(),
    ensures
        !a.times(a).parts().neg,
{
    reveal(F64::times);
    let n = a.parts().size(Format::Double);
    lemma_pow2_pos(1074);
    law_ratio_rounds(Format::Double, n * n, pow2(1074) as int);
}

/// A sum of numbers that are not negative is not.
pub proof fn lemma_sum_not_negative(a: F64, b: F64)
    requires
        a.finite(),
        b.finite(),
        !a.parts().neg,
        !b.parts().neg,
        a.plus(b).finite(),
    ensures
        val(a.plus(b)) >= 0 as real,
{
    reveal(F64::plus);
    lemma_val(a);
    lemma_val(b);
    lemma_val(a.plus(b));
    law_ratio_rounds(Format::Double, value_d(a) + value_d(b), 1);
}

} // verus!
