//! That the two ways between a camera's plane and its quad lead back to where
//! they began, but for what rounding takes.
use crate::arith::{product, quotient, sum, Parts};
use crate::convert::{narrowed, widened};
use crate::double::F64;
use crate::panner_config::ONE;
use crate::projection::{on_plane, on_quad, HALF_D, TWO, TWO_D};
use crate::rounding::{
    law_ratio_rounds, law_rounding_error, law_rounding_keeps_order, lemma_rung_ascends,
    lemma_rung_in_binade, lemma_rung_zero, rounded_ratio, rung, Format,
};
use crate::single::F32;
use crate::speed_laws::{magnitude, value};
use crate::viewport::HALF;
use vstd::arithmetic::power2::{
    lemma2_to64, lemma2_to64_rest, lemma_pow2_adds, lemma_pow2_pos, pow2,
};
use vstd::prelude::*;

verus! {

/// One, in units of the smallest number.
pub open spec fn one(f: Format) -> int {
    pow2(f.unit()) as int
}

/// More than what is lost when a result of at most three is rounded.
pub open spec fn off(f: Format) -> int {
    pow2((f.unit() - 22) as nat) as int
}

/// The number of the value three.
spec fn three(f: Format) -> int {
    match f {
        Format::Single => 0x4040_0000,
        Format::Double => 0x4008_0000_0000_0000,
    }
}

/// What the units are.
proof fn lemma_units(f: Format)
    ensures
        one(f) == 0x40_0000 * off(f),
        off(f) >= 0x100_0000,
        rung(f.frac(), three(f)) == 3 * one(f),
        pow2(f.frac()) <= off(f),
        0x80_0000 <= pow2(f.frac()),
{
    lemma2_to64();
    lemma2_to64_rest();
    match f {
        Format::Single => {
            lemma_pow2_adds(22, 127);
            lemma_pow2_adds(64, 63);
            lemma_rung_in_binade(23, 127, 0xC0_0000);
            assert(pow2(127) == 0x1_0000_0000_0000_0000 * 0x8000_0000_0000_0000);
        },
        Format::Double => {
            lemma_pow2_adds(22, 1052);
            lemma_pow2_adds(51, 1023);
            lemma_pow2_adds(64, 988);
            lemma_pow2_pos(988);
            lemma_rung_in_binade(52, 1023, 0x18_0000_0000_0000);
            assert(pow2(1052) >= 0x1_0000_0000_0000_0000) by (nonlinear_arith)
                requires
                    pow2(1052) == 0x1_0000_0000_0000_0000 * pow2(988),
                    pow2(988) >= 1,
            ;
        },
    }
}

/// A rounded fraction of at most three is close to the exact one.
proof fn lemma_near(f: Format, n: int, d: int)
    requires
        d > 0,
        0 <= n <= 3 * one(f) * d,
    ensures
        ({
            let k = rounded_ratio(f, n, d);
            let r = rung(f.frac(), k);
            &&& 0 <= k < f.infinity()
            &&& 0 <= r <= 3 * one(f)
            &&& magnitude(r * d - n) <= off(f) * d
        }),
{
    let p = f.frac();
    let b = pow2(p) as int;
    let k = rounded_ratio(f, n, d);
    let r = rung(p, k);
    let (u, e) = (one(f), off(f));
    lemma_units(f);
    lemma_rung_zero(p);
    law_ratio_rounds(f, n, d);
    law_rounding_keeps_order(f, n, d, three(f));
    law_rounding_error(f, n, d);
    if k > 0 {
        lemma_rung_ascends(p, 0, k);
    }
    if k < three(f) {
        lemma_rung_ascends(p, k, three(f));
    }
    let gap = r * d - n;
    assert((r + b) * d <= 2 * b * (e * d)) by (nonlinear_arith)
        requires
            r <= 3 * u,
            u == 0x40_0000 * e,
            0x80_0000 <= b <= e,
            e > 0,
            d > 0,
    ;
    assert(gap <= e * d && -gap <= e * d) by (nonlinear_arith)
        requires
            2 * b * gap <= 2 * b * (e * d),
            2 * b * (-gap) <= 2 * b * (e * d),
            b > 0,
    ;
}

/// The magnitude of a finite number is not negative.
proof fn lemma_size(f: Format, x: Parts)
    requires
        x.finite(f),
    ensures
        0 <= x.size(f),
        x.size(f) == 0 <==> x.key == 0,
        magnitude(x.value(f)) == x.size(f),
{
    lemma_rung_zero(f.frac());
    if x.key > 0 {
        lemma_rung_ascends(f.frac(), 0, x.key as int);
    }
}

/// A sum of at most three is close to the exact one.
proof fn lemma_sum_near(f: Format, a: Parts, b: Parts)
    requires
        a.finite(f),
        b.finite(f),
        magnitude(a.value(f) + b.value(f)) <= 3 * one(f),
    ensures
        ({
            let s = sum(f, a, b);
            &&& s.finite(f)
            &&& magnitude(s.value(f) - (a.value(f) + b.value(f))) <= off(f)
        }),
{
    lemma_rung_zero(f.frac());
    lemma_units(f);
    lemma_near(f, magnitude(a.value(f) + b.value(f)), 1);
}

/// A product of at most three is close to the exact one.
proof fn lemma_product_near(f: Format, a: Parts, b: Parts)
    requires
        a.finite(f),
        b.finite(f),
        a.size(f) * b.size(f) <= 3 * one(f) * one(f),
    ensures
        ({
            let m = product(f, a, b);
            &&& m.finite(f)
            &&& m.neg == (a.neg != b.neg)
            &&& magnitude(m.size(f) * one(f) - a.size(f) * b.size(f)) <= off(f) * one(f)
        }),
{
    lemma_units(f);
    lemma_rung_zero(f.frac());
    lemma_size(f, a);
    lemma_size(f, b);
    lemma_pow2_pos(f.unit());
    let n = a.size(f) * b.size(f);
    assert(n >= 0 && (a.size(f) == 0 || b.size(f) == 0 ==> n == 0) && off(f) * one(f) >= 0)
        by (nonlinear_arith)
        requires
            n == a.size(f) * b.size(f),
            a.size(f) >= 0,
            b.size(f) >= 0,
            off(f) >= 0,
            one(f) >= 0,
    ;
    lemma_near(f, n, one(f));
    if a.key == 0 || b.key == 0 {
        assert(product(f, a, b).size(f) == 0);
        assert(0 * one(f) == 0);
    }
}

/// A quotient of at most three is close to the exact one.
proof fn lemma_quotient_near(f: Format, a: Parts, b: Parts)
    requires
        a.finite(f),
        b.finite(f),
        b.key > 0,
        a.size(f) * one(f) <= 3 * one(f) * b.size(f),
    ensures
        ({
            let q = quotient(f, a, b);
            &&& q.finite(f)
            &&& q.neg == (a.neg != b.neg)
            &&& magnitude(q.size(f) * b.size(f) - a.size(f) * one(f)) <= off(f) * b.size(f)
        }),
{
    lemma_units(f);
    lemma_rung_zero(f.frac());
    lemma_size(f, a);
    lemma_size(f, b);
    lemma_pow2_pos(f.unit());
    let n = a.size(f) * one(f);
    assert(n >= 0 && (a.size(f) == 0 ==> n == 0) && off(f) * b.size(f) >= 0) by (nonlinear_arith)
        requires
            n == a.size(f) * one(f),
            a.size(f) >= 0,
            b.size(f) >= 0,
            off(f) >= 0,
            one(f) >= 0,
    ;
    lemma_near(f, n, b.size(f));
}

/// A number of at most three is close to itself in 32 bits.
pub proof fn lemma_narrow_near(x: Parts)
    requires
        x.finite(Format::Double),
        x.size(Format::Double) <= 3 * one(Format::Double),
    ensures
        ({
            let y = narrowed(x);
            &&& y.finite(Format::Single)
            &&& magnitude(
                y.value(Format::Single) * pow2(925) - x.value(Format::Double),
            ) <= off(Format::Double)
        }),
{
    lemma_pow2_adds(149, 925);
    lemma_pow2_adds(127, 925);
    lemma_pow2_pos(925);
    lemma_units(Format::Double);
    lemma_rung_zero(23);
    lemma_rung_zero(52);
    lemma_size(Format::Double, x);
    let h = pow2(925) as int;
    let (n, u) = (x.size(Format::Double), one(Format::Single));
    assert(3 * u * h == 3 * (u * h)) by (nonlinear_arith);
    lemma_near(Format::Single, n, h);
    let y = narrowed(x);
    assert((-y.size(Format::Single)) * h == -(y.size(Format::Single) * h)) by (nonlinear_arith);
    if x.key == 0 {
        assert(0 * h == 0);
    }
}

/// A number of at most three is close to itself in 64 bits.
proof fn lemma_wide_near(x: Parts)
    requires
        x.finite(Format::Single),
        x.size(Format::Single) <= 3 * one(Format::Single),
    ensures
        ({
            let y = widened(x);
            &&& y.finite(Format::Double)
            &&& magnitude(
                y.value(Format::Double) - x.value(Format::Single) * pow2(925),
            ) <= off(Format::Double)
        }),
{
    lemma_pow2_adds(149, 925);
    lemma_pow2_pos(925);
    lemma_units(Format::Double);
    lemma_rung_zero(23);
    lemma_rung_zero(52);
    lemma_size(Format::Single, x);
    let h = pow2(925) as int;
    let (n, u) = (x.size(Format::Single), one(Format::Single));
    assert(0 <= n * h <= 3 * (u * h)) by (nonlinear_arith)
        requires
            0 <= n <= 3 * u,
            h > 0,
    ;
    assert((-n) * h == -(n * h)) by (nonlinear_arith);
    lemma_near(Format::Double, n * h, 1);
    if x.key == 0 {
        assert(0 * h == 0);
    }
}

/// The value of a finite number, in units of the smallest one.
pub open spec fn value_d(x: F64) -> int {
    x.parts().value(Format::Double)
}

/// What the constants are.
pub proof fn lemma_constants()
    ensures
        2 * value(F32 { bits: HALF }) == one(Format::Single),
        value(F32 { bits: ONE }) == one(Format::Single),
        value(F32 { bits: TWO }) == 2 * one(Format::Single),
        2 * value_d(F64 { bits: HALF_D }) == one(Format::Double),
        value_d(F64 { bits: TWO_D }) == 2 * one(Format::Double),
        one(Format::Single) * pow2(925) == one(Format::Double),
        off(Format::Single) * pow2(925) == off(Format::Double),
        pow2(925) > 0,
{
    lemma2_to64();
    lemma2_to64_rest();
    lemma_pow2_pos(925);
    lemma_pow2_adds(149, 925);
    lemma_pow2_adds(127, 925);
    lemma_pow2_adds(23, 125);
    lemma_pow2_adds(23, 126);
    lemma_pow2_adds(23, 127);
    lemma_pow2_adds(1, 148);
    lemma_pow2_adds(1, 149);
    lemma_rung_in_binade(23, 125, 0x80_0000);
    lemma_rung_in_binade(23, 126, 0x80_0000);
    lemma_rung_in_binade(23, 127, 0x80_0000);
    lemma_pow2_adds(52, 1021);
    lemma_pow2_adds(52, 1023);
    lemma_pow2_adds(1, 1073);
    lemma_pow2_adds(1, 1074);
    lemma_rung_in_binade(52, 1021, 0x10_0000_0000_0000);
    lemma_rung_in_binade(52, 1023, 0x10_0000_0000_0000);
}

proof fn lemma_plus(a: F32, b: F32)
    requires
        a.finite(),
        b.finite(),
        magnitude(value(a) + value(b)) <= 3 * one(Format::Single),
    ensures
        a.plus(b).finite(),
        magnitude(value(a.plus(b)) - (value(a) + value(b))) <= off(Format::Single),
{
    reveal(F32::plus);
    lemma_sum_near(Format::Single, a.parts(), b.parts());
}

proof fn lemma_minus(a: F32, b: F32)
    requires
        a.finite(),
        b.finite(),
        magnitude(value(a) - value(b)) <= 3 * one(Format::Single),
    ensures
        a.minus(b).finite(),
        magnitude(value(a.minus(b)) - (value(a) - value(b))) <= off(Format::Single),
{
    assert(b.negated().finite() && value(b.negated()) == -value(b));
    lemma_plus(a, b.negated());
}

/// What is close in units of `d` is close.
proof fn lemma_cancel(x: int, y: int, e: int, d: int)
    requires
        d > 0,
        magnitude(x * d - y * d) <= e * d,
    ensures
        magnitude(x - y) <= e,
{
    assert(x - y <= e && y - x <= e) by (nonlinear_arith)
        requires
            d > 0,
            x * d - y * d <= e * d,
            y * d - x * d <= e * d,
    ;
}

proof fn lemma_doubled(x: F32)
    requires
        x.finite(),
        2 * magnitude(value(x)) <= 3 * one(Format::Single),
    ensures
        x.times(F32 { bits: TWO }).finite(),
        magnitude(value(x.times(F32 { bits: TWO })) - 2 * value(x)) <= off(Format::Single),
{
    reveal(F32::times);
    lemma_constants();
    lemma_pow2_pos(149);
    let two = F32 { bits: TWO };
    let u = one(Format::Single);
    lemma_size(Format::Single, x.parts());
    let n = x.parts().size(Format::Single);
    assert(n * (2 * u) == (2 * n) * u && (2 * n) * u <= 3 * u * u) by (nonlinear_arith)
        requires
            2 * n <= 3 * u,
            u > 0,
    ;
    lemma_product_near(Format::Single, x.parts(), two.parts());
    let m = product(Format::Single, x.parts(), two.parts());
    lemma_cancel(m.size(Format::Single), 2 * n, off(Format::Single), u);
}

proof fn lemma_over_one(x: F32)
    requires
        x.finite(),
        magnitude(value(x)) <= 3 * one(Format::Single),
    ensures
        x.over(F32 { bits: ONE }).finite(),
        magnitude(value(x.over(F32 { bits: ONE })) - value(x)) <= off(Format::Single),
{
    reveal(F32::over);
    lemma_constants();
    lemma_pow2_pos(149);
    let whole = F32 { bits: ONE };
    let u = one(Format::Single);
    lemma_size(Format::Single, x.parts());
    let n = x.parts().size(Format::Single);
    assert(n * u <= 3 * u * u) by (nonlinear_arith)
        requires
            n <= 3 * u,
            u > 0,
    ;
    lemma_quotient_near(Format::Single, x.parts(), whole.parts());
    let q = quotient(Format::Single, x.parts(), whole.parts());
    lemma_cancel(q.size(Format::Single), n, off(Format::Single), u);
}

proof fn lemma_halved(x: F64)
    requires
        x.finite(),
        magnitude(value_d(x)) <= 3 * one(Format::Double),
    ensures
        x.over(F64 { bits: TWO_D }).finite(),
        magnitude(2 * value_d(x.over(F64 { bits: TWO_D })) - value_d(x)) <= 2 * off(
            Format::Double,
        ),
{
    reveal(F64::over);
    lemma_constants();
    lemma_pow2_pos(1074);
    let two = F64 { bits: TWO_D };
    let u = one(Format::Double);
    lemma_size(Format::Double, x.parts());
    let n = x.parts().size(Format::Double);
    assert(n * u <= 3 * u * (2 * u)) by (nonlinear_arith)
        requires
            n <= 3 * u,
            u > 0,
    ;
    lemma_quotient_near(Format::Double, x.parts(), two.parts());
    let q = quotient(Format::Double, x.parts(), two.parts());
    let m = q.size(Format::Double);
    let e = off(Format::Double);
    assert(m * (2 * u) == (2 * m) * u && e * (2 * u) == (2 * e) * u) by (nonlinear_arith);
    lemma_cancel(2 * m, n, 2 * e, u);
}

/// The bits of two to the power -100.
pub const LEAST_ASPECT: u32 = 0x0D80_0000;

/// The bits of two to the power 100.
pub const GREATEST_ASPECT: u32 = 0x7180_0000;

/// The ratio of the sides of a plane neither makes numbers overflow nor takes
/// their last places.
pub open spec fn aspect_in_reach(aspect: F32) -> bool {
    F32 { bits: LEAST_ASPECT }.at_most(aspect) && aspect.at_most(F32 { bits: GREATEST_ASPECT })
}

/// The number of the value two to the power 127.
spec fn far() -> int {
    0x7F00_0000
}

/// What is known of a ratio of sides.
proof fn lemma_aspect(aspect: F32)
    requires
        aspect_in_reach(aspect),
    ensures
        aspect.finite(),
        !aspect.parts().neg,
        aspect.parts().key > 0,
        pow2(49) <= value(aspect) <= pow2(249),
        rung(23, far()) == pow2(276),
{
    lemma2_to64();
    lemma2_to64_rest();
    lemma_pow2_adds(23, 26);
    lemma_pow2_adds(23, 226);
    lemma_pow2_adds(23, 253);
    lemma_rung_in_binade(23, 26, 0x80_0000);
    lemma_rung_in_binade(23, 226, 0x80_0000);
    lemma_rung_in_binade(23, 253, 0x80_0000);
    let k = aspect.parts().key as int;
    if LEAST_ASPECT < k {
        lemma_rung_ascends(23, LEAST_ASPECT as int, k);
    }
    if k < GREATEST_ASPECT {
        lemma_rung_ascends(23, k, GREATEST_ASPECT as int);
    }
}

/// How far a quotient times its divisor is off.
proof fn lemma_back_bound(n: int, g: int, a: int, u: int, e: int)
    requires
        0 <= n <= u,
        0 <= g,
        0 < a,
        u == 0x40_0000 * e,
        0 < e,
        16 * a <= e * e,
        0x100_0000 * magnitude(g * a - n * u) <= (g + 0x80_0000) * a,
    ensures
        magnitude(g * a - n * u) <= e * u,
        0 <= g * a <= 3 * u * u,
{
    let (x, y) = (g * a, n * u);
    assert((g + 0x80_0000) * a == x + 0x80_0000 * a) by (nonlinear_arith)
        requires
            x == g * a,
    ;
    assert(0 <= y <= u * u && x >= 0) by (nonlinear_arith)
        requires
            0 <= n <= u,
            y == n * u,
            x == g * a,
            g >= 0,
            a > 0,
    ;
    assert(e * u == 0x40_0000 * (e * e) && u * u == 0x1000_0000_0000 * (e * e)) by (nonlinear_arith)
        requires
            u == 0x40_0000 * e,
    ;
    assert(3 * u * u == 3 * (u * u)) by (nonlinear_arith);
    assert(0xFF_FFFF * x <= 0x100_0000 * y + 0x80_0000 * a);
}

/// A number divided and multiplied by the same is close to itself.
proof fn lemma_back(x: F32, aspect: F32)
    requires
        x.finite(),
        magnitude(value(x)) <= one(Format::Single),
        aspect_in_reach(aspect),
    ensures
        x.over(aspect).times(aspect).finite(),
        magnitude(value(x.over(aspect).times(aspect)) - value(x)) <= 2 * off(Format::Single),
{
    reveal(F32::over);
    reveal(F32::times);
    let f = Format::Single;
    let (u, e, a) = (one(f), off(f), value(aspect));
    let n = x.parts().size(f);
    lemma_aspect(aspect);
    lemma_units(f);
    lemma_size(f, x.parts());
    lemma_rung_zero(23);
    lemma2_to64();
    lemma_pow2_pos(49);
    lemma_pow2_pos(149);
    lemma_pow2_adds(127, 127);
    lemma_pow2_adds(4, 249);
    lemma_pow2_adds(1, 253);
    lemma_pow2_adds(149, 149);
    lemma_pow2_adds(276, 49);
    lemma_pow2_adds(298, 27);
    lemma_pow2_pos(298);
    assert(n * u <= u * u) by (nonlinear_arith)
        requires
            0 <= n <= u,
            u > 0,
    ;
    assert(pow2(276) * a >= pow2(276) * pow2(49)) by (nonlinear_arith)
        requires
            a >= pow2(49),
    ;
    assert(pow2(298) <= pow2(298) * pow2(27)) by (nonlinear_arith)
        requires
            pow2(27) >= 1,
            pow2(298) >= 1,
    ;
    assert(n * u >= 0) by (nonlinear_arith)
        requires
            n >= 0,
            u > 0,
    ;
    law_ratio_rounds(f, n * u, a);
    law_rounding_keeps_order(f, n * u, a, far());
    law_rounding_error(f, n * u, a);
    let q = quotient(f, x.parts(), aspect.parts());
    let k = rounded_ratio(f, n * u, a);
    let g = q.size(f);
    assert(q.finite(f) && q.neg == x.parts().neg);
    if x.parts().key == 0 {
        assert(g == 0 && n == 0);
        assert(g * a == 0 && n * u == 0) by (nonlinear_arith)
            requires
                g == 0,
                n == 0,
        ;
        assert((g + 0x80_0000) * a >= 0) by (nonlinear_arith)
            requires
                g == 0,
                a > 0,
        ;
    } else {
        assert(g == rung(23, k));
        assert(0x100_0000 * magnitude(g * a - n * u) <= (g + 0x80_0000) * a);
    }
    lemma_size(f, q);
    lemma_back_bound(n, g, a, u, e);
    lemma_product_near(f, q, aspect.parts());
    let m = product(f, q, aspect.parts());
    assert(magnitude(m.size(f) * u - n * u) <= (2 * e) * u) by (nonlinear_arith)
        requires
            magnitude(m.size(f) * u - g * a) <= e * u,
            magnitude(g * a - n * u) <= e * u,
    ;
    lemma_cancel(m.size(f), n, 2 * e, u);
}

/// A coordinate lies on the plane's part of the panorama, which reaches half the
/// picture's width beyond it on each side.
pub open spec fn on_extended_plane(x: F64) -> bool {
    F64 { bits: LEAST_UV }.at_most(x) && x.at_most(F64 { bits: GREATEST_UV })
}

/// The bits of minus one half, as a double.
pub const LEAST_UV: u64 = 0xBFE0_0000_0000_0000;

/// The bits of one and a half, as a double.
pub const GREATEST_UV: u64 = 0x3FF8_0000_0000_0000;

/// What is known of a coordinate.
pub proof fn lemma_coordinate(x: F64)
    requires
        on_extended_plane(x),
    ensures
        x.finite(),
        -one(Format::Double) <= 2 * value_d(x) <= 3 * one(Format::Double),
{
    lemma_constants();
    lemma_pow2_pos(1074);
    lemma2_to64();
    lemma2_to64_rest();
    lemma_pow2_adds(52, 1022);
    lemma_rung_in_binade(52, 1022, 0x18_0000_0000_0000);
    lemma_size(Format::Double, x.parts());
    let k = x.parts().key as int;
    if x.parts().neg {
        if k < HALF_D {
            lemma_rung_ascends(52, k, HALF_D as int);
        }
    } else if k < GREATEST_UV {
        lemma_rung_ascends(52, k, GREATEST_UV as int);
    }
}

/// Where a coordinate stands on the texture.
spec fn on_texture(x: F64) -> F32 {
    x.plus(F64 { bits: HALF_D }).over(F64 { bits: TWO_D }).narrow()
}

/// How far the place on the texture is off.
proof fn lemma_texture(x: F64)
    requires
        on_extended_plane(x),
    ensures
        ({
            let (c, e) = (value(on_texture(x)), off(Format::Single));
            &&& on_texture(x).finite()
            &&& -3 * e <= c <= one(Format::Single) + 3 * e
            &&& magnitude(
                2 * (c * pow2(925)) - (value_d(x) + value_d(F64 { bits: HALF_D })),
            ) <= 5 * off(Format::Double)
        }),
{
    reveal(F64::plus);
    reveal(F64::narrow);
    let half = F64 { bits: HALF_D };
    let (u, d, e) = (one(Format::Single), one(Format::Double), off(Format::Double));
    let h = pow2(925) as int;
    lemma_constants();
    lemma_units(Format::Double);
    lemma_coordinate(x);
    lemma_sum_near(Format::Double, x.parts(), half.parts());
    let a = x.plus(half);
    assert(a.parts() == sum(Format::Double, x.parts(), half.parts()));
    lemma_halved(a);
    let b = a.over(F64 { bits: TWO_D });
    lemma_size(Format::Double, b.parts());
    lemma_narrow_near(b.parts());
    assert(b.narrow().parts() == narrowed(b.parts()));
    let (c, s) = (value(on_texture(x)), off(Format::Single));
    assert((c + 3 * s) * h == c * h + 3 * (s * h) && (u + 3 * s - c) * h == u * h + 3 * (s * h) - c
        * h) by (nonlinear_arith);
    assert(c + 3 * s >= 0 && u + 3 * s - c >= 0) by (nonlinear_arith)
        requires
            (c + 3 * s) * h >= 0,
            (u + 3 * s - c) * h >= 0,
            h > 0,
    ;
}

/// The way from the texture to the plane across the quad, sideways.
proof fn lemma_across(c: F32)
    requires
        c.finite(),
        -3 * off(Format::Single) <= value(c) <= one(Format::Single) + 3 * off(Format::Single),
    ensures
        ({
            let half = F32 { bits: HALF };
            let h = c.minus(half).over(F32 { bits: ONE }).plus(half).times(
                F32 { bits: TWO },
            ).minus(half);
            &&& h.finite()
            &&& magnitude(value(h)) <= 3 * one(Format::Single)
            &&& magnitude(value(h) - (2 * value(c) - value(half))) <= 8 * off(Format::Single)
        }),
{
    let half = F32 { bits: HALF };
    lemma_constants();
    lemma_units(Format::Single);
    lemma_minus(c, half);
    let p = c.minus(half);
    lemma_over_one(p);
    let q = p.over(F32 { bits: ONE });
    lemma_plus(q, half);
    let s = q.plus(half);
    lemma_doubled(s);
    lemma_minus(s.times(F32 { bits: TWO }), half);
}

/// The way from the texture to the plane across the quad, downwards.
proof fn lemma_down(c: F32, aspect: F32)
    requires
        c.finite(),
        -3 * off(Format::Single) <= value(c) <= one(Format::Single) + 3 * off(Format::Single),
        aspect_in_reach(aspect),
    ensures
        ({
            let half = F32 { bits: HALF };
            let m = half.minus(c).over(aspect).times(aspect);
            let h = half.minus(m.over(F32 { bits: ONE })).times(F32 { bits: TWO }).minus(half);
            &&& h.finite()
            &&& magnitude(value(h)) <= 3 * one(Format::Single)
            &&& magnitude(value(h) - (2 * value(c) - value(half))) <= 12 * off(Format::Single)
        }),
{
    let half = F32 { bits: HALF };
    lemma_constants();
    lemma_units(Format::Single);
    lemma_minus(half, c);
    let p = half.minus(c);
    lemma_back(p, aspect);
    let m = p.over(aspect).times(aspect);
    lemma_over_one(m);
    let q = m.over(F32 { bits: ONE });
    lemma_minus(half, q);
    let s = half.minus(q);
    lemma_doubled(s);
    lemma_minus(s.times(F32 { bits: TWO }), half);
}

/// A coordinate that went over the texture and back is close to itself.
proof fn lemma_returned(x: F64, c: F32, h: F32)
    requires
        on_extended_plane(x),
        c == on_texture(x),
        h.finite(),
        magnitude(value(h)) <= 3 * one(Format::Single),
        magnitude(value(h) - (2 * value(c) - value(F32 { bits: HALF }))) <= 12 * off(
            Format::Single,
        ),
    ensures
        close(h.wide(), x),
{
    reveal(F32::wide);
    let w = pow2(925) as int;
    let (e, d) = (off(Format::Single), off(Format::Double));
    let (t, y, half) = (value(c), value(h), value(F32 { bits: HALF }));
    lemma_constants();
    lemma_units(Format::Double);
    lemma_texture(x);
    lemma_size(Format::Single, h.parts());
    lemma_wide_near(h.parts());
    assert(h.wide().parts() == widened(h.parts()));
    assert(magnitude(y * w - (2 * (t * w) - half * w)) <= 12 * (e * w)) by (nonlinear_arith)
        requires
            magnitude(y - (2 * t - half)) <= 12 * e,
            w > 0,
    ;
    assert(2 * (half * w) == (2 * half) * w) by (nonlinear_arith);
}

/// Two numbers differ by less than one part in a hundred thousand of a whole: by
/// at most two to the power -17.
pub open spec fn close(a: F64, b: F64) -> bool {
    a.finite() && 0x2_0000 * magnitude(value_d(a) - value_d(b)) <= one(Format::Double)
}

/// A point of the plane that is taken to the camera's quad and back is close to
/// where it was.
pub proof fn law_plane_leads_back(uv: (F64, F64), aspect: F32)
    requires
        on_extended_plane(uv.0),
        on_extended_plane(uv.1),
        aspect_in_reach(aspect),
    ensures
        close(on_plane(on_quad(uv, aspect), F32 { bits: ONE }, aspect).0, uv.0),
        close(on_plane(on_quad(uv, aspect), F32 { bits: ONE }, aspect).1, uv.1),
{
    let half = F32 { bits: HALF };
    let (one, two) = (F32 { bits: ONE }, F32 { bits: TWO });
    let (c, v) = (on_texture(uv.0), on_texture(uv.1));
    lemma_texture(uv.0);
    lemma_texture(uv.1);
    lemma_units(Format::Single);
    lemma_across(c);
    lemma_down(v, aspect);
    lemma_returned(uv.0, c, c.minus(half).over(one).plus(half).times(two).minus(half));
    let m = half.minus(v).over(aspect).times(aspect);
    lemma_returned(uv.1, v, half.minus(m.over(one)).times(two).minus(half));
}

} // verus!
