//! That the camera keeps to its top speed.
//!
//! In exact arithmetic a speed that is eased towards one within the limit stays
//! within it. Rounding can carry it past the limit, but never by more than
//! about a thousandth part, however many frames are decided.
use crate::field_panner::{eased, new_panner, softened, FieldPanner};
use crate::panner_config::{in_range, law_sanitized_in_range, FieldPannerConfig, ONE, THOUSANDTH};
use crate::rounding::{
    law_ratio_rounds, law_rounding_error, law_rounding_keeps_order, lemma_rung_ascends,
    lemma_rung_in_binade, lemma_rung_zero, rounded_ratio, rung, Format,
};
use crate::single::F32;
use crate::world::WorldState;
use vstd::arithmetic::power2::{
    lemma2_to64, lemma2_to64_rest, lemma_pow2_adds, lemma_pow2_pos, pow2,
};
use vstd::prelude::*;

verus! {

/// The magnitude of a whole number.
pub open spec fn magnitude(n: int) -> int {
    if n < 0 {
        -n
    } else {
        n
    }
}

/// The value of a finite number, in units of the smallest one.
pub open spec fn value(x: F32) -> int {
    x.parts().value(Format::Single)
}

/// The bits of two to the power 124: a limit above it could not be kept, since
/// sums would overflow.
pub const GREATEST_LIMIT: u32 = 0x7D80_0000;

/// The number of the value two to the power 127.
pub open spec fn far() -> int {
    0x7F00_0000
}

/// A speed exceeds the limit by no more than a thousandth part of it, or by
/// what is lost to rounding close to zero.
pub open spec fn kept(v: F32, limit: F32) -> bool {
    v.finite() && 1024 * magnitude(value(v)) <= 1025 * value(limit) + 0x40_0000
}

/// A finite sum is off the exact one by at most half a gap.
pub proof fn lemma_sum_close(a: F32, b: F32)
    requires
        a.finite(),
        b.finite(),
        magnitude(value(a) + value(b)) <= rung(23, far()),
    ensures
        ({
            let s = a.plus(b);
            &&& s.finite()
            &&& 0x100_0000 * magnitude(value(s) - (value(a) + value(b))) <= magnitude(value(s))
                + 0x80_0000
        }),
{
    reveal(F32::plus);
    lemma2_to64();
    lemma_rung_zero(23);
    let n = value(a) + value(b);
    let size = magnitude(n);
    law_ratio_rounds(Format::Single, size, 1);
    law_rounding_keeps_order(Format::Single, size, 1, far());
    law_rounding_error(Format::Single, size, 1);
    let k = rounded_ratio(Format::Single, size, 1);
    if k > 0 {
        lemma_rung_ascends(23, 0, k);
    }
    let s = a.plus(b);
    if n != 0 {
        assert(s.parts().key == k && s.parts().neg == (n < 0));
    } else {
        assert(s.parts().key == 0);
    }
}

/// A finite product with a factor that is not negative is off the exact one by
/// at most half a gap.
pub proof fn lemma_product_close(a: F32, b: F32)
    requires
        a.finite(),
        b.finite(),
        !a.parts().neg,
        value(a) * magnitude(value(b)) <= rung(23, far()) * pow2(149),
    ensures
        ({
            let m = a.times(b);
            &&& m.finite()
            &&& 0x100_0000 * magnitude(value(m) * pow2(149) - value(a) * value(b)) <= (magnitude(
                value(m),
            ) + 0x80_0000) * pow2(149)
        }),
{
    reveal(F32::times);
    lemma2_to64();
    lemma_rung_zero(23);
    lemma_pow2_pos(149);
    let u = pow2(149) as int;
    if a.parts().key > 0 {
        lemma_rung_ascends(23, 0, a.parts().key as int);
    }
    if b.parts().key > 0 {
        lemma_rung_ascends(23, 0, b.parts().key as int);
    }
    let n = a.parts().size(Format::Single) * b.parts().size(Format::Single);
    assert(n >= 0) by (nonlinear_arith)
        requires
            n == a.parts().size(Format::Single) * b.parts().size(Format::Single),
            a.parts().size(Format::Single) >= 0,
            b.parts().size(Format::Single) >= 0,
    ;
    assert(magnitude(value(b)) == b.parts().size(Format::Single));
    law_ratio_rounds(Format::Single, n, u);
    law_rounding_keeps_order(Format::Single, n, u, far());
    law_rounding_error(Format::Single, n, u);
    let k = rounded_ratio(Format::Single, n, u);
    let r = rung(23, k);
    if k > 0 {
        lemma_rung_ascends(23, 0, k);
    }
    let m = a.times(b);
    let exact = value(a) * value(b);
    let neg = b.parts().neg;
    assert(exact == if neg { -n } else { n }) by (nonlinear_arith)
        requires
            exact == value(a) * value(b),
            value(a) == a.parts().size(Format::Single),
            value(b) == if neg { -b.parts().size(Format::Single) } else { b.parts().size(
                Format::Single,
            ) },
            n == a.parts().size(Format::Single) * b.parts().size(Format::Single),
    ;
    if a.parts().key == 0 || b.parts().key == 0 {
        assert(n == 0) by (nonlinear_arith)
            requires
                n == a.parts().size(Format::Single) * b.parts().size(Format::Single),
                a.parts().size(Format::Single) == 0 || b.parts().size(Format::Single) == 0,
        ;
        assert(m.parts().key == 0);
        assert(value(m) == 0);
        assert(0 * u == 0);
        assert((0 + 0x80_0000) * u >= 0) by (nonlinear_arith)
            requires
                u > 0,
        ;
    } else {
        assert(m.parts().key == k && m.parts().neg == neg);
        assert(magnitude(value(m)) == r);
        let off = r * u - n;
        assert(value(m) * u - exact == if neg { -off } else { off }) by (nonlinear_arith)
            requires
                value(m) == if neg { -r } else { r },
                exact == if neg { -n } else { n },
                off == r * u - n,
        ;
        assert(0x100_0000 * off <= (r + 0x80_0000) * u && 0x100_0000 * (-off) <= (r + 0x80_0000)
            * u);
    }
}

/// The number two to the power 127 in units of the smallest one, and what is
/// known of a limit.
proof fn lemma_limit(limit: F32)
    requires
        !limit.nan(),
        0 <= limit.place() <= GREATEST_LIMIT,
    ensures
        rung(23, far()) == 0x80_0000 * pow2(253),
        0 <= 8 * value(limit) <= rung(23, far()),
        0x1_0000_0000 <= rung(23, far()),
{
    lemma2_to64();
    lemma2_to64_rest();
    lemma_rung_zero(23);
    lemma_rung_in_binade(23, 253, 0x80_0000);
    lemma_rung_in_binade(23, 250, 0x80_0000);
    lemma_pow2_adds(3, 250);
    lemma_pow2_pos(250);
    let k = limit.parts().key as int;
    if k > 0 {
        lemma_rung_ascends(23, 0, k);
    }
    if k < GREATEST_LIMIT {
        lemma_rung_ascends(23, k, GREATEST_LIMIT as int);
    }
    lemma_pow2_adds(61, 192);
    lemma_pow2_pos(192);
    assert(pow2(253) >= 0x2000_0000_0000_0000) by (nonlinear_arith)
        requires
            pow2(253) == 0x2000_0000_0000_0000 * pow2(192),
            pow2(192) >= 1,
    ;
}

/// A product with a factor up to one is hardly greater than the other factor.
proof fn lemma_part_bounded(u: int, a: int, e: int, m: int)
    requires
        u > 0,
        0 <= a <= u,
        0x100_0000 * magnitude(m * u - a * e) <= (magnitude(m) + 0x80_0000) * u,
    ensures
        0x100_0000 * (magnitude(m) - magnitude(e)) <= magnitude(m) + 0x80_0000,
{
    let (x, y) = (magnitude(m), magnitude(e));
    assert(magnitude(a * e) <= y * u) by (nonlinear_arith)
        requires
            0 <= a <= u,
            y == magnitude(e),
    ;
    assert(magnitude(m * u) == x * u) by (nonlinear_arith)
        requires
            u > 0,
            x == magnitude(m),
    ;
    let left = 0x100_0000 * (x - y);
    let right = x + 0x80_0000;
    assert(left * u == 0x100_0000 * (x * u - y * u)) by (nonlinear_arith)
        requires
            left == 0x100_0000 * (x - y),
    ;
    assert(left * u <= right * u);
    assert(left <= right) by (nonlinear_arith)
        requires
            left * u <= right * u,
            u > 0,
    ;
}

/// The new speed is the exact one and what rounding adds.
proof fn lemma_step_sums(u: int, a: int, x: int, g: int, e: int, m: int, y: int)
    ensures
        ({
            let (e1, off, e3) = (e - (g - x), m * u - a * e, y - (x + m));
            &&& y * u == x * u + a * (g - x + e1) + off + e3 * u
            &&& (-y) * u == (-x) * u + a * (-g - (-x) + (-e1)) + (-off) + (-e3) * u
        }),
{
    let (e1, off, e3) = (e - (g - x), m * u - a * e, y - (x + m));
    assert(y * u == x * u + m * u + e3 * u) by (nonlinear_arith)
        requires
            y == x + m + e3,
    ;
    assert((-y) * u == -(y * u) && (-x) * u == -(x * u) && (-e3) * u == -(e3 * u) && a * (-e)
        == -(a * e)) by (nonlinear_arith);
    assert(e == g - x + e1 && -e == -g - (-x) + (-e1));
}

/// What rounding adds to a speed is small beside the limit.
proof fn lemma_room(l: int, x: int, g: int, e: int, m: int, y: int)
    requires
        0 <= l,
        1024 * magnitude(x) <= 1025 * l + 0x40_0000,
        magnitude(g) <= l,
        0x100_0000 * magnitude(e - (g - x)) <= magnitude(e) + 0x80_0000,
        0x100_0000 * (magnitude(m) - magnitude(e)) <= magnitude(m) + 0x80_0000,
        0x100_0000 * magnitude(y - (x + m)) <= magnitude(y) + 0x80_0000,
    ensures
        0x10_0000 * (magnitude(e - (g - x)) + magnitude(y - (x + m))) + (magnitude(m) + 0x80_0000)
            / 16 + 1 <= l + 0x40_0000,
{
    let (ee, mm, yy) = (magnitude(e), magnitude(m), magnitude(y));
    assert(1024 * ee <= 2060 * l + 0x60_0000);
    assert(1024 * mm <= 2070 * l + 0x70_0000);
    assert(1024 * yy <= 3110 * l + 0xC0_0000);
}

/// How far a speed is off the desired one.
proof fn lemma_error_close(v: F32, d: F32, limit: F32)
    requires
        !limit.nan(),
        0 <= limit.place() <= GREATEST_LIMIT,
        kept(v, limit),
        d.finite(),
        magnitude(value(d)) <= value(limit),
    ensures
        ({
            let e = value(d.minus(v));
            &&& d.minus(v).finite()
            &&& 0x100_0000 * magnitude(e - (value(d) - value(v))) <= magnitude(e) + 0x80_0000
            &&& 2 * magnitude(e) <= rung(23, far())
            &&& 4 * magnitude(value(v)) <= rung(23, far())
            &&& 0 <= value(limit)
        }),
{
    lemma_limit(limit);
    let back = v.negated();
    assert(back.finite() && value(back) == -value(v));
    lemma_sum_close(d, back);
}

/// The part of an error that is made up for.
proof fn lemma_part_close(err: F32, alpha: F32)
    requires
        err.finite(),
        2 * magnitude(value(err)) <= rung(23, far()),
        alpha.finite(),
        !alpha.parts().neg,
        0 <= value(alpha) <= pow2(149),
        0x1_0000_0000 <= rung(23, far()),
    ensures
        ({
            let m = value(alpha.times(err));
            &&& alpha.times(err).finite()
            &&& 0x100_0000 * magnitude(m * pow2(149) - value(alpha) * value(err)) <= (magnitude(m)
                + 0x80_0000) * pow2(149)
            &&& 0x100_0000 * (magnitude(m) - magnitude(value(err))) <= magnitude(m) + 0x80_0000
            &&& 4 * magnitude(m) <= 3 * rung(23, far())
        }),
{
    let u = pow2(149) as int;
    lemma_pow2_pos(149);
    let (a, e, top) = (value(alpha), value(err), rung(23, far()));
    assert(a * magnitude(e) <= top * u) by (nonlinear_arith)
        requires
            0 <= a <= u,
            0 <= magnitude(e) <= top,
    ;
    lemma_product_close(alpha, err);
    lemma_part_bounded(u, a, e, value(alpha.times(err)));
}

/// One step of easing keeps to the limit.
proof fn lemma_eased_kept(v: F32, d: F32, alpha: F32, limit: F32)
    requires
        !limit.nan(),
        0 <= limit.place() <= GREATEST_LIMIT,
        kept(v, limit),
        d.finite(),
        magnitude(value(d)) <= value(limit),
        alpha.finite(),
        !alpha.parts().neg,
        0 <= value(alpha) <= pow2(149) <= 1024 * value(alpha),
    ensures
        kept(eased(v, d, alpha), limit),
{
    lemma_pow2_pos(149);
    assert(0x1_0000_0000 <= rung(23, far())) by {
        lemma_limit(limit);
    }
    lemma_error_close(v, d, limit);
    let err = d.minus(v);
    lemma_part_close(err, alpha);
    let part = alpha.times(err);
    lemma_sum_close(v, part);
    let (u, l) = (pow2(149) as int, value(limit));
    let (x, g, e, a) = (value(v), value(d), value(err), value(alpha));
    lemma_step(u, a, x, g, l, e, value(part), value(eased(v, d, alpha)));
}

/// The arithmetic of one step.
proof fn lemma_step(u: int, a: int, x: int, g: int, l: int, e: int, m: int, y: int)
    requires
        u > 0,
        0 <= a <= u <= 1024 * a,
        0 <= l,
        1024 * magnitude(x) <= 1025 * l + 0x40_0000,
        magnitude(g) <= l,
        0x100_0000 * magnitude(e - (g - x)) <= magnitude(e) + 0x80_0000,
        0x100_0000 * magnitude(m * u - a * e) <= (magnitude(m) + 0x80_0000) * u,
        0x100_0000 * (magnitude(m) - magnitude(e)) <= magnitude(m) + 0x80_0000,
        0x100_0000 * magnitude(y - (x + m)) <= magnitude(y) + 0x80_0000,
    ensures
        1024 * magnitude(y) <= 1025 * l + 0x40_0000,
{
    let (e1, off, e3) = (e - (g - x), m * u - a * e, y - (x + m));
    lemma_room(l, x, g, e, m, y);
    lemma_step_sums(u, a, x, g, e, m, y);
    let mm = magnitude(m);
    lemma_step_up(u, a, x, g, l, e1, off, e3, y, mm);
    lemma_step_up(u, a, -x, -g, l, -e1, -off, -e3, -y, mm);
}

/// The arithmetic of one step, to one side.
proof fn lemma_step_up(
    u: int,
    a: int,
    x: int,
    g: int,
    l: int,
    e1: int,
    off: int,
    e3: int,
    y: int,
    mm: int,
)
    requires
        u > 0,
        0 <= a <= u <= 1024 * a,
        l >= 0,
        mm >= 0,
        1024 * x <= 1025 * l + 0x40_0000,
        g <= l,
        y * u == x * u + a * (g - x + e1) + off + e3 * u,
        0x100_0000 * magnitude(off) <= (mm + 0x80_0000) * u,
        0x10_0000 * (magnitude(e1) + magnitude(e3)) + (mm + 0x80_0000) / 16 + 1 <= l + 0x40_0000,
    ensures
        1024 * y <= 1025 * l + 0x40_0000,
{
    let k = 0x40_0000int;
    let bound = 1025 * l + k;
    // where the exact step would lead
    assert((u - a) * (1024 * x) <= (u - a) * bound) by (nonlinear_arith)
        requires
            u - a >= 0,
            1024 * x <= bound,
    ;
    assert(a * g <= a * l) by (nonlinear_arith)
        requires
            a >= 0,
            g <= l,
    ;
    assert((u - a) * bound == u * bound - a * bound) by (nonlinear_arith);
    assert(a * bound == 1024 * (a * l) + a * (l + k)) by (nonlinear_arith)
        requires
            bound == 1025 * l + k,
    ;
    // what rounding adds
    assert(a * e1 <= u * magnitude(e1)) by (nonlinear_arith)
        requires
            0 <= a <= u,
            e1 <= magnitude(e1),
            0 <= magnitude(e1),
    ;
    assert(e3 * u <= u * magnitude(e3)) by (nonlinear_arith)
        requires
            u > 0,
            e3 <= magnitude(e3),
    ;
    assert(u * (l + k) <= 1024 * (a * (l + k))) by (nonlinear_arith)
        requires
            u <= 1024 * a,
            l + k >= 0,
    ;
    let sixteenth = (mm + 0x80_0000) / 16;
    assert((mm + 0x80_0000) * u <= (16 * sixteenth + 16) * u) by (nonlinear_arith)
        requires
            mm + 0x80_0000 <= 16 * sixteenth + 16,
            u > 0,
    ;
    let all = 0x10_0000 * (magnitude(e1) + magnitude(e3)) + sixteenth + 1;
    assert(all * u <= (l + k) * u) by (nonlinear_arith)
        requires
            all <= l + k,
            u > 0,
    ;
    assert(all * u == 0x10_0000 * (u * magnitude(e1) + u * magnitude(e3)) + (sixteenth + 1) * u)
        by (nonlinear_arith)
        requires
            all == 0x10_0000 * (magnitude(e1) + magnitude(e3)) + sixteenth + 1,
    ;
    assert((16 * sixteenth + 16) * u == 16 * ((sixteenth + 1) * u)) by (nonlinear_arith);
    assert((l + k) * u == u * (l + k)) by (nonlinear_arith);
    assert(a * (g - x + e1) == a * g - a * x + a * e1) by (nonlinear_arith);
    assert((u - a) * (1024 * x) == 1024 * (u * x) - 1024 * (a * x)) by (nonlinear_arith);
    assert(x * u == u * x) by (nonlinear_arith);
    assert(1024 * (y * u) <= u * bound);
    assert(1024 * y <= bound) by (nonlinear_arith)
        requires
            1024 * (y * u) <= u * bound,
            u > 0,
    ;
}

/// The limit of a panner lies where it can be kept.
pub open spec fn limit_in_reach(p: FieldPanner) -> bool {
    !p.speed_limit().nan() && 0 <= p.speed_limit().place() <= GREATEST_LIMIT
}

/// The camera keeps to its top speed on both axes.
pub open spec fn keeps_to_limit(p: FieldPanner) -> bool {
    kept(p.velocity_yaw, p.speed_limit()) && kept(p.velocity_pitch, p.speed_limit())
}

/// How far the camera is off its target is a number on both axes, also once the
/// dead zone is taken off.
pub open spec fn errors_are_numbers(p: FieldPanner, target: (F32, F32)) -> bool {
    let ey = target.0.minus(p.yaw);
    let ep = target.1.minus(p.pitch);
    let dz = p.config.dead_zone_rad;
    !softened(ey, ey, ep, dz).nan() && !softened(ep, ey, ep, dz).nan()
}

/// Two magnitudes in order are in order as values.
pub proof fn lemma_sizes_ordered(a: F32, b: F32)
    requires
        a.finite(),
        b.finite(),
        a.parts().key <= b.parts().key,
    ensures
        0 <= a.parts().size(Format::Single) <= b.parts().size(Format::Single),
{
    lemma_rung_zero(23);
    if a.parts().key > 0 {
        lemma_rung_ascends(23, 0, a.parts().key as int);
    }
    if a.parts().key < b.parts().key {
        lemma_rung_ascends(23, a.parts().key as int, b.parts().key as int);
    }
}

/// A number clamped to a limit on both sides has at most its magnitude.
pub proof fn lemma_clamped_small(x: F32, limit: F32)
    requires
        !x.nan(),
        !limit.nan(),
        0 <= limit.place() <= GREATEST_LIMIT,
    ensures
        ({
            let d = x.clamped(limit.negated(), limit);
            d.finite() && magnitude(value(d)) <= value(limit)
        }),
{
    let d = x.clamped(limit.negated(), limit);
    assert(limit.negated().place() == -limit.place());
    assert(d.parts().key <= limit.parts().key);
    lemma_sizes_ordered(d, limit);
    if limit.parts().neg {
        lemma_rung_zero(23);
    }
}

/// The fraction of the way that the speed is eased in a frame is at most one
/// and more than a thousandth.
pub proof fn lemma_fraction(p: FieldPanner)
    requires
        in_range(p.config),
    ensures
        ({
            let alpha = p.config.velocity_alpha.times(p.reactivity()).lesser(F32 { bits: ONE });
            &&& alpha.finite()
            &&& !alpha.parts().neg
            &&& 0 <= value(alpha) <= pow2(149) <= 1024 * value(alpha)
        }),
{
    let one = F32 { bits: ONE };
    let least = F32 { bits: THOUSANDTH };
    let a = p.config.velocity_alpha;
    let r = p.reactivity();
    let x = a.times(r);
    lemma2_to64();
    lemma2_to64_rest();
    lemma_rung_in_binade(23, 126, 0x80_0000);
    lemma_pow2_adds(23, 126);
    assert(value(one) == pow2(149));
    lemma_rung_in_binade(23, 116, 0x80_0000);
    lemma_pow2_adds(10, 139);
    lemma_pow2_adds(23, 116);
    // two to the power -10
    let floor = F32 { bits: 0x3A80_0000 };
    assert(1024 * value(floor) == pow2(149));
    lemma_sizes_ordered(floor, least);
    assert(r.finite() && !r.parts().neg && one.parts().key <= r.parts().key);
    if a.nan() {
        reveal(F32::times);
        assert(x.lesser(one) == one);
    } else {
        lemma_grown(a, r);
        let alpha = x.lesser(one);
        assert(least.parts().key <= alpha.parts().key <= one.parts().key);
        lemma_sizes_ordered(alpha, one);
        lemma_sizes_ordered(least, alpha);
    }
}

/// What is multiplied by one or more does not shrink.
proof fn lemma_grown(a: F32, r: F32)
    requires
        a.finite(),
        !a.parts().neg,
        r.finite(),
        !r.parts().neg,
        ONE <= r.parts().key,
    ensures
        !a.times(r).nan(),
        !a.times(r).parts().neg,
        a.parts().key <= a.times(r).parts().key,
{
    reveal(F32::times);
    lemma2_to64();
    lemma2_to64_rest();
    lemma_pow2_pos(149);
    lemma_rung_zero(23);
    lemma_rung_in_binade(23, 126, 0x80_0000);
    lemma_pow2_adds(23, 126);
    let u = pow2(149) as int;
    let one = F32 { bits: ONE };
    assert(value(one) == u);
    lemma_sizes_ordered(one, r);
    let (x, y) = (a.parts().size(Format::Single), r.parts().size(Format::Single));
    if a.parts().key > 0 {
        lemma_rung_ascends(23, 0, a.parts().key as int);
        assert(x * y >= x * u) by (nonlinear_arith)
            requires
                y >= u,
                x >= 0,
        ;
        law_ratio_rounds(Format::Single, x * y, u);
        law_rounding_keeps_order(Format::Single, x * y, u, a.parts().key as int);
    }
}

/// Chasing a target keeps the camera to its top speed.
pub proof fn law_chase_keeps_to_limit(p: FieldPanner, target: (F32, F32))
    requires
        in_range(p.config),
        limit_in_reach(p),
        keeps_to_limit(p),
        target.0.finite() && target.1.finite() ==> errors_are_numbers(p, target),
    ensures
        keeps_to_limit(p.chased(Some(target))),
{
    if target.0.finite() && target.1.finite() {
        let limit = p.speed_limit();
        let alpha = p.config.velocity_alpha.times(p.reactivity()).lesser(F32 { bits: ONE });
        let ey = target.0.minus(p.yaw);
        let ep = target.1.minus(p.pitch);
        let dz = p.config.dead_zone_rad;
        let dy = softened(ey, ey, ep, dz);
        let dp = softened(ep, ey, ep, dz);
        lemma_fraction(p);
        lemma_clamped_small(dy, limit);
        lemma_clamped_small(dp, limit);
        lemma_eased_kept(p.velocity_yaw, dy.clamped(limit.negated(), limit), alpha, limit);
        lemma_eased_kept(p.velocity_pitch, dp.clamped(limit.negated(), limit), alpha, limit);
    }
}

/// The camera keeps to its top speed from frame to frame, whatever is seen.
pub proof fn law_speed_keeps_to_limit(p: FieldPanner, world: WorldState, future: Seq<WorldState>)
    requires
        in_range(p.config),
        !p.max_velocity.parts().neg,
        limit_in_reach(p),
        limit_in_reach(p.begun(future.len() > 0)),
        keeps_to_limit(p),
        ({
            let (l, target) = p.aimed(world, future);
            match target {
                Some(t) => t.0.finite() && t.1.finite() ==> errors_are_numbers(l, t),
                None => true,
            }
        }),
    ensures
        keeps_to_limit(p.decided(world, future)),
{
    let (l, target) = p.aimed(world, future);
    let before = p.speed_limit();
    let after = l.speed_limit();
    assert(after == p.begun(future.len() > 0).speed_limit());
    lemma_limit_grows(p, future.len() > 0);
    assert(keeps_to_limit(l));
    if let Some(t) = target {
        law_chase_keeps_to_limit(l, t);
    }
    let c = l.chased(target);
    assert(c.speed_limit() == after);
}

/// The limit does not shrink when later frames become known.
proof fn lemma_limit_grows(p: FieldPanner, lookahead: bool)
    requires
        in_range(p.config),
        !p.max_velocity.parts().neg,
        limit_in_reach(p),
        limit_in_reach(p.begun(lookahead)),
    ensures
        value(p.speed_limit()) <= value(p.begun(lookahead).speed_limit()),
{
    let q = p.begun(lookahead);
    if q.reactivity() != p.reactivity() {
        let one = F32 { bits: ONE };
        lemma_times_one(p.max_velocity);
        assert(p.speed_limit() == p.max_velocity);
        lemma_grown(p.max_velocity, q.reactivity());
        lemma_sizes_ordered(p.speed_limit(), q.speed_limit());
    }
}

/// A number times one is itself.
proof fn lemma_times_one(a: F32)
    requires
        !a.parts().neg,
        !a.times(F32 { bits: ONE }).nan(),
        a.times(F32 { bits: ONE }).finite(),
    ensures
        a.times(F32 { bits: ONE }) == a,
        a.finite(),
{
    reveal(F32::times);
    lemma2_to64();
    lemma2_to64_rest();
    lemma_pow2_pos(149);
    lemma_rung_in_binade(23, 126, 0x80_0000);
    lemma_pow2_adds(23, 126);
    let u = pow2(149) as int;
    assert(value(F32 { bits: ONE }) == u);
    if a.finite() && a.parts().key > 0 {
        let x = a.parts().size(Format::Single);
        law_rounding_keeps_order(Format::Single, x * u, u, a.parts().key as int);
    }
}

/// A new panner stands still.
pub proof fn law_new_panner_keeps_to_limit(fps: F32, config: FieldPannerConfig)
    requires
        limit_in_reach(new_panner(fps, config)),
    ensures
        keeps_to_limit(new_panner(fps, config)),
        in_range(new_panner(fps, config).config),
{
    law_sanitized_in_range(config);
    lemma_limit(new_panner(fps, config).speed_limit());
    lemma_rung_zero(23);
}

} // verus!
