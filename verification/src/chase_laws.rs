//! That one step of the chase of a target of ordinary size leads to a pose and a
//! speed of ordinary size.
use crate::cluster_laws::lemma_plus_zero;
use crate::field_panner::{eased, softened, FieldPanner, MILLIONTH};
use crate::panner_config::{in_range, ONE, ZERO};
use crate::rounding::{
    law_ratio_rounds, law_root_rounds, law_rounding_keeps_order, lemma_rung_ascends,
    lemma_rung_step, lemma_rung_zero, root_side, rounded_root, rung, Format,
};
use crate::single::F32;
use crate::size_laws::{
    lemma_eased_within, lemma_one, lemma_part_side, lemma_power_rung, lemma_product_within,
    lemma_stuck, lemma_sum_within, lemma_within_value, power_key, share_of_one, within,
};
use crate::speed_laws::{
    errors_are_numbers, lemma_clamped_small, lemma_fraction, limit_in_reach, magnitude, value,
};
use crate::view_laws::law_sum_keeps_order;
use vstd::arithmetic::power2::{lemma2_to64, lemma_pow2_adds, lemma_pow2_pos, pow2};
use vstd::prelude::*;

verus! {

/// A larger bound holds too.
pub proof fn lemma_wider(x: F32, e: int, f: int)
    requires
        within(x, e),
        e <= f,
    ensures
        within(x, f),
{
}

/// Factors can be swapped.
pub proof fn lemma_times_commutes(a: F32, b: F32)
    ensures
        a.times(b) == b.times(a),
{
    reveal(F32::times);
    let (x, y) = (a.parts().size(Format::Single), b.parts().size(Format::Single));
    assert(x * y == y * x) by (nonlinear_arith);
}

/// The square root of an ordinary number is finite.
proof fn lemma_root_finite(x: F32)
    requires
        x.finite(),
        !x.parts().neg,
        within(x, 112),
    ensures
        x.root().finite(),
        !x.root().parts().neg,
{
    reveal(F32::root);
    if x.parts().key > 0 {
        lemma_within_value(x, 112);
        lemma_power_rung(127);
        lemma_pow2_adds(261, 149);
        lemma_pow2_adds(276, 276);
        lemma_pow2_adds(412, 140);
        lemma_pow2_adds(2, 410);
        lemma2_to64();
        lemma_pow2_pos(149);
        lemma_pow2_pos(276);
        lemma_pow2_pos(412);
        lemma_pow2_pos(140);
        let size = x.parts().size(Format::Single);
        let n = size * pow2(149) as int;
        assert(n <= pow2(261) * pow2(149)) by (nonlinear_arith)
            requires
                n == size * pow2(149),
                size <= pow2(261),
                pow2(149) > 0,
        ;
        law_root_rounds(Format::Single, n);
        let k = rounded_root(Format::Single, n);
        if k == Format::Single.infinity() {
            let w = rung(23, k - 1) + rung(23, k);
            lemma_rung_ascends(23, power_key(127), k);
            lemma_rung_step(23, k - 1);
            let p = pow2(276) as int;
            assert(w * w > p * p) by (nonlinear_arith)
                requires
                    w > p,
                    p > 0,
            ;
            assert(pow2(552) >= 4 * n) by (nonlinear_arith)
                requires
                    pow2(552) == pow2(412) * pow2(140),
                    pow2(412) == 4 * pow2(410),
                    n <= pow2(410),
                    pow2(140) >= 1,
                    pow2(412) > 0,
            ;
            assert(root_side(n)(w) < 0);
        }
    }
}

/// The length of an error of ordinary size.
proof fn lemma_length(a: F32, b: F32)
    requires
        a.finite(),
        b.finite(),
        within(a, 55),
        within(b, 55),
    ensures
        ({
            let mag = a.times(a).plus(b.times(b)).root();
            mag.finite() && !mag.parts().neg
        }),
{
    lemma_product_within(a, a, 55, 55);
    lemma_product_within(b, b, 55, 55);
    let (x, y) = (a.times(a), b.times(b));
    lemma_sum_within(x, y, 110);
    assert(!x.parts().neg && !y.parts().neg) by {
        reveal(F32::times);
        let (n, m) = (a.parts().size(Format::Single), b.parts().size(Format::Single));
        lemma_pow2_pos(149);
        law_ratio_rounds(Format::Single, n * n, pow2(149) as int);
        law_ratio_rounds(Format::Single, m * m, pow2(149) as int);
    }
    let s = x.plus(y);
    lemma_within_value(x, 110);
    lemma_within_value(y, 110);
    assert(!s.parts().neg) by {
        reveal(F32::plus);
        law_ratio_rounds(Format::Single, magnitude(value(x) + value(y)), 1);
    }
    lemma_root_finite(s);
}

/// What is left of a length once the dead zone is taken off, as a share of it.
proof fn lemma_softening(mag: F32, dz: F32)
    requires
        mag.finite(),
        !mag.parts().neg,
        mag.parts().key > 0,
        (F32 { bits: ZERO }).at_most(dz),
    ensures
        share_of_one(mag.minus(dz).greater(F32 { bits: ZERO }).over(mag)),
{
    let zero = F32 { bits: ZERO };
    let less = mag.minus(dz);
    lemma_pow2_pos(149);
    lemma_rung_zero(23);
    lemma_one();
    if dz.finite() {
        lemma_plus_zero(mag);
        law_sum_keeps_order(mag, mag, dz.negated(), zero);
    } else {
        reveal(F32::plus);
    }
    let rest = less.greater(zero);
    assert(!rest.nan() && 0 <= rest.place() <= mag.place());
    let (k, j) = (mag.parts().key as int, rest.parts().key as int);
    reveal(F32::over);
    lemma_rung_ascends(23, 0, k);
    if j > 0 {
        lemma_rung_ascends(23, 0, j);
        if j < k {
            lemma_rung_ascends(23, j, k);
        }
        let u = pow2(149) as int;
        let (x, y) = (rung(23, j), rung(23, k));
        assert(0 <= x * u <= u * y) by (nonlinear_arith)
            requires
                0 <= x <= y,
                u > 0,
        ;
        law_ratio_rounds(Format::Single, x * u, y);
        law_rounding_keeps_order(Format::Single, x * u, y, ONE as int);
        let r = rest.over(mag);
        lemma_within_value(r, 0);
    }
}

/// An error of ordinary size stays so, on its side, when the dead zone is taken
/// off it.
pub proof fn lemma_softened(err: F32, ey: F32, ep: F32, dz: F32)
    requires
        err.finite(),
        within(err, 55),
        ey.finite(),
        ep.finite(),
        within(ey, 55),
        within(ep, 55),
        (F32 { bits: ZERO }).at_most(dz),
    ensures
        ({
            let s = softened(err, ey, ep, dz);
            &&& s.finite()
            &&& value(err) == 0 ==> value(s) == 0
        }),
{
    lemma_length(ey, ep);
    let mag = ey.times(ey).plus(ep.times(ep)).root();
    if (F32 { bits: ZERO }).below(dz) && (F32 { bits: MILLIONTH }).below(mag) {
        lemma_softening(mag, dz);
        let part = mag.minus(dz).greater(F32 { bits: ZERO }).over(mag);
        lemma_times_commutes(err, part);
        lemma_part_side(part, err);
    }
}

/// The state of a chase is of ordinary size.
pub open spec fn steady(p: FieldPanner) -> bool {
    &&& in_range(p.config)
    &&& p.max_velocity.finite()
    &&& !p.max_velocity.parts().neg
    &&& within(p.max_velocity, 20)
    &&& p.yaw.finite() && within(p.yaw, 51)
    &&& p.pitch.finite() && within(p.pitch, 51)
    &&& p.velocity_yaw.finite() && within(p.velocity_yaw, 26)
    &&& p.velocity_pitch.finite() && within(p.velocity_pitch, 26)
}

/// The speed limit of a steady panner.
pub proof fn lemma_limit_ordinary(p: FieldPanner)
    requires
        in_range(p.config),
        p.max_velocity.finite(),
        !p.max_velocity.parts().neg,
        within(p.max_velocity, 20),
    ensures
        limit_in_reach(p),
        within(p.speed_limit(), 24),
        p.speed_limit().finite(),
{
    let r = p.reactivity();
    assert(r.finite() && within(r, 4) && !r.parts().neg);
    lemma_product_within(p.max_velocity, r, 20, 4);
    reveal(F32::times);
    lemma_pow2_pos(149);
    let (x, y) = (p.max_velocity.parts().size(Format::Single), r.parts().size(Format::Single));
    law_ratio_rounds(Format::Single, x * y, pow2(149) as int);
}

/// One axis of the chase.
proof fn lemma_axis(at: F32, speed: F32, wanted: F32, alpha: F32, limit: F32)
    requires
        at.finite(),
        within(at, 51),
        speed.finite(),
        within(speed, 26),
        wanted.finite(),
        !limit.nan(),
        limit.finite(),
        0 <= limit.place() <= power_key(24),
        share_of_one(alpha),
    ensures
        ({
            let v = eased(speed, wanted.clamped(limit.negated(), limit), alpha);
            &&& v.finite() && within(v, 26)
            &&& at.plus(v).finite() && within(at.plus(v), 51)
        }),
{
    lemma_clamped_small(wanted, limit);
    let g = wanted.clamped(limit.negated(), limit);
    assert(limit.negated().place() == -limit.place());
    assert(within(g, 24));
    lemma_wider(g, 24, 25);
    lemma_eased_within(speed, g, alpha, 26);
    let v = eased(speed, g, alpha);
    lemma_stuck(at, v, 51);
}

/// Chasing a target of ordinary size, or one that is not finite, keeps the chase
/// steady; and the errors that are made up for are numbers.
pub proof fn lemma_chase_steady(p: FieldPanner, target: (F32, F32))
    requires
        steady(p),
        within(target.0, 54),
        within(target.1, 54),
    ensures
        steady(p.chased(Some(target))),
        target.0.finite() && target.1.finite() ==> errors_are_numbers(p, target),
{
    if target.0.finite() && target.1.finite() {
        lemma_wider(p.yaw, 51, 54);
        lemma_wider(p.pitch, 51, 54);
        lemma_sum_within(target.0, p.yaw, 54);
        lemma_sum_within(target.1, p.pitch, 54);
        let ey = target.0.minus(p.yaw);
        let ep = target.1.minus(p.pitch);
        let dz = p.config.dead_zone_rad;
        lemma_softened(ey, ey, ep, dz);
        lemma_softened(ep, ey, ep, dz);
        lemma_limit_ordinary(p);
        lemma_fraction(p);
        let limit = p.speed_limit();
        let alpha = p.config.velocity_alpha.times(p.reactivity()).lesser(F32 { bits: ONE });
        lemma_axis(p.yaw, p.velocity_yaw, softened(ey, ey, ep, dz), alpha, limit);
        lemma_axis(p.pitch, p.velocity_pitch, softened(ep, ey, ep, dz), alpha, limit);
    }
}

/// A chase at rest on an axis stays at rest, if its target is there.
pub proof fn lemma_rest(p: FieldPanner, target: (F32, F32))
    requires
        steady(p),
        within(target.0, 54),
        target.1.finite(),
        value(target.1) == 0,
        value(p.pitch) == 0,
        value(p.velocity_pitch) == 0,
    ensures
        value(p.chased(Some(target)).pitch) == 0,
        value(p.chased(Some(target)).velocity_pitch) == 0,
{
    if target.0.finite() {
        lemma_within_value(target.1, 54);
        lemma_pow2_pos(203);
        lemma_wider(p.yaw, 51, 54);
        lemma_sum_within(target.0, p.yaw, 54);
        let ey = target.0.minus(p.yaw);
        let ep = target.1.minus(p.pitch);
        lemma_zero_sum(target.1, p.pitch.negated());
        assert(value(p.pitch.negated()) == -value(p.pitch));
        lemma_within_value(ep, 55);
        lemma_pow2_pos(204);
        let dz = p.config.dead_zone_rad;
        lemma_softened(ep, ey, ep, dz);
        let s = softened(ep, ey, ep, dz);
        lemma_limit_ordinary(p);
        lemma_fraction(p);
        let limit = p.speed_limit();
        let alpha = p.config.velocity_alpha.times(p.reactivity()).lesser(F32 { bits: ONE });
        lemma_clamped_small(s, limit);
        let g = s.clamped(limit.negated(), limit);
        lemma_within_value(s, 0);
        lemma_within_value(limit, 24);
        lemma_rung_zero(23);
        assert(s.parts().key == 0);
        assert(limit.negated().place() == -limit.place());
        assert(g.parts().key == 0);
        let v = p.velocity_pitch;
        assert(value(v.negated()) == -value(v));
        lemma_zero_sum(g, v.negated());
        let d = g.minus(v);
        lemma_pow2_pos(275);
        lemma_within_value(d, 126);
        lemma_part_side(alpha, d);
        let m = alpha.times(d);
        lemma_zero_sum(v, m);
        lemma_zero_sum(p.pitch, v.plus(m));
    }
}

/// A sum of nothing is nothing.
proof fn lemma_zero_sum(a: F32, b: F32)
    requires
        a.finite(),
        b.finite(),
        value(a) == 0,
        value(b) == 0,
    ensures
        a.plus(b).finite(),
        value(a.plus(b)) == 0,
{
    reveal(F32::plus);
    lemma_rung_zero(23);
}

} // verus!
