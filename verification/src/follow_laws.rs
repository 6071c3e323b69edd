//! How the camera follows a target, in real numbers.
use crate::algebra::{lemma_nothing, lemma_spread_out, lemma_three};
use crate::field_panner::{eased, softened, FieldPanner, MILLIONTH};
use crate::miss_laws::{lemma_below_square, lemma_root_terms};
use crate::near_laws::{
    lemma_last_place, lemma_nigh_plus, lemma_nigh_times, lemma_notch, lemma_relative, nigh, notch,
};
use crate::panner_config::{ONE, ZERO};
use crate::radius_laws::{
    lemma_scaled, lemma_size_times, lemma_square, lemma_unscaled, lemma_unsquared,
};
use crate::real_laws::size;
use crate::real_single_laws::{
    lemma_minus, lemma_over, lemma_plus, lemma_root, lemma_speck, lemma_times, lemma_val,
    lemma_val_ordered, speck, ulp, val,
};
use crate::round_trip_laws::lemma_quotient;
use crate::rounding::{law_ratio_rounds, lemma_rung_in_binade, Format};
use crate::single::F32;
use crate::speed_laws::{magnitude, value};
use crate::value_laws::lemma_small_constants;
use vstd::arithmetic::power2::{
    lemma2_to64, lemma2_to64_rest, lemma_pow2_adds, lemma_pow2_pos, pow2,
};
use vstd::prelude::*;

verus! {

/// Two to the power -10.
pub open spec fn slack() -> real {
    1 as real / 0x400 as real
}

/// The greater of a real and nothing.
pub open spec fn or_nothing(x: real) -> real {
    if x < 0 as real {
        0 as real
    } else {
        x
    }
}

/// A real cut to a bound on both sides.
pub open spec fn cut(x: real, bound: real) -> real {
    if x < -bound {
        -bound
    } else if x > bound {
        bound
    } else {
        x
    }
}

/// A number between zero and one.
pub open spec fn fraction(a: F32) -> bool {
    a.finite() && 0 as real <= val(a) <= 1 as real
}

/// Easing takes a number the given fraction of the way to its goal.
pub proof fn law_eased_part_of_the_way(x: F32, g: F32, alpha: F32)
    requires
        x.finite(),
        g.finite(),
        size(val(x)) <= 8 as real,
        size(val(g)) <= 8 as real,
        fraction(alpha),
    ensures
        nigh(eased(x, g, alpha), val(x) + val(alpha) * (val(g) - val(x)), 3 as real * notch()),
{
    let (a, b, c) = (val(x), val(g), val(alpha));
    lemma_minus(g, x);
    lemma_notch(val(g.minus(x)), b - a);
    let d = g.minus(x);
    lemma_nothing(notch());
    lemma_nigh_times(
        alpha,
        c,
        0 as real,
        d,
        b - a,
        notch(),
        1 as real,
        17 as real,
    );
    lemma_nothing(17 as real);
    lemma_size_times(c, b - a);
    lemma_scaled(c, 1 as real, size(b - a));
    lemma_nothing(size(b - a));
    lemma_nigh_plus(x, a, 0 as real, alpha.times(d), c * (b - a), 2 as real * notch());
}

/// A square is not negative, nor is a sum of two.
pub proof fn lemma_squares(a: F32, b: F32)
    requires
        a.finite(),
        b.finite(),
        size(val(a)) <= 4 as real,
        size(val(b)) <= 4 as real,
    ensures
        ({
            let s = a.times(a).plus(b.times(b));
            &&& s.finite()
            &&& val(s) >= 0 as real
            &&& nigh(s, val(a) * val(a) + val(b) * val(b), 3 as real * notch())
            &&& val(a) * val(a) + val(b) * val(b) <= 32 as real
        }),
{
    let (x, y) = (val(a), val(b));
    lemma_square(x);
    lemma_square(y);
    lemma_scaled(size(x), 4 as real, size(x));
    lemma_scaled(size(y), 4 as real, size(y));
    lemma_times(a, a);
    lemma_times(b, b);
    let (p, q) = (a.times(a), b.times(b));
    lemma_notch(val(p), x * x);
    lemma_notch(val(q), y * y);
    lemma_nigh_plus(p, x * x, notch(), q, y * y, notch());
    assert(!p.parts().neg && !q.parts().neg) by {
        reveal(F32::times);
        lemma_pow2_pos(149);
        let (n, m) = (a.parts().size(Format::Single), b.parts().size(Format::Single));
        law_ratio_rounds(Format::Single, n * n, pow2(149) as int);
        law_ratio_rounds(Format::Single, m * m, pow2(149) as int);
    }
    lemma_val(p);
    lemma_val(q);
    let s = p.plus(q);
    assert(!s.parts().neg) by {
        reveal(F32::plus);
        law_ratio_rounds(Format::Single, magnitude(value(p) + value(q)), 1);
    }
    lemma_val(s);
}

/// The length of an error.
pub proof fn lemma_error_length(a: F32, b: F32)
    requires
        a.finite(),
        b.finite(),
        size(val(a)) <= 4 as real,
        size(val(b)) <= 4 as real,
    ensures
        ({
            let mag = a.times(a).plus(b.times(b)).root();
            let m = val(mag);
            &&& mag.finite()
            &&& 0 as real <= m <= 6 as real
            &&& size(m * m - (val(a) * val(a) + val(b) * val(b))) <= 8 as real * notch()
        }),
{
    lemma_speck();
    lemma_squares(a, b);
    let s = a.times(a).plus(b.times(b));
    lemma_root(s);
    let (m, w, k) = (val(s.root()), ulp(), speck());
    let q = m * m;
    lemma_root_terms(m, w, k);
    lemma_below_square(m);
    lemma_last_place(q);
    lemma_scaled(k, w, q);
    assert(q <= 36 as real);
    lemma_unsquared(m, 6 as real);
}

/// What is left of a length when a dead zone is taken off, as a share of it.
proof fn lemma_share_left(mag: F32, dz: F32)
    requires
        mag.finite(),
        (0 as real) < val(mag),
        val(mag) <= 6 as real,
        fraction(dz),
    ensures
        ({
            let left = mag.minus(dz).greater(F32 { bits: ZERO });
            let part = left.over(mag);
            let t = val(left) / val(mag);
            &&& left.finite()
            &&& size(val(left) - or_nothing(val(mag) - val(dz))) <= notch()
            &&& 0 as real <= t <= 3 as real
            &&& t * val(mag) == val(left)
            &&& nigh(part, t, notch())
        }),
{
    lemma_speck();
    let zero = F32 { bits: ZERO };
    let (m, z) = (val(mag), val(dz));
    lemma_val(zero);
    lemma_minus(mag, dz);
    let d = mag.minus(dz);
    lemma_notch(val(d), m - z);
    lemma_relative(val(d), m - z);
    lemma_last_place(size(m - z));
    lemma_val_ordered(d, zero);
    let left = d.greater(zero);
    let v = val(left);
    lemma_val(mag);
    assert(value(mag) >= 1);
    lemma_scaled(1 as real, value(mag) as real, speck());
    lemma_nothing(speck());
    assert(m >= speck());
    assert(0 as real <= v && v <= 3 as real * m);
    let t = v / m;
    lemma_quotient(v, m);
    lemma_nothing(m);
    lemma_unscaled(0 as real, t, m);
    lemma_unscaled(t, 3 as real, m);
    lemma_over(left, mag);
    lemma_notch(val(left.over(mag)), t);
}

/// `s` is to `err` as what the dead zone `dz` leaves of the length `m` is to it.
pub open spec fn left_of(s: real, err: real, m: real, dz: real) -> bool {
    size(s * m - err * or_nothing(m - dz)) <= slack()
}

/// An error with the dead zone taken off it, by the computed length.
proof fn lemma_taken_off(err: F32, ey: F32, ep: F32, dz: F32)
    requires
        ey.finite(),
        ep.finite(),
        size(val(ey)) <= 4 as real,
        size(val(ep)) <= 4 as real,
        err == ey || err == ep,
        fraction(dz),
    ensures
        softened(err, ey, ep, dz).finite(),
        size(val(softened(err, ey, ep, dz))) <= 13 as real,
        ({
            let m = val(ey.times(ey).plus(ep.times(ep)).root());
            size(val(softened(err, ey, ep, dz)) * m - val(err) * or_nothing(m - val(dz))) <= slack()
        }),
{
    let (zero, least) = (F32 { bits: ZERO }, F32 { bits: MILLIONTH });
    let mag = ey.times(ey).plus(ep.times(ep)).root();
    lemma_error_length(ey, ep);
    let (m, e, z) = (val(mag), val(err), val(dz));
    let s = softened(err, ey, ep, dz);
    lemma_val(zero);
    lemma_val_ordered(zero, dz);
    lemma_val_ordered(least, mag);
    lemma_millionth();
    let w = or_nothing(m - z);
    if zero.below(dz) && least.below(mag) {
        lemma_share_left(mag, dz);
        let left = mag.minus(dz).greater(zero);
        let part = left.over(mag);
        let t = val(left) / m;
        lemma_nothing(3 as real + notch());
        lemma_nigh_times(err, e, 0 as real, part, t, notch(), 4 as real, 4 as real);
        lemma_nothing(4 as real);
        lemma_size_times(e, t);
        lemma_scaled(size(e), 4 as real, t);
        // The product with the length.
        let d = val(s) - e * t;
        lemma_spread_out(val(s), e * t, m);
        lemma_three(e, t, m);
        lemma_size_times(d, m);
        lemma_scaled(size(d), 5 as real * notch(), m);
        lemma_scaled(m, 6 as real, 5 as real * notch());
        lemma_spread_out(val(left), w, e);
        lemma_size_times(e, val(left) - w);
        lemma_scaled(size(e), 4 as real, size(val(left) - w));
        assert(size(val(s) * m - e * w) <= slack());
    } else if !zero.below(dz) {
        assert(z == 0 as real);
        assert(w == m);
    } else {
        lemma_spread_out(m, w, e);
        lemma_size_times(e, m - w);
        lemma_scaled(size(e), 4 as real, size(m - w));
        assert(size(m - w) <= m);
    }
}

/// An error with the dead zone taken off it: what is left of it stands to it as
/// what is left of the length of the error on both axes stands to that length.
/// So nothing is left within the dead zone, and far outside it nearly all is.
pub proof fn law_dead_zone_is_taken_off(err: F32, ey: F32, ep: F32, dz: F32)
    requires
        ey.finite(),
        ep.finite(),
        size(val(ey)) <= 4 as real,
        size(val(ep)) <= 4 as real,
        err == ey || err == ep,
        fraction(dz),
    ensures
        softened(err, ey, ep, dz).finite(),
        size(val(softened(err, ey, ep, dz))) <= 13 as real,
        exists|m: real|
            {
                &&& m >= 0 as real
                &&& size(m * m - (val(ey) * val(ey) + val(ep) * val(ep))) <= slack()
                &&& #[trigger] left_of(val(softened(err, ey, ep, dz)), val(err), m, val(dz))
            },
{
    lemma_error_length(ey, ep);
    lemma_taken_off(err, ey, ep, dz);
    let m = val(ey.times(ey).plus(ep.times(ep)).root());
    assert(left_of(val(softened(err, ey, ep, dz)), val(err), m, val(dz)));
}

/// One millionth is a small number.
proof fn lemma_millionth()
    ensures
        (F32 { bits: MILLIONTH }).finite(),
        (0 as real) < val(F32 { bits: MILLIONTH }),
        val(F32 { bits: MILLIONTH }) * 0x8_0000 as real <= 1 as real,
{
    let (x, one) = (F32 { bits: MILLIONTH }, F32 { bits: ONE });
    lemma_small_constants();
    lemma_val(x);
    let c = F32 { bits: 0x3600_0000 };
    lemma_val_ordered(x, c);
    lemma_binade(c);
}

/// Two to the power -19.
proof fn lemma_binade(c: F32)
    requires
        c.bits == 0x3600_0000,
    ensures
        c.finite(),
        val(c) * 0x8_0000 as real == 1 as real,
{
    lemma_speck();
    lemma2_to64();
    lemma2_to64_rest();
    lemma_rung_in_binade(23, 107, 0x80_0000);
    lemma_pow2_adds(23, 107);
    lemma_pow2_adds(19, 130);
    lemma_val(c);
    let (u, h) = (pow2(149) as real, pow2(130) as real);
    assert(value(c) == pow2(130));
    assert(u == 0x8_0000 as real * h);
    lemma_three(val(c), 0x8_0000 as real, h);
    lemma_nothing(h);
    lemma_pow2_pos(130);
    lemma_unscaled(val(c) * 0x8_0000 as real, 1 as real, h);
    lemma_unscaled(1 as real, val(c) * 0x8_0000 as real, h);
}

/// A panner of ordinary state and parameters, and a target in its reach.
pub open spec fn ordinary_chase(p: FieldPanner, t: (F32, F32)) -> bool {
    &&& p.yaw.finite() && p.pitch.finite() && t.0.finite() && t.1.finite()
    &&& size(val(p.yaw)) <= 1 as real && size(val(p.pitch)) <= 1 as real
    &&& size(val(t.0)) <= 2 as real && size(val(t.1)) <= 2 as real
    &&& p.velocity_yaw.finite() && p.velocity_pitch.finite()
    &&& size(val(p.velocity_yaw)) <= 4 as real && size(val(p.velocity_pitch)) <= 4 as real
    &&& fraction(p.max_velocity) && fraction(p.config.velocity_alpha)
    &&& fraction(p.config.dead_zone_rad)
    &&& p.config.lookahead_reactivity.finite()
    &&& size(val(p.config.lookahead_reactivity)) <= 4 as real
}

/// How many times faster the camera turns once it has known later frames.
pub open spec fn quickening(p: FieldPanner) -> real {
    if p.lookahead_active && val(p.config.lookahead_reactivity) > 1 as real {
        val(p.config.lookahead_reactivity)
    } else {
        1 as real
    }
}

/// The share of the way to the wanted speed that is taken in a frame.
pub open spec fn pace(p: FieldPanner) -> real {
    let quick = val(p.config.velocity_alpha) * quickening(p);
    if quick > 1 as real {
        1 as real
    } else {
        quick
    }
}

/// The top speed.
pub open spec fn top_speed(p: FieldPanner) -> real {
    val(p.max_velocity) * quickening(p)
}

/// The wanted speed `s` on an axis is the error without the dead zone, where
/// `m` is the length of the whole error; and the speed moved from `v` to `v2`,
/// the share `a` of the way to the wanted speed cut to the top speed `l`.
pub open spec fn follows(
    err: real,
    m: real,
    s: real,
    dz: real,
    v: real,
    v2: real,
    a: real,
    l: real,
) -> bool {
    &&& size(s * m - err * or_nothing(m - dz)) <= 2 as real * slack()
    &&& size(v2 - (v + a * (cut(s, l) - v))) <= slack()
}

/// A speed eased towards a wanted one that is cut to a limit.
proof fn lemma_speed(v: F32, s: F32, limit: F32, alpha: F32, a: real, l: real)
    requires
        v.finite(),
        s.finite(),
        limit.finite(),
        size(val(v)) <= 4 as real,
        0 as real <= val(limit) <= 5 as real,
        fraction(alpha),
        size(val(alpha) - a) <= notch(),
        size(val(limit) - l) <= notch(),
        0 as real <= a <= 1 as real,
        0 as real <= l,
    ensures
        ({
            let n = eased(v, s.clamped(limit.negated(), limit), alpha);
            n.finite() && size(val(n) - (val(v) + a * (cut(val(s), l) - val(v)))) <= slack()
        }),
{
    let low = limit.negated();
    lemma_val(limit);
    assert(low.finite());
    lemma_val_ordered(s, low);
    lemma_val_ordered(limit, s);
    let g = s.clamped(low, limit);
    let (c, k, x) = (val(g), cut(val(s), l), val(v));
    assert(c == cut(val(s), val(limit)));
    assert(size(c - k) <= notch());
    law_eased_part_of_the_way(v, g, alpha);
    let b = val(alpha);
    lemma_spread_out(b, a, c - x);
    lemma_spread_out(c - x, k - x, a);
    lemma_size_times(b - a, c - x);
    lemma_size_times(a, (c - x) - (k - x));
    lemma_scaled(size(b - a), notch(), size(c - x));
    lemma_scaled(size(c - x), 10 as real, notch());
    lemma_scaled(a, 1 as real, size(c - k));
    lemma_nothing(size(c - k));
}

/// What changes when an error is moved by rounding.
proof fn lemma_moved_error(e: real, x: real, m: real, z: real, s: real)
    requires
        size(e - x) <= notch(),
        0 as real <= m <= 7 as real,
        0 as real <= z,
        size(s * m - e * or_nothing(m - z)) <= slack(),
    ensures
        size(s * m - x * or_nothing(m - z)) <= 2 as real * slack(),
{
    let w = or_nothing(m - z);
    lemma_spread_out(e, x, w);
    lemma_size_times(e - x, w);
    lemma_scaled(size(e - x), notch(), w);
    lemma_scaled(w, 7 as real, notch());
}

/// A square of what is moved by rounding.
proof fn lemma_moved_square(e: real, x: real)
    requires
        size(e - x) <= notch(),
        size(e) <= 4 as real,
    ensures
        size(e * e - x * x) <= 10 as real * notch(),
{
    lemma_spread_out(e, x, e);
    lemma_spread_out(e, x, x);
    assert(e * e - x * x == (e - x) * e + x * (e - x));
    lemma_size_times(e - x, e);
    lemma_size_times(x, e - x);
    lemma_scaled(size(e - x), notch(), size(e));
    lemma_scaled(size(e), 4 as real, notch());
    lemma_scaled(size(e - x), notch(), size(x));
    lemma_scaled(size(x), 5 as real, notch());
}

/// The camera turns towards its target: on each axis its speed moves towards the
/// error without the dead zone, cut to the top speed, and the camera moves on by
/// its speed. Once later frames have been known it is that much quicker.
pub proof fn law_camera_turns_towards_target(p: FieldPanner, t: (F32, F32))
    requires
        ordinary_chase(p, t),
    ensures
        ({
            let n = p.chased(Some(t));
            let (ey, ep) = (val(t.0) - val(p.yaw), val(t.1) - val(p.pitch));
            let dz = val(p.config.dead_zone_rad);
            &&& n.yaw.finite() && n.pitch.finite()
            &&& n.velocity_yaw.finite() && n.velocity_pitch.finite()
            &&& size(val(n.yaw) - (val(p.yaw) + val(n.velocity_yaw))) <= notch()
            &&& size(val(n.pitch) - (val(p.pitch) + val(n.velocity_pitch))) <= notch()
            &&& exists|m: real, sy: real, sp: real|
                {
                    &&& m >= 0 as real
                    &&& size(m * m - (ey * ey + ep * ep)) <= 2 as real * slack()
                    &&& #[trigger] follows(
                        ey,
                        m,
                        sy,
                        dz,
                        val(p.velocity_yaw),
                        val(n.velocity_yaw),
                        pace(p),
                        top_speed(p),
                    )
                    &&& #[trigger] follows(
                        ep,
                        m,
                        sp,
                        dz,
                        val(p.velocity_pitch),
                        val(n.velocity_pitch),
                        pace(p),
                        top_speed(p),
                    )
                }
        }),
{
    let n = p.chased(Some(t));
    let one = F32 { bits: ONE };
    let (x, y) = (val(t.0) - val(p.yaw), val(t.1) - val(p.pitch));
    let (r, quick) = (p.reactivity(), val(p.config.velocity_alpha) * quickening(p));
    let (a, l) = (pace(p), top_speed(p));
    let dz = p.config.dead_zone_rad;
    lemma_small_constants();
    lemma_val_ordered(p.config.lookahead_reactivity, one);
    assert(val(r) == quickening(p));
    lemma_scaled(val(p.config.velocity_alpha), 1 as real, val(r));
    lemma_scaled(0 as real, val(p.config.velocity_alpha), val(r));
    lemma_scaled(val(p.max_velocity), 1 as real, val(r));
    lemma_scaled(0 as real, val(p.max_velocity), val(r));
    lemma_nothing(val(r));
    lemma_times(p.config.velocity_alpha, r);
    lemma_times(p.max_velocity, r);
    let share = p.config.velocity_alpha.times(r);
    let limit = p.speed_limit();
    lemma_notch(val(share), quick);
    lemma_notch(val(limit), l);
    lemma_not_negative(p.max_velocity, r);
    lemma_not_negative(p.config.velocity_alpha, r);
    lemma_val(limit);
    lemma_val(share);
    lemma_val_ordered(one, share);
    let alpha = share.lesser(one);
    lemma_minus(t.0, p.yaw);
    lemma_minus(t.1, p.pitch);
    let (ey, ep) = (t.0.minus(p.yaw), t.1.minus(p.pitch));
    lemma_notch(val(ey), x);
    lemma_notch(val(ep), y);
    let (sy, sp) = (softened(ey, ey, ep, dz), softened(ep, ey, ep, dz));
    let m = lemma_wanted(ey, ep, dz);
    lemma_moved_error(val(ey), x, m, val(dz), val(sy));
    lemma_moved_error(val(ep), y, m, val(dz), val(sp));
    lemma_moved_square(val(ey), x);
    lemma_moved_square(val(ep), y);
    lemma_speed(p.velocity_yaw, sy, limit, alpha, a, l);
    lemma_speed(p.velocity_pitch, sp, limit, alpha, a, l);
    assert(follows(x, m, val(sy), val(dz), val(p.velocity_yaw), val(n.velocity_yaw), a, l));
    assert(follows(y, m, val(sp), val(dz), val(p.velocity_pitch), val(n.velocity_pitch), a, l));
    lemma_moved_on(p.yaw, p.velocity_yaw, n.velocity_yaw, val(sy), a, l);
    lemma_moved_on(p.pitch, p.velocity_pitch, n.velocity_pitch, val(sp), a, l);
}

/// A place moved on by a speed.
proof fn lemma_moved_on(at: F32, v: F32, v2: F32, s: real, a: real, l: real)
    requires
        at.finite(),
        v2.finite(),
        size(val(at)) <= 1 as real,
        size(val(v)) <= 4 as real,
        0 as real <= a <= 1 as real,
        0 as real <= l <= 4 as real,
        size(val(v2) - (val(v) + a * (cut(s, l) - val(v)))) <= slack(),
    ensures
        at.plus(v2).finite(),
        size(val(at.plus(v2)) - (val(at) + val(v2))) <= notch(),
{
    let d = cut(s, l) - val(v);
    lemma_size_times(a, d);
    lemma_scaled(a, 1 as real, size(d));
    lemma_nothing(size(d));
    lemma_plus(at, v2);
    lemma_notch(val(at.plus(v2)), val(at) + val(v2));
}

/// A product of numbers without a sign has none.
pub proof fn lemma_not_negative(a: F32, b: F32)
    requires
        a.finite(),
        b.finite(),
        val(a) >= 0 as real,
        val(b) > 0 as real,
        a.times(b).finite(),
    ensures
        !a.times(b).parts().neg || a.times(b).parts().key == 0,
{
    reveal(F32::times);
    lemma_val(a);
    lemma_val(b);
    lemma_pow2_pos(149);
    let (n, m) = (a.parts().size(Format::Single), b.parts().size(Format::Single));
    law_ratio_rounds(Format::Single, n * m, pow2(149) as int);
}

/// The two wanted speeds rest on one length.
proof fn lemma_wanted(ey: F32, ep: F32, dz: F32) -> (m: real)
    requires
        ey.finite(),
        ep.finite(),
        size(val(ey)) <= 4 as real,
        size(val(ep)) <= 4 as real,
        fraction(dz),
    ensures
        0 as real <= m <= 6 as real,
        size(m * m - (val(ey) * val(ey) + val(ep) * val(ep))) <= slack(),
        softened(ey, ey, ep, dz).finite(),
        softened(ep, ey, ep, dz).finite(),
        size(val(softened(ey, ey, ep, dz)) * m - val(ey) * or_nothing(m - val(dz))) <= slack(),
        size(val(softened(ep, ey, ep, dz)) * m - val(ep) * or_nothing(m - val(dz))) <= slack(),
{
    lemma_error_length(ey, ep);
    lemma_taken_off(ey, ey, ep, dz);
    lemma_taken_off(ep, ey, ep, dz);
    val(ey.times(ey).plus(ep.times(ep)).root())
}

} // verus!
