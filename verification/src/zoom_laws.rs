//! How wide the camera looks.
use crate::algebra::{lemma_nothing, lemma_spread_out, lemma_three};
use crate::cluster::distance_sq;
use crate::cluster_laws::lemma_plus_zero;
use crate::field_panner::{eased, Cluster, FieldPanner, FIVE, TWO};
use crate::follow_laws::{fraction, lemma_not_negative};
use crate::near_laws::{lemma_last_place, lemma_notch, lemma_relative, notch};
use crate::panner_config::{FramingMode, HUNDREDTH, ONE, ZERO};
use crate::radius_laws::{lemma_scaled, lemma_size_times, lemma_unscaled};
use crate::real_laws::size;
use crate::real_single_laws::{
    lemma_minus, lemma_over, lemma_plus, lemma_speck, lemma_times, lemma_val, lemma_val_ordered,
    rounds, val,
};
use crate::rounding::{
    law_ratio_rounds, law_rounding_keeps_order, lemma_rung_in_binade, lemma_rung_zero, Format,
};
use crate::single::F32;
use crate::speed_laws::value;
use crate::value_laws::lemma_small_constants;
use crate::view_laws::law_sum_keeps_order;
use vstd::arithmetic::power2::{
    lemma2_to64, lemma2_to64_rest, lemma_pow2_adds, lemma_pow2_pos, pow2,
};
use vstd::prelude::*;

verus! {

/// An angle of view, in degrees.
pub open spec fn usual_view(x: F32) -> bool {
    x.finite() && size(val(x)) <= 512 as real
}

/// The angle of view moves the given fraction of the way to the one that the
/// group asks for.
pub proof fn law_zoom_eases(x: F32, g: F32, alpha: F32)
    requires
        usual_view(x) && usual_view(g),
        fraction(alpha),
    ensures
        eased(x, g, alpha).finite(),
        0x400 as real * size(
            val(eased(x, g, alpha)) - (val(x) + val(alpha) * (val(g) - val(x))),
        ) <= 1 as real,
{
    let (a, b, c) = (val(x), val(g), val(alpha));
    lemma_minus(g, x);
    let d = g.minus(x);
    lemma_rounded_view(val(d), b - a);
    let w = val(d);
    lemma_size_times(c, w);
    lemma_scaled(c, 1 as real, size(w));
    lemma_nothing(size(w));
    lemma_times(alpha, d);
    let m = alpha.times(d);
    lemma_rounded_view(val(m), c * w);
    let e = w - (b - a);
    lemma_spread_out(w, b - a, c);
    lemma_size_times(c, e);
    lemma_scaled(c, 1 as real, size(e));
    lemma_nothing(size(e));
    assert(size(c * w - c * (b - a)) <= 1 as real / 0x1000 as real);
    lemma_plus(x, m);
    lemma_rounded_view(val(x.plus(m)), a + val(m));
}

/// What is lost when an angle of view is rounded.
proof fn lemma_rounded_view(r: real, exact: real)
    requires
        rounds(r, exact),
        size(exact) <= 2000 as real,
    ensures
        size(r - exact) <= 1 as real / 0x1000 as real,
{
    lemma_speck();
    lemma_relative(r, exact);
    lemma_last_place(size(exact));
}

/// With a group in the frame the angle of view eases to what the group asks for,
/// and without one it stays.
pub proof fn law_zoom_follows_the_group(p: FieldPanner, c: Cluster, near: bool, a: (F32, F32, F32))
    requires
        usual_view(p.current_fov) && usual_view(p.cluster_fov(c)),
        fraction(p.config.fov_alpha),
    ensures
        ({
            let n = p.zoomed(Some(c), near, Some(a));
            let (x, g) = (val(p.current_fov), val(p.cluster_fov(c)));
            &&& n.current_fov.finite()
            &&& 0x400 as real * size(
                val(n.current_fov) - (x + val(p.config.fov_alpha) * (g - x)),
            ) <= 1 as real
            &&& n.yaw == p.yaw && n.pitch == p.pitch && n.velocity_yaw == p.velocity_yaw
            &&& n.velocity_pitch == p.velocity_pitch
            &&& n.last_debug is Some
            &&& n.last_debug->0.cluster_spread == c.spread && n.last_debug->0.ball_near_cluster
                == near
            &&& n.last_debug->0.target_yaw == a.0 && n.last_debug->0.target_pitch == a.1
            &&& n.last_debug->0.fov_target == p.cluster_fov(c)
        }),
        p.zoomed(None, near, None).current_fov == p.current_fov,
        p.zoomed(None, near, None).last_debug is None,
{
    law_zoom_eases(p.current_fov, p.cluster_fov(c), p.config.fov_alpha);
}

/// Adding what is not negative makes nothing smaller.
proof fn lemma_grows(x: F32, y: F32)
    requires
        !x.nan(),
        y.finite(),
        y.place() >= 0,
    ensures
        x.at_most(x.plus(y)),
{
    let zero = F32 { bits: ZERO };
    lemma_plus_zero(x);
    law_sum_keeps_order(x, x, zero, y);
}

/// A number that is not negative.
pub open spec fn not_below_zero(x: F32) -> bool {
    x.finite() && x.place() >= 0
}

/// A share of a bound is not negative.
proof fn lemma_share(s: F32, bound: F32)
    requires
        not_below_zero(s) && not_below_zero(bound),
        s.at_most(F32 { bits: ONE }),
        size(val(bound)) <= 512 as real,
    ensures
        not_below_zero(s.times(bound)),
{
    lemma_small_constants();
    let one = F32 { bits: ONE };
    lemma_val_ordered(s, one);
    lemma_val(s);
    lemma_val(bound);
    lemma_size_times(val(s), val(bound));
    lemma_scaled(size(val(s)), 1 as real, size(val(bound)));
    lemma_nothing(size(val(bound)));
    lemma_times(s, bound);
    lemma_product_place(s, bound);
}

/// A product of numbers that are not negative is not.
proof fn lemma_product_place(a: F32, b: F32)
    requires
        not_below_zero(a) && not_below_zero(b),
        a.times(b).finite(),
    ensures
        a.times(b).place() >= 0,
{
    lemma_val(a);
    lemma_val(b);
    if val(b) > 0 as real {
        lemma_not_negative(a, b);
    } else {
        reveal(F32::times);
        lemma_pow2_pos(149);
        lemma_rung_zero(23);
        let f = Format::Single;
        assert(b.parts().key == 0);
        let n = a.parts().size(f) * b.parts().size(f);
        assert(n == 0) by {
            assert(a.parts().size(f) * 0 == 0);
        }
        law_ratio_rounds(f, 0, pow2(149) as int);
        law_rounding_keeps_order(
            f,
            0,
            pow2(149) as int,
            0,
        );
    }
}

/// In the Action framing the view holds the group: unless the widest view cuts it
/// short, it is at least twice the spread, and at least twice the way to the ball
/// with its margin while the ball is present; and it is never tighter than the
/// tightest view.
pub proof fn law_view_holds_the_group(p: FieldPanner, spread: F32, pitch: F32, speed: F32)
    requires
        p.config.framing == FramingMode::Action,
        p.wf(),
        !spread.nan() && !(F32 { bits: TWO }).times(spread.degrees()).nan(),
        not_below_zero(p.config.distance_bias_max) && not_below_zero(p.config.edge_bias_max),
        not_below_zero(p.config.velocity_fov_bias_max),
        size(val(p.config.distance_bias_max)) <= 512 as real,
        size(val(p.config.velocity_fov_bias_max)) <= 512 as real,
        ({
            let far = pitch.minus(p.config.pitch_near).over(
                p.config.pitch_far.minus(p.config.pitch_near),
            );
            !far.nan() && !speed.over(p.max_velocity).nan()
        }),
        p.yaw.finite() && p.yaw.magnitude().times(F32 { bits: FIVE }).place() >= 0,
        !p.yaw.magnitude().times(F32 { bits: FIVE }).nan(),
    ensures
        ({
            let fov = p.wanted_fov(spread, pitch, speed);
            let two = F32 { bits: TWO };
            let whole = two.times(spread.degrees());
            let off = distance_sq(
                (p.last_ball_yaw, p.last_ball_pitch, F32 { bits: ZERO }),
                p.yaw,
                p.pitch,
            ).root().degrees();
            let ball = off.plus(p.config.ball_frame_margin_deg).times(two);
            &&& p.config.fov_tight.at_most(fov) && fov.at_most(p.config.fov_wide)
            &&& whole.at_most(fov) || fov == p.config.fov_wide
            &&& (F32 { bits: HUNDREDTH }).below(p.ball_presence) && !ball.nan() ==> ball.at_most(
                fov,
            ) || fov == p.config.fov_wide
        }),
{
    let c = p.config;
    let (zero, one, two) = (F32 { bits: ZERO }, F32 { bits: ONE }, F32 { bits: TWO });
    let from_spread = two.times(spread.degrees()).greater(c.fov_tight);
    let far = pitch.minus(c.pitch_near).over(c.pitch_far.minus(c.pitch_near)).clamped(zero, one);
    let edge = p.yaw.magnitude().times(F32 { bits: FIVE }).lesser(c.edge_bias_max);
    let fast = speed.over(p.max_velocity).clamped(zero, one);
    lemma_share(far, c.distance_bias_max);
    lemma_share(fast, c.velocity_fov_bias_max);
    let a = from_spread.plus(far.times(c.distance_bias_max));
    lemma_grows(from_spread, far.times(c.distance_bias_max));
    let b = a.plus(edge);
    lemma_grows(a, edge);
    lemma_grows(b, fast.times(c.velocity_fov_bias_max));
}

/// A real cut to zero to one.
pub open spec fn unit_cut(x: real) -> real {
    if x < 0 as real {
        0 as real
    } else if x > 1 as real {
        1 as real
    } else {
        x
    }
}

/// The lesser of two reals.
pub open spec fn less_of(x: real, y: real) -> real {
    if x < y {
        x
    } else {
        y
    }
}

/// The greater of two reals.
pub open spec fn more_of(x: real, y: real) -> real {
    if x > y {
        x
    } else {
        y
    }
}

/// Two to the power -6: what an angle of view may be off, in degrees.
pub open spec fn blur() -> real {
    1 as real / 0x40 as real
}

/// A number of degrees, and what is known of it.
pub open spec fn about(x: F32, y: real, e: real) -> bool {
    x.finite() && size(val(x) - y) <= e
}

/// Five, and the number of degrees in a radian.
proof fn lemma_constants()
    ensures
        (F32 { bits: FIVE }).finite(),
        val(F32 { bits: FIVE }) == 5 as real,
        (F32 { bits: 0x4265_2EE1 }).finite(),
        size(val(F32 { bits: 0x4265_2EE1 }) - 5729578 as real / 100000 as real)
            <= 1 as real / 0x1_0000 as real,
{
    lemma_speck();
    lemma2_to64();
    lemma2_to64_rest();
    let (a, b) = (F32 { bits: FIVE }, F32 { bits: 0x4265_2EE1 });
    lemma_rung_in_binade(23, 128, 0xA0_0000);
    lemma_rung_in_binade(23, 131, 0xE5_2EE1);
    lemma_pow2_adds(21, 128);
    lemma_pow2_adds(18, 131);
    lemma_pow2_pos(149);
    lemma_val(a);
    lemma_val(b);
    let (u, g, h) = (pow2(149) as real, pow2(128) as real, pow2(131) as real);
    assert(value(a) == 0xA0_0000 * pow2(128));
    assert(value(b) == 0xE5_2EE1 * pow2(131));
    assert(u == 0x20_0000 as real * g && u == 0x4_0000 as real * h);
    lemma_unscaled(5 as real, val(a), u);
    lemma_unscaled(val(a), 5 as real, u);
    lemma_three(0x4_0000 as real, val(b), h);
    lemma_three(val(b), 0x4_0000 as real, h);
    lemma_unscaled(0xE5_2EE1 as real, val(b) * 0x4_0000 as real, h);
    lemma_unscaled(val(b) * 0x4_0000 as real, 0xE5_2EE1 as real, h);
}

/// Twice a spread, in degrees.
proof fn lemma_spread_degrees(spread: F32)
    requires
        spread.finite(),
        size(val(spread)) <= 4 as real,
    ensures
        about(
            (F32 { bits: TWO }).times(spread.degrees()),
            2 as real * (val(spread) * (5729578 as real / 100000 as real)),
            blur() / 8 as real,
        ),
        size(2 as real * (val(spread) * (5729578 as real / 100000 as real))) <= 460 as real,
{
    lemma_constants();
    lemma_small_constants();
    let (c, two, s) = (F32 { bits: 0x4265_2EE1 }, F32 { bits: TWO }, val(spread));
    let k = 5729578 as real / 100000 as real;
    lemma_size_times(s, val(c));
    lemma_scaled(size(s), 4 as real, size(val(c)));
    lemma_times(spread, c);
    let d = spread.times(c);
    lemma_rounded_view(val(d), s * val(c));
    lemma_spread_out(val(c), k, s);
    lemma_size_times(s, val(c) - k);
    lemma_scaled(size(s), 4 as real, size(val(c) - k));
    lemma_times(two, d);
    lemma_rounded_view(val(two.times(d)), 2 as real * val(d));
    lemma_size_times(s, k);
    lemma_scaled(size(s), 4 as real, k);
}

/// How far a number lies between two others, cut to zero to one.
proof fn lemma_between(x: F32, y: F32)
    requires
        x.finite() && y.finite(),
        1 as real <= 64 as real * size(val(y)) && size(val(y)) <= 16 as real,
        size(val(x)) <= 3 as real * size(val(y)),
    ensures
        ({
            let t = x.over(y).clamped(F32 { bits: ZERO }, F32 { bits: ONE });
            &&& not_below_zero(t) && t.at_most(F32 { bits: ONE })
            &&& about(t, unit_cut(val(x) / val(y)), notch())
            &&& (val(x) / val(y)) * val(y) == val(x)
            &&& size(val(x) / val(y)) <= 3 as real
        }),
{
    let (zero, one) = (F32 { bits: ZERO }, F32 { bits: ONE });
    lemma_small_constants();
    lemma_val(zero);
    let (a, b) = (val(x), val(y));
    let q = a / b;
    assert(q * b == a) by (nonlinear_arith)
        requires
            q == a / b,
            b != 0 as real,
    ;
    lemma_size_times(q, b);
    lemma_unscaled(size(q), 3 as real, size(b));
    lemma_over(x, y);
    let t = x.over(y);
    lemma_notch(val(t), q);
    lemma_val_ordered(t, zero);
    lemma_val_ordered(one, t);
}

/// A share of a bound in degrees.
proof fn lemma_share_of_bound(s: F32, x: real, bound: F32)
    requires
        about(s, x, blur() / 0x800 as real),
        0 as real <= x <= 1 as real,
        bound.finite() && 0 as real <= val(bound) <= 64 as real,
    ensures
        about(s.times(bound), x * val(bound), blur() / 16 as real),
        0 as real <= x * val(bound) <= 64 as real,
{
    let (v, b, e) = (val(s), val(bound), blur() / 0x800 as real);
    lemma_spread_out(v, x, b);
    lemma_size_times(v - x, b);
    lemma_scaled(size(v - x), e, b);
    lemma_scaled(b, 64 as real, e);
    lemma_size_times(x, b);
    lemma_scaled(x, 1 as real, b);
    lemma_scaled(0 as real, x, b);
    lemma_nothing(b);
    lemma_times(s, bound);
    lemma_rounded_view(val(s.times(bound)), v * b);
}

/// A sum of degrees.
proof fn lemma_degrees_sum(a: F32, x: real, d: real, b: F32, y: real, e: real)
    requires
        about(a, x, d) && about(b, y, e),
        0 as real <= d <= 1 as real && 0 as real <= e <= 1 as real,
        size(x) <= 1200 as real && size(y) <= 512 as real,
    ensures
        about(a.plus(b), x + y, d + e + blur() / 16 as real),
{
    lemma_plus(a, b);
    lemma_rounded_view(val(a.plus(b)), val(a) + val(b));
}

/// Settings of the view of ordinary size.
pub open spec fn usual_settings(p: FieldPanner, spread: F32, pitch: F32, speed: F32) -> bool {
    let c = p.config;
    &&& spread.finite() && 0 as real <= val(spread) <= 4 as real
    &&& usual_view(c.fov_tight) && usual_view(c.fov_wide) && val(c.fov_tight) <= val(c.fov_wide)
    &&& pitch.finite() && c.pitch_near.finite() && c.pitch_far.finite()
    &&& pitch.minus(c.pitch_near).finite() && c.pitch_far.minus(c.pitch_near).finite()
    &&& 1 as real <= 64 as real * size(val(c.pitch_far.minus(c.pitch_near)))
    &&& size(val(c.pitch_far.minus(c.pitch_near))) <= 16 as real
    &&& size(val(pitch.minus(c.pitch_near))) <= 3 as real * size(
        val(c.pitch_far.minus(c.pitch_near)),
    )
    &&& c.distance_bias_max.finite() && 0 as real <= val(c.distance_bias_max) <= 64 as real
    &&& c.edge_bias_max.finite() && 0 as real <= val(c.edge_bias_max) <= 64 as real
    &&& c.velocity_fov_bias_max.finite() && 0 as real <= val(c.velocity_fov_bias_max) <= 64 as real
    &&& p.yaw.finite() && size(val(p.yaw)) <= 8 as real
    &&& speed.finite() && p.max_velocity.finite()
    &&& 1 as real <= 64 as real * size(val(p.max_velocity)) && size(val(p.max_velocity))
        <= 16 as real
    &&& size(val(speed)) <= 3 as real * size(val(p.max_velocity))
}

/// The view that a group asks for while the ball is not present: twice its
/// spread, at least the tightest view, and more the farther up the group is, the
/// farther to the side the camera looks, and the faster it turns; cut to the
/// widest view.
pub proof fn law_view_of_a_group(p: FieldPanner, spread: F32, pitch: F32, speed: F32)
    requires
        p.config.framing == FramingMode::Action,
        usual_settings(p, spread, pitch, speed),
        !(F32 { bits: HUNDREDTH }).below(p.ball_presence),
    ensures
        ({
            let c = p.config;
            let whole = more_of(
                2 as real * (val(spread) * (5729578 as real / 100000 as real)),
                val(c.fov_tight),
            );
            let far = unit_cut(
                val(pitch.minus(c.pitch_near)) / val(c.pitch_far.minus(c.pitch_near)),
            );
            let edge = less_of(5 as real * size(val(p.yaw)), val(c.edge_bias_max));
            let fast = unit_cut(val(speed) / val(p.max_velocity));
            let sum = whole + far * val(c.distance_bias_max) + edge + fast * val(
                c.velocity_fov_bias_max,
            );
            about(
                p.wanted_fov(spread, pitch, speed),
                more_of(less_of(sum, val(c.fov_wide)), val(c.fov_tight)),
                blur(),
            )
        }),
{
    let c = p.config;
    let (zero, one, two, five) = (
        F32 { bits: ZERO },
        F32 { bits: ONE },
        F32 { bits: TWO },
        F32 { bits: FIVE },
    );
    let k = 5729578 as real / 100000 as real;
    lemma_spread_degrees(spread);
    let w = 2 as real * (val(spread) * k);
    let from = two.times(spread.degrees());
    lemma_val_ordered(from, c.fov_tight);
    let whole = more_of(w, val(c.fov_tight));
    let (pn, pf) = (pitch.minus(c.pitch_near), c.pitch_far.minus(c.pitch_near));
    lemma_between(pn, pf);
    lemma_between(speed, p.max_velocity);
    let far = pn.over(pf).clamped(zero, one);
    let fast = speed.over(p.max_velocity).clamped(zero, one);
    let (x, z) = (unit_cut(val(pn) / val(pf)), unit_cut(val(speed) / val(p.max_velocity)));
    lemma_share_of_bound(far, x, c.distance_bias_max);
    lemma_share_of_bound(fast, z, c.velocity_fov_bias_max);
    lemma_constants();
    lemma_val(p.yaw);
    let m = p.yaw.magnitude();
    assert(m.finite());
    lemma_times(m, five);
    lemma_rounded_view(val(m.times(five)), val(m) * 5 as real);
    lemma_val_ordered(c.edge_bias_max, m.times(five));
    let edge = m.times(five).lesser(c.edge_bias_max);
    let y = less_of(5 as real * size(val(p.yaw)), val(c.edge_bias_max));
    let h = blur() / 16 as real;
    let a = from.greater(c.fov_tight);
    let d = far.times(c.distance_bias_max);
    let f = fast.times(c.velocity_fov_bias_max);
    lemma_degrees_sum(a, whole, 2 as real * h, d, x * val(c.distance_bias_max), h);
    lemma_degrees_sum(a.plus(d), whole + x * val(c.distance_bias_max), 4 as real * h, edge, y, h);
    let s = a.plus(d).plus(edge);
    let q = whole + x * val(c.distance_bias_max) + y;
    lemma_degrees_sum(s, q, 6 as real * h, f, z * val(c.velocity_fov_bias_max), h);
    let t = s.plus(f);
    lemma_val_ordered(t, c.fov_tight);
    lemma_val_ordered(c.fov_wide, t);
}

} // verus!
