//! From where searches start, how settings are put in order, and how the two
//! ends of a court mirror each other.
use crate::{near_laws, real_single_laws};
use crate::algebra::{lemma_nothing, lemma_spread_out, lemma_swap, lemma_three, lemma_ulp};
use crate::court_points::{
    baseline_y, basket_y, end_sign, far_end_marks, free_throw_y, near_end_marks, BASKET_OFFSET,
    FREE_THROW_DIST, HALF_LENGTH,
};
use crate::cpu_detectors::{blended, fitted, fitted_entry, fitted_tap, Picture, FULL, GREY};
use crate::detector_laws::lemma_before_point;
use crate::double::F64;
use crate::field_panner::{new_panner, THOUSAND};
use crate::lens_laws::{lemma_dyadic, lemma_relative, lemma_tick, near, tick};
use crate::mono_optimizer::{bounds_of, focal_seed, turn_seeds, HALF, TILT_SEEDS_DEG};
use crate::panner_config::{fov_high, fov_low, sanitized_config, FieldPannerConfig, ONE};
use crate::radius_laws::{lemma_scaled, lemma_size_times, lemma_unscaled};
use crate::real_laws::{
    lemma_minus, lemma_over, lemma_speck, lemma_times, lemma_val, size, speck, ulp, val,
};
use crate::round_trip_laws::lemma_quotient;
use crate::rounding::{law_ratio_rounds, lemma_rung_in_binade, Format};
use crate::single::F32;
use crate::speed_laws::value;
use crate::value_laws::lemma_small_constants;
use vstd::arithmetic::div_mod::lemma_fundamental_div_mod_converse;
use vstd::arithmetic::power2::{lemma2_to64, lemma2_to64_rest, lemma_pow2_adds, lemma_pow2_pos, pow2};
use vstd::prelude::*;

verus! {

/// Degrees become radians by a half turn over 180.
pub proof fn law_degrees_to_radians(x: F64)
    requires
        x.finite(),
        size(val(x)) <= 400 as real,
    ensures
        near(
            x.radians(),
            val(x) * (17453292519943 as real / 1000000000000000 as real),
            400 as real * tick(),
        ),
{
    let c = F64 { bits: 0x3F91_DF46_A252_9D39 };
    let k = 17453292519943 as real / 1000000000000000 as real;
    lemma2_to64();
    lemma2_to64_rest();
    lemma_dyadic(c, 1016, 0x11_DF46_A252_9D39);
    assert(val(c) * 0x400_0000_0000_0000 as real == 0x11_DF46_A252_9D39 as real);
    let v = val(x);
    lemma_size_times(v, val(c));
    lemma_scaled(val(c), 1 as real, size(v));
    lemma_nothing(size(v));
    lemma_times(x, c);
    lemma_tick(val(x.times(c)), v * val(c));
    lemma_spread_out(val(c), k, v);
    lemma_size_times(v, val(c) - k);
    assert(size(val(c) - k) <= tick() / 2 as real);
    lemma_scaled(size(val(c) - k), tick() / 2 as real, size(v));
    lemma_scaled(size(v), 400 as real, tick() / 2 as real);
}

/// The focal length from which a search starts: times the angle that the diagonal
/// is to span, in radians, it is the diagonal.
pub proof fn law_focal_seed_spans_the_diagonal(diagonal: F64, fov: F64)
    requires
        diagonal.finite() && 0 as real <= val(diagonal) <= 0x1_0000 as real,
        fov.radians().finite(),
        1 as real <= 64 as real * val(fov.radians()) && val(fov.radians()) <= 8 as real,
    ensures
        focal_seed(diagonal, fov).finite(),
        0x1000 as real * size(
            val(focal_seed(diagonal, fov)) * val(fov.radians()) - val(diagonal),
        ) <= 1 as real,
{
    lemma_speck();
    lemma_small_constants();
    let half = F64 { bits: HALF };
    let (d, p) = (val(diagonal), val(fov.radians()));
    lemma_three(d, val(half), 2 as real);
    lemma_three(p, val(half), 2 as real);
    lemma_nothing(d);
    lemma_nothing(p);
    lemma_times(diagonal, half);
    lemma_times(fov.radians(), half);
    let (a, b) = (diagonal.times(half), fov.radians().times(half));
    lemma_relative(val(a), d * val(half));
    lemma_relative(val(b), p * val(half));
    lemma_ulp(size(d * val(half)));
    lemma_ulp(size(p * val(half)));
    let (x, y) = (val(a), val(b));
    let t = x / y;
    lemma_quotient(x, y);
    lemma_size_times(t, y);
    lemma_scaled(1 as real / 256 as real, y, size(t));
    lemma_three(size(t), 1 as real / 256 as real, 256 as real);
    lemma_nothing(size(t));
    lemma_over(a, b);
    let f = val(a.over(b));
    lemma_relative(f, t);
    lemma_ulp(size(t));
    assert(size(f - t) <= 1 as real / 0x1000_0000 as real);
    // Both halves together.
    lemma_spread_out(f, t, p);
    lemma_spread_out(p, 2 as real * y, t);
    lemma_three(2 as real, y, t);
    lemma_swap(t, y);
    lemma_swap(t, 2 as real * y);
    lemma_size_times(f - t, p);
    lemma_scaled(size(f - t), 1 as real / 0x1000_0000 as real, p);
    lemma_scaled(p, 8 as real, 1 as real / 0x1000_0000 as real);
    lemma_size_times(t, p - 2 as real * y);
    let e = size(p - 2 as real * y);
    assert(e <= 1 as real / 0x1000_0000_0000 as real);
    lemma_scaled(e, 1 as real / 0x1000_0000_0000 as real, size(t));
    lemma_scaled(size(t), 0x200_0000 as real, 1 as real / 0x1000_0000_0000 as real);
}

/// The turns from which a search starts: straight down, and the two tilts to
/// either side of it by the same angle.
pub proof fn law_turns_go_to_both_sides()
    ensures
        turn_seeds().len() == 5,
        ({
            let (t, pi) = (turn_seeds(), F64 { bits: 0x4009_21FB_5444_2D18 });
            let a = (F64 { bits: 0x402E_0000_0000_0000 }).radians();
            let b = (F64 { bits: 0x403E_0000_0000_0000 }).radians();
            &&& t[0] == pi
            &&& t[1] == pi.minus(a) && t[2] == pi.plus(a)
            &&& t[3] == pi.minus(b) && t[4] == pi.plus(b)
        }),
{
    assert(TILT_SEEDS_DEG[0] == 0x402E_0000_0000_0000u64);
    assert(TILT_SEEDS_DEG[1] == 0x403E_0000_0000_0000u64);
}

/// The bounds of a search: the lens coefficients, the turns and the places along
/// the court go equally far to both sides, and the camera is between one and
/// forty metres up.
pub proof fn law_bounds_go_to_both_sides(diagonal: F64)
    ensures
        ({
            let b = bounds_of(diagonal);
            &&& b.len() == 9
            &&& forall|i: int| 1 <= i < 8 ==> (#[trigger] b[i]).0 == b[i].1.negated()
            &&& b[1] == b[2] && b[3] == b[4] && b[4] == b[5] && b[6] == b[7]
            &&& b[1].1 == (F64 { bits: 0x3FE0_0000_0000_0000 })
            &&& b[3].1 == (F64 { bits: 0x4009_21FB_5444_2D18 })
            &&& b[6].1 == (F64 { bits: 0x4039_0000_0000_0000 })
            &&& b[8].0 == (F64 { bits: 0x3FF0_0000_0000_0000 })
            &&& b[8].1 == (F64 { bits: 0x4044_0000_0000_0000 })
            &&& b[0].0 == focal_seed(diagonal, F64 { bits: 0x406C_C000_0000_0000 }).times(
                F64 { bits: 0x3FE0_0000_0000_0000 },
            )
            &&& b[0].1 == focal_seed(diagonal, F64 { bits: 0x4054_0000_0000_0000 }).times(
                F64 { bits: 0x4000_0000_0000_0000 },
            )
        }),
{
    let b = bounds_of(diagonal);
    assert(b[1].0 == b[1].1.negated());
    assert(b[3].0 == b[3].1.negated());
    assert(b[6].0 == b[6].1.negated());
}

/// The bounds of the view are put in order and are at least one; bounds that
/// are in order and at least one stay as they are.
pub proof fn law_view_bounds_are_put_in_order(tight: F32, wide: F32)
    requires
        !tight.nan() && !wide.nan(),
    ensures
        ({
            let one = F32 { bits: ONE };
            let (lo, hi) = (fov_low(tight, wide), fov_high(tight, wide));
            &&& lo.at_most(hi) && one.at_most(lo)
            &&& one.at_most(tight) && tight.below(wide) ==> lo == tight && hi == wide
            &&& one.at_most(wide) && wide.below(tight) ==> lo == wide && hi == tight
        }),
{
}

/// The top speed of a new panner is that of a second over the frames in one.
pub proof fn law_top_speed_is_per_frame(fps: F32, config: FieldPannerConfig)
    requires
        ({
            let s = sanitized_config(config).max_velocity_rad_per_sec;
            s.finite() && size(real_single_laws::val(s)) <= 64 as real
        }),
        fps.finite(),
        1 as real <= real_single_laws::val(fps) <= 1000 as real,
    ensures
        ({
            let p = new_panner(fps, config);
            let s = real_single_laws::val(sanitized_config(config).max_velocity_rad_per_sec);
            let f = real_single_laws::val(fps);
            &&& p.max_velocity.finite()
            &&& size(real_single_laws::val(p.max_velocity) * f - s)
                <= 2 as real * near_laws::notch()
        }),
{
    let s = sanitized_config(config).max_velocity_rad_per_sec;
    let (one, most) = (F32 { bits: ONE }, F32 { bits: THOUSAND });
    lemma_small_constants();
    lemma_thousand();
    real_single_laws::lemma_val_ordered(fps, one);
    real_single_laws::lemma_val_ordered(most, fps);
    let (v, f) = (real_single_laws::val(s), real_single_laws::val(fps));
    let (w, k) = (real_single_laws::ulp(), real_single_laws::speck());
    real_single_laws::lemma_speck();
    let t = v / f;
    lemma_quotient(v, f);
    lemma_size_times(t, f);
    lemma_scaled(1 as real, f, size(t));
    lemma_nothing(size(t));
    real_single_laws::lemma_over(s, fps);
    let r = real_single_laws::val(s.over(fps));
    near_laws::lemma_relative(r, t);
    lemma_spread_out(r, t, f);
    lemma_spread_out(size(t) * w, k, f);
    lemma_three(size(t), w, f);
    lemma_size_times(r - t, f);
    lemma_scaled(size(r - t), size(t) * w + k, f);
    near_laws::lemma_last_place(size(v));
    lemma_scaled(f, 1000 as real, k);
}

/// A thousand is a thousand.
proof fn lemma_thousand()
    ensures
        (F32 { bits: THOUSAND }).finite(),
        real_single_laws::val(F32 { bits: THOUSAND }) >= 1000 as real,
{
    let c = F32 { bits: 0x447A_0000 };
    real_single_laws::lemma_speck();
    lemma2_to64();
    lemma2_to64_rest();
    lemma_rung_in_binade(23, 135, 0xFA_0000);
    lemma_pow2_adds(14, 135);
    real_single_laws::lemma_val(c);
    let (u, g) = (pow2(149) as real, pow2(135) as real);
    assert(value(c) == 0xFA_0000 * pow2(135));
    assert(u == 0x4000 as real * g);
    assert((0xFA_0000 * pow2(135)) as real == 1000 as real * u);
    lemma_unscaled(1000 as real, real_single_laws::val(c), u);
}

/// The near end of the court mirrors the far end: every mark has the same place
/// across the court and the opposite place along it.
pub proof fn law_ends_mirror_each_other(i: int)
    requires
        0 <= i < 7,
        baseline_y(true).finite() && free_throw_y(true).finite() && basket_y(true).finite(),
    ensures
        far_end_marks().len() == 7 && near_end_marks().len() == 7,
        near_end_marks()[i].1 == far_end_marks()[i].1,
        baseline_y(false) == baseline_y(true).negated(),
        free_throw_y(false) == free_throw_y(true).negated(),
        basket_y(false) == basket_y(true).negated(),
        near_end_marks()[i].2 == far_end_marks()[i].2.negated(),
{
    lemma_mirrored(F64 { bits: HALF_LENGTH });
    lemma_mirrored(
        (F64 { bits: HALF_LENGTH }).minus(
            F64 { bits: FREE_THROW_DIST },
        ),
    );
    lemma_mirrored(
        (F64 { bits: HALF_LENGTH }).minus(
            F64 { bits: BASKET_OFFSET },
        ),
    );
}

/// What a finite product with one says of the product with minus one.
proof fn lemma_mirrored(x: F64)
    requires
        end_sign(true).times(x).finite(),
    ensures
        end_sign(false).times(x) == end_sign(true).times(x).negated(),
{
    reveal(F64::times);
    let (a, b) = (end_sign(true), end_sign(false));
    assert(b.parts().key == a.parts().key && b.parts().neg && !a.parts().neg);
    lemma_pow2_pos(1074);
    let n = a.parts().size(Format::Double) * x.parts().size(Format::Double);
    law_ratio_rounds(Format::Double, n, pow2(1074) as int);
}

/// Where a pixel of a channel stands among the entries of a square input with
/// bars: the channels one after the other, each by rows; inside the frame it is
/// the blend at its own place, over the full value, and on the bars it is grey.
pub proof fn law_fitted_entries_go_by_channel_and_row(
    p: Picture,
    side: u32,
    channel: int,
    row: int,
    column: int,
)
    requires
        0 <= channel < 3,
        0 <= row < side,
        0 <= column < side,
    ensures
        ({
            let b = fitted(p.width, p.height, side);
            let (x, y) = (column - b.pad_x.before_point(), row - b.pad_y.before_point());
            let e = fitted_entry(p, side, channel * (side * side) + (row * side + column));
            &&& 0 <= x < b.width && 0 <= y < b.height ==> e == blended(
                p,
                fitted_tap(x, b.scale, p.width),
                fitted_tap(y, b.scale, p.height),
                channel,
            ).over(F32 { bits: FULL })
            &&& !(0 <= x < b.width && 0 <= y < b.height) ==> e == (F32 { bits: GREY })
        }),
{
    let (s, plane) = (side as int, side * side);
    let q = row * s + column;
    let i = channel * plane + q;
    assert(0 <= q < s * s) by (nonlinear_arith)
        requires
            q == row * s + column,
            0 <= row,
            row + 1 <= s,
            0 <= column < s,
    ;
    lemma_fundamental_div_mod_converse(i, plane, channel, q);
    lemma_fundamental_div_mod_converse(q, s, row, column);
}

/// A pixel of the fitted frame is taken from the frame at its own place over the
/// scale: the blend is between the pixels before and behind it, by how far it is
/// past the first.
pub proof fn law_fitted_taps_are_at_the_place(d: int, scale: F32, extent: u32)
    requires
        0 <= d,
        0 < extent < 0x10_0000,
        ({
            let from = F32::of_whole(d as nat).over(scale);
            from.finite() && !from.parts().neg && real_single_laws::val(from)
                < extent as real - 1 as real
        }),
    ensures
        ({
            let t = fitted_tap(d, scale, extent);
            let from = F32::of_whole(d as nat).over(scale);
            let v = real_single_laws::val(from);
            &&& t.second == t.first + 1
            &&& t.first as real <= v && v < t.second as real
            &&& t.share.finite() && size(
                t.first as real + real_single_laws::val(t.share) - v,
            ) <= near_laws::notch()
        }),
{
    let from = F32::of_whole(d as nat).over(scale);
    lemma_before_point(from);
    let g = from.floored();
    real_single_laws::lemma_minus(from, g);
    let r = from.minus(g);
    near_laws::lemma_notch(
        real_single_laws::val(r),
        real_single_laws::val(from) - real_single_laws::val(g),
    );
}

} // verus!
