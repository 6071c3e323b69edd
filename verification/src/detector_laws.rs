//! How a frame is fitted into the input of a model, in real numbers.
use crate::algebra::{lemma_nothing, lemma_spread_out, lemma_swap, lemma_three};
use crate::cpu_detectors::{
    blended, fitted, fitted_elsewhere, fitting_scale, stretched_entry, stretched_tap, Picture, Tap,
    FULL, HALF, MEAN, STD, TWO,
};
use crate::fit_laws::law_small_whole_is_exact;
use crate::follow_laws::{fraction, lemma_not_negative};
use crate::near_laws::{
    lemma_last_place, lemma_nigh_minus, lemma_notch, lemma_relative, nigh, notch,
};
use crate::panner_config::ONE;
use crate::radius_laws::{lemma_scaled, lemma_size_times, lemma_unscaled};
use crate::real_laws::size;
use crate::real_single_laws::{
    lemma_minus, lemma_over, lemma_plus, lemma_speck, lemma_times, lemma_val, lemma_val_ordered,
    speck, ulp, val,
};
use crate::round_trip_laws::lemma_quotient;
use crate::rounding::{lemma_rung_in_binade, lemma_rung_zero, Format};
use crate::single::F32;
use crate::speed_laws::value;
use crate::value_laws::{lemma_small_constants, lemma_whole_single};
use crate::whole::{law_whole_part_is_close, whole_part, Toward};
use vstd::arithmetic::div_mod::lemma_fundamental_div_mod_converse;
use vstd::arithmetic::power2::{lemma2_to64, lemma2_to64_rest, lemma_pow2_pos, pow2};
use vstd::prelude::*;

verus! {

/// A value of a picture: at most 256.
pub open spec fn colour_value(x: F32) -> bool {
    x.finite() && size(val(x)) <= 256 as real
}

/// Two to the power -8.
pub open spec fn shade() -> real {
    1 as real / 0x100 as real
}

/// A value times a share that is known up to rounding.
proof fn lemma_weighed(a: F32, x: real, d: real, s: F32, t: real)
    requires
        a.finite(),
        size(val(a) - x) <= d,
        0 as real <= d <= 1 as real,
        size(x) <= 256 as real,
        nigh(s, t, notch()),
        0 as real <= t <= 1 as real,
    ensures
        a.times(s).finite(),
        size(val(a.times(s)) - x * t) <= 2 as real * d + 1 as real / 0x180 as real,
        size(x * t) <= 256 as real,
{
    lemma_speck();
    let (v, w) = (val(a), val(s));
    lemma_spread_out(v, x, w);
    lemma_spread_out(w, t, x);
    lemma_size_times(v - x, w);
    lemma_size_times(x, w - t);
    lemma_size_times(x, t);
    lemma_scaled(size(v - x), d, size(w));
    lemma_scaled(size(w), 2 as real, d);
    lemma_scaled(size(w - t), notch(), size(x));
    lemma_scaled(size(x), 256 as real, notch());
    lemma_scaled(t, 1 as real, size(x));
    lemma_nothing(size(x));
    lemma_times(a, s);
    lemma_relative(val(a.times(s)), v * w);
    lemma_last_place(size(v * w));
}

/// One of the four parts of a blend.
proof fn lemma_corner(a: F32, s: F32, p: real, t: F32, q: real)
    requires
        colour_value(a),
        nigh(s, p, notch()),
        nigh(t, q, notch()),
        0 as real <= p <= 1 as real,
        0 as real <= q <= 1 as real,
    ensures
        a.times(s).times(t).finite(),
        size(val(a.times(s).times(t)) - (val(a) * p) * q) <= 2 as real * shade(),
        size((val(a) * p) * q) <= 256 as real,
{
    lemma_weighed(a, val(a), 0 as real, s, p);
    lemma_weighed(a.times(s), val(a) * p, 1 as real / 0x180 as real, t, q);
}

/// A sum of values.
proof fn lemma_both(a: F32, b: F32, x: real, y: real, d: real, e: real)
    requires
        a.finite() && b.finite(),
        size(val(a) - x) <= d,
        size(val(b) - y) <= e,
        0 as real <= d && d <= 1 as real,
        0 as real <= e && e <= 1 as real,
        size(x) <= 768 as real && size(y) <= 256 as real,
    ensures
        a.plus(b).finite(),
        size(val(a.plus(b)) - (x + y)) <= d + e + shade() / 8 as real,
{
    lemma_speck();
    lemma_plus(a, b);
    lemma_relative(val(a.plus(b)), val(a) + val(b));
    lemma_last_place(size(val(a) + val(b)));
}

/// A blend of four pixels weighs each by how close it is: the one at the upper
/// left by what is left of both shares, the one to its right by the share across
/// and what is left of the share down, the one below it the other way round, and
/// the last by both shares.
pub proof fn law_blend_is_bilinear(p: Picture, x: Tap, y: Tap, channel: int)
    requires
        fraction(x.share) && fraction(y.share),
        colour_value(p.at(x.first as int, y.first as int, channel)),
        colour_value(p.at(x.second as int, y.first as int, channel)),
        colour_value(p.at(x.first as int, y.second as int, channel)),
        colour_value(p.at(x.second as int, y.second as int, channel)),
    ensures
        ({
            let (s, t) = (val(x.share), val(y.share));
            let (l, u) = (1 as real - s, 1 as real - t);
            let a = val(p.at(x.first as int, y.first as int, channel));
            let b = val(p.at(x.second as int, y.first as int, channel));
            let c = val(p.at(x.first as int, y.second as int, channel));
            let d = val(p.at(x.second as int, y.second as int, channel));
            let r = blended(p, x, y, channel);
            r.finite() && size(
                val(r) - ((a * l) * u + (b * s) * u + (c * l) * t + (d * s) * t),
            ) <= 16 as real * shade()
        }),
{
    lemma_small_constants();
    let one = F32 { bits: ONE };
    let (s, t) = (val(x.share), val(y.share));
    let (l, u) = (1 as real - s, 1 as real - t);
    let a = p.at(x.first as int, y.first as int, channel);
    let b = p.at(x.second as int, y.first as int, channel);
    let c = p.at(x.first as int, y.second as int, channel);
    let d = p.at(x.second as int, y.second as int, channel);
    lemma_nigh_minus(one, 1 as real, 0 as real, x.share, s, 0 as real);
    lemma_nigh_minus(one, 1 as real, 0 as real, y.share, t, 0 as real);
    let (left, up) = (one.minus(x.share), one.minus(y.share));
    lemma_corner(a, left, l, up, u);
    lemma_corner(b, x.share, s, up, u);
    lemma_corner(c, left, l, y.share, t);
    lemma_corner(d, x.share, s, y.share, t);
    let (pa, pb, pc, pd) = (
        a.times(left).times(up),
        b.times(x.share).times(up),
        c.times(left).times(y.share),
        d.times(x.share).times(y.share),
    );
    let (qa, qb, qc, qd) = (
        (val(a) * l) * u,
        (val(b) * s) * u,
        (val(c) * l) * t,
        (val(d) * s) * t,
    );
    let h = shade();
    lemma_both(pa, pb, qa, qb, 2 as real * h, 2 as real * h);
    lemma_both(pa.plus(pb), pc, qa + qb, qc, 5 as real * h, 2 as real * h);
    lemma_both(pa.plus(pb).plus(pc), pd, qa + qb + qc, qd, 8 as real * h, 2 as real * h);
}

/// An extent times a rounded ratio to it.
pub proof fn lemma_ratio_times(side: u32, extent: u32)
    requires
        0 < extent < 0x1_0000,
        0 < side < 0x1_0000,
    ensures
        ({
            let r = F32::of_whole(side as nat).over(F32::of_whole(extent as nat));
            &&& r.finite()
            &&& 0x10_0000 as real * size(val(r) * extent as real - side as real) <= side as real
        }),
{
    lemma_speck();
    lemma_whole_single(side as nat);
    lemma_whole_single(extent as nat);
    let (a, b) = (F32::of_whole(side as nat), F32::of_whole(extent as nat));
    let (v, f) = (side as real, extent as real);
    let t = v / f;
    lemma_quotient(v, f);
    lemma_nothing(f);
    lemma_unscaled(0 as real, t, f);
    lemma_scaled(1 as real, f, t);
    lemma_nothing(t);
    lemma_over(a, b);
    let r = val(a.over(b));
    lemma_relative(r, t);
    let (w, k) = (ulp(), speck());
    lemma_spread_out(r, t, f);
    lemma_spread_out(t * w, k, f);
    lemma_three(t, w, f);
    lemma_size_times(r - t, f);
    lemma_scaled(size(r - t), t * w + k, f);
    lemma_last_place(v);
    lemma_scaled(f, 0x1_0000 as real, k);
    assert(k * f <= k * 0x1_0000 as real);
}

/// The scale at which a frame fits into a square: both sides fit, and one of them
/// fills the square.
pub proof fn law_scale_fits_the_longer_side(width: u32, height: u32, side: u32)
    requires
        0 < width < 0x1_0000,
        0 < height < 0x1_0000,
        0 < side < 0x1_0000,
    ensures
        ({
            let s = fitting_scale(width, height, side);
            let (w, h) = (val(s) * width as real, val(s) * height as real);
            let (full, n) = (side as real, 0x10_0000 as real);
            &&& s.finite()
            &&& n * w <= n * full + full && n * h <= n * full + full
            &&& n * size(w - full) <= full || n * size(h - full) <= full
        }),
{
    let s = F32::of_whole(side as nat);
    let (a, b) = (s.over(F32::of_whole(width as nat)), s.over(F32::of_whole(height as nat)));
    lemma_ratio_times(side, width);
    lemma_ratio_times(side, height);
    lemma_val_ordered(b, a);
    let r = fitting_scale(width, height, side);
    lemma_scaled(val(r), val(a), width as real);
    lemma_scaled(val(r), val(b), height as real);
}

/// The bars around a fitted frame are equally wide on both sides: together with
/// the frame they fill the square, across and down.
pub proof fn law_bars_fill_the_square(width: u32, height: u32, side: u32)
    requires
        side < 0x1_0000,
        fitted(width, height, side).width <= side,
        fitted(width, height, side).height <= side,
    ensures
        ({
            let b = fitted(width, height, side);
            let full = side as real;
            &&& b.pad_x.finite() && b.pad_y.finite()
            &&& 0x40 as real * size(2 as real * val(b.pad_x) + b.width as real - full) <= 1 as real
            &&& 0x40 as real * size(2 as real * val(b.pad_y) + b.height as real - full) <= 1 as real
        }),
{
    let b = fitted(width, height, side);
    lemma_half_of((side - b.width) as nat);
    lemma_half_of((side - b.height) as nat);
}

/// Half of a whole number.
proof fn lemma_half_of(n: nat)
    requires
        n < 0x1_0000,
    ensures
        ({
            let h = F32::of_whole(n).over(F32 { bits: TWO });
            h.finite() && 0x40 as real * size(2 as real * val(h) - n as real) <= 1 as real
        }),
{
    lemma_speck();
    lemma_small_constants();
    lemma_whole_single(n);
    let (a, two) = (F32::of_whole(n), F32 { bits: TWO });
    lemma_over(a, two);
    lemma_relative(val(a.over(two)), n as real / 2 as real);
    lemma_last_place(size(n as real / 2 as real));
}

/// Where a pixel of a channel stands among the entries of a square input: the
/// channels one after the other, each by rows; and its value is the blend at its
/// own column and row, over the full value, less the channel's mean, over the
/// channel's deviation.
pub proof fn law_entries_go_by_channel_and_row(
    p: Picture,
    side: u32,
    channel: int,
    row: int,
    column: int,
)
    requires
        0 <= channel < 3,
        0 <= row < side,
        0 <= column < side,
    ensures
        stretched_entry(p, side, channel * (side * side) + (row * side + column)) == blended(
            p,
            stretched_tap(column, p.width, side),
            stretched_tap(row, p.height, side),
            channel,
        ).over(F32 { bits: FULL }).minus(F32 { bits: MEAN@[channel] }).over(
            F32 { bits: STD@[channel] },
        ),
{
    let (s, plane) = (side as int, side * side);
    let q = row * s + column;
    let i = channel * plane + q;
    assert(0 <= q < s * s) by (nonlinear_arith)
        requires
            q == row * s + column,
            0 <= row,
            row + 1 <= s,
            0 <= column < s,
    ;
    lemma_fundamental_div_mod_converse(i, plane, channel, q);
    lemma_fundamental_div_mod_converse(q, s, row, column);
}

/// The whole number before the point of a number of ordinary size.
pub proof fn lemma_before_point(x: F32)
    requires
        x.finite(),
        !x.parts().neg,
        val(x) < 0x10_0000 as real,
    ensures
        ({
            let k = x.before_point();
            &&& k as real <= val(x) && val(x) < k as real + 1 as real
            &&& x.floored().finite()
            &&& val(x.floored()) == k as real
            &&& x.floored().before_point() == k
        }),
{
    let f = Format::Single;
    let n = x.parts().size(f);
    let u = pow2(149) as int;
    lemma_pow2_pos(149);
    lemma_val(x);
    law_whole_part_is_close(f, n);
    let k = whole_part(f, n, Toward::Down);
    let w = u as real;
    let m = k * u;
    lemma_pow2_pos(149);
    assert(m as real == k as real * w) by (nonlinear_arith)
        requires
            m == k * u,
            w == u as real,
    ;
    lemma_unscaled(k as real, val(x), w);
    lemma_spread_out(k as real, 1 as real, w);
    lemma_nothing(w);
    if val(x) >= k as real + 1 as real {
        lemma_scaled(k as real + 1 as real, val(x), w);
    }
    assert(0 <= k) by {
        if k < 0 {
            lemma_scaled(k as real, -1 as real, w);
        }
    }
    assert(x.before_point() == k);
    lemma_whole_single(k as nat);
    let c = F32 { bits: 0x4B00_0000 };
    lemma2_to64();
    lemma2_to64_rest();
    lemma_rung_in_binade(23, 149, 0x80_0000);
    lemma_val(c);
    assert(value(c) == 0x80_0000 * u);
    lemma_three(val(c), 1 as real, w);
    assert(val(c) >= 0x80_0000 as real) by {
        assert((0x80_0000 * u) as real == 0x80_0000 as real * w);
        lemma_unscaled(0x80_0000 as real, val(c), w);
    }
    lemma_val_ordered(x, c);
    lemma_rung_zero(23);
    let g = F32::of_whole(k as nat);
    if x.parts().key > 0 {
        assert(x.floored() == g);
    } else {
        assert(val(x) == 0 as real);
    }
    lemma_val(g);
    lemma_floor_again(k as nat);
}

/// The whole number before the point of a whole number.
proof fn lemma_floor_again(k: nat)
    requires
        k < 0x10_0000,
    ensures
        F32::of_whole(k).before_point() == k,
{
    let f = Format::Single;
    let u = pow2(149) as int;
    lemma_pow2_pos(149);
    law_small_whole_is_exact(k);
    assert(F32::of_whole(k).parts().size(f) == k * u);
    assert((k * u) / u == k) by (nonlinear_arith)
        requires
            u > 0,
    ;
}

/// A pixel of the square input is taken from the frame at its own middle scaled
/// to the frame: as long as that is not before the first pixel, the blend is
/// between the pixels before and behind it, by how far it is past the first.
pub proof fn law_stretched_taps_are_at_the_middle(d: int, extent: u32, side: u32)
    requires
        0 <= d < side,
        0 < extent < 0x10_0000,
        ({
            let from = F32::of_whole(d as nat).plus(F32 { bits: HALF }).times(
                F32::of_whole(extent as nat).over(F32::of_whole(side as nat)),
            ).minus(F32 { bits: HALF });
            from.finite() && !from.parts().neg && val(from) < extent as real - 1 as real
        }),
    ensures
        ({
            let t = stretched_tap(d, extent, side);
            let from = F32::of_whole(d as nat).plus(F32 { bits: HALF }).times(
                F32::of_whole(extent as nat).over(F32::of_whole(side as nat)),
            ).minus(F32 { bits: HALF });
            &&& t.second == t.first + 1
            &&& t.first as real <= val(from) && val(from) < t.second as real
            &&& t.share.finite() && size(t.first as real + val(t.share) - val(from)) <= notch()
        }),
{
    let (zero, one, half) = (F32 { bits: 0 }, F32 { bits: ONE }, F32 { bits: HALF });
    let from = F32::of_whole(d as nat).plus(half).times(
        F32::of_whole(extent as nat).over(F32::of_whole(side as nat)),
    ).minus(half);
    lemma_small_constants();
    lemma_before_point(from);
    lemma_val(from);
    lemma_val(zero);
    let g = from.floored();
    lemma_val_ordered(g, zero);
    lemma_minus(from, g);
    let r = from.minus(g);
    lemma_notch(val(r), val(from) - val(g));
    lemma_val_ordered(r, zero);
    lemma_val_ordered(one, r);
}

/// The closest whole number to a number of ordinary size.
proof fn lemma_rounded(x: F32)
    requires
        x.finite(),
        !x.parts().neg,
        val(x) < 0x8_0000 as real,
    ensures
        ({
            let k = x.rounded().before_point();
            &&& 2 as real * size(k as real - val(x)) <= 1 as real
            &&& x.rounded().finite() && val(x.rounded()) == k as real
        }),
{
    let f = Format::Single;
    let n = x.parts().size(f);
    let u = pow2(149) as int;
    let w = u as real;
    lemma_pow2_pos(149);
    lemma_val(x);
    law_whole_part_is_close(f, n);
    let k = whole_part(f, n, Toward::Nearest);
    let m = k * u;
    assert(m as real == k as real * w) by (nonlinear_arith)
        requires
            m == k * u,
            w == u as real,
    ;
    let (a, b) = (k as real, val(x));
    lemma_nothing(w);
    lemma_spread_out(2 as real * a, 1 as real, w);
    lemma_spread_out(2 as real * b, 1 as real, w);
    lemma_three(2 as real, a, w);
    lemma_three(2 as real, b, w);
    lemma_unscaled(2 as real * a, 2 as real * b + 1 as real, w);
    lemma_unscaled(2 as real * b, 2 as real * a + 1 as real, w);
    assert(0 <= k) by {
        if k < 0 {
            assert(2 as real * b <= -1 as real);
        }
    }
    let c = F32 { bits: 0x4B00_0000 };
    lemma2_to64();
    lemma2_to64_rest();
    lemma_rung_in_binade(23, 149, 0x80_0000);
    lemma_val(c);
    assert(value(c) == 0x80_0000 * u);
    assert((0x80_0000 * u) as real == 0x80_0000 as real * w);
    lemma_unscaled(0x80_0000 as real, val(c), w);
    lemma_val_ordered(x, c);
    lemma_rung_zero(23);
    lemma_whole_single(k as nat);
    lemma_floor_again(k as nat);
    if x.parts().key > 0 {
        assert(x.rounded() == F32::of_whole(k as nat));
    } else {
        lemma_before_point(x);
    }
}

/// The fitted frame is as large as the scale makes it, to the closest pixel; and
/// where its place is wanted in fractions, the bars are what is left, half on
/// each side.
pub proof fn law_fitted_frame_is_scaled(width: u32, height: u32, side: u32)
    requires
        0 < width < 0x1_0000,
        0 < height < 0x1_0000,
        0 < side < 0x1_0000,
    ensures
        ({
            let b = fitted(width, height, side);
            let s = val(fitting_scale(width, height, side));
            let e = fitted_elsewhere(width, height, side);
            &&& b.scale == fitting_scale(width, height, side) && e.0 == b.scale
            &&& 100 as real * size(b.width as real - s * width as real) <= 51 as real
            &&& 100 as real * size(b.height as real - s * height as real) <= 51 as real
            &&& e.1.finite() && e.2.finite()
            &&& 0x40 as real * size(2 as real * val(e.1) + b.width as real - side as real)
                <= 1 as real
            &&& 0x40 as real * size(2 as real * val(e.2) + b.height as real - side as real)
                <= 1 as real
        }),
{
    law_scale_fits_the_longer_side(width, height, side);
    let s = fitting_scale(width, height, side);
    lemma_val(s);
    lemma_nothing(width as real);
    lemma_nothing(height as real);
    if val(s) <= 0 as real {
        lemma_scaled(val(s), 0 as real, width as real);
        lemma_scaled(val(s), 0 as real, height as real);
    }
    lemma_one_side(width, s, side);
    lemma_one_side(height, s, side);
}

/// One side of a fitted frame.
proof fn lemma_one_side(extent: u32, scale: F32, side: u32)
    requires
        0 < extent < 0x1_0000,
        0 < side < 0x1_0000,
        scale.finite() && !scale.parts().neg,
        (0 as real) < val(scale),
        0x10_0000 as real * (val(scale) * extent as real) <= 0x10_0000 as real * side as real
            + side as real,
    ensures
        ({
            let r = F32::of_whole(extent as nat).times(scale).rounded();
            let k = r.before_point();
            let pad = F32::of_whole(side as nat).minus(r).over(F32 { bits: TWO });
            &&& 100 as real * size(k as real - val(scale) * extent as real) <= 51 as real
            &&& pad.finite()
            &&& 0x40 as real * size(2 as real * val(pad) + k as real - side as real) <= 1 as real
        }),
{
    lemma_speck();
    lemma_small_constants();
    lemma_whole_single(extent as nat);
    lemma_whole_single(side as nat);
    let (a, two) = (F32::of_whole(extent as nat), F32 { bits: TWO });
    let x = extent as real * val(scale);
    lemma_swap(extent as real, val(scale));
    lemma_val(scale);
    lemma_scaled(0 as real, val(scale), extent as real);
    lemma_nothing(extent as real);
    lemma_times(a, scale);
    let p = a.times(scale);
    lemma_relative(val(p), x);
    lemma_last_place(size(x));
    lemma_not_negative(a, scale);
    lemma_val(p);
    if p.parts().neg {
        lemma_rounds_to_nothing(p);
    } else {
        lemma_rounded(p);
    }
    let r = p.rounded();
    let b = F32::of_whole(side as nat);
    lemma_minus(b, r);
    let d = b.minus(r);
    lemma_relative(val(d), side as real - val(r));
    lemma_last_place(size(side as real - val(r)));
    lemma_over(d, two);
    lemma_relative(val(d.over(two)), val(d) / 2 as real);
    lemma_last_place(size(val(d) / 2 as real));
}

/// A zero with a sign rounds to nothing.
proof fn lemma_rounds_to_nothing(p: F32)
    requires
        p.finite(),
        p.parts().neg,
        val(p) == 0 as real,
    ensures
        p.rounded() == p,
        p.rounded().before_point() == 0,
{
    lemma_val(p);
}

} // verus!
