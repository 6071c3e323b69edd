//! What holds of a calibration that is scaled to frames of another size.
use crate::algebra::{lemma_nothing, lemma_spread_out, lemma_swap, lemma_three, lemma_ulp};
use crate::calibration::CameraParams;
use crate::double::F64;
use crate::lens_laws::lemma_relative;
use crate::mono_core::rescaled;
use crate::radius_laws::{lemma_scaled, lemma_size_bounded, lemma_size_times, lemma_unscaled};
use crate::real_laws::{lemma_over, lemma_speck, lemma_times, size, speck, ulp, val};
use crate::round_trip_laws::lemma_quotient;
use crate::value_laws::lemma_whole;
use vstd::prelude::*;

verus! {

/// A length of a lens, in pixels, that is nowhere near the end of the numbers.
pub open spec fn ordinary_length(x: F64) -> bool {
    x.finite() && size(val(x)) <= 0x100_0000_0000 as real
}

/// A length of a lens was scaled by `to / from`, as far as rounding goes.
pub open spec fn in_proportion(after: F64, before: F64, to: u32, from: u32) -> bool {
    after.finite() && 0x4_0000_0000_0000 as real * size(
        val(after) * from as real - val(before) * to as real,
    ) <= size(val(before)) * to as real + 1 as real
}

/// A product of three factors where the last is at most one over a bound.
proof fn lemma_faint(a: real, b: real, k: real)
    requires
        0 as real <= a <= 0x400_0000_0000 as real,
        0 as real <= b <= 0x1_0000_0000 as real,
        (0 as real) < k,
        k * (0x1_0000_0000_0000_0000_0000_0000_0000_0000 as real) <= 1 as real,
    ensures
        0 as real <= a * (b * k),
        0x8_0000_0000_0000 as real * (a * (b * k)) <= 1 as real,
        0 as real <= b * k,
        0x8_0000_0000_0000 as real * (b * k) <= 1 as real,
{
    let bk = b * k;
    lemma_scaled(b, 0x1_0000_0000 as real, k);
    lemma_scaled(0 as real, b, k);
    lemma_nothing(k);
    lemma_scaled(a, 0x400_0000_0000 as real, bk);
    lemma_scaled(0 as real, a, bk);
    lemma_nothing(bk);
}

/// A rounded ratio of widths times the old width.
proof fn lemma_ratio(to: u32, from: u32)
    requires
        from > 0,
    ensures
        ({
            let scale = F64::of_whole(to as nat).over(F64::of_whole(from as nat));
            let (t, f) = (to as real, from as real);
            &&& scale.finite()
            &&& size(val(scale) * f - t) <= t * ulp() + f * speck()
            &&& size(val(scale)) <= t + t * ulp() + speck()
        }),
{
    lemma_speck();
    lemma_whole(to as nat);
    lemma_whole(from as nat);
    let (t, f) = (to as real, from as real);
    let (a, b) = (F64::of_whole(to as nat), F64::of_whole(from as nat));
    let ratio = t / f;
    lemma_quotient(t, f);
    lemma_nothing(f);
    lemma_nothing(ratio);
    lemma_unscaled(0 as real, ratio, f);
    lemma_scaled(1 as real, f, ratio);
    lemma_over(a, b);
    let (s, w, k) = (val(a.over(b)), ulp(), speck());
    lemma_relative(s, ratio);
    lemma_scaled(ratio, t, w);
    let d = s - ratio;
    lemma_spread_out(s, ratio, f);
    lemma_spread_out(ratio * w, k, f);
    lemma_three(ratio, w, f);
    lemma_swap(f, k);
    lemma_size_times(d, f);
    lemma_scaled(size(d), ratio * w + k, f);
}

/// What is lost altogether.
proof fn lemma_lost(lost: real, xt: real, xtw: real, fk: real, xfk: real, bw: real, big: real)
    requires
        size(lost) <= bw + fk + xtw + xfk,
        bw * 0x10_0000_0000_0000 as real == big,
        big <= xt + xtw + xfk,
        xtw * 0x10_0000_0000_0000 as real == xt,
        xt >= 0 as real,
        0x8_0000_0000_0000 as real * fk <= 1 as real,
        0x10_0000_0000_0000 as real * xfk <= 1 as real,
    ensures
        0x4_0000_0000_0000 as real * size(lost) <= xt + 1 as real,
{
}

/// A product off by rounding, times the old width.
proof fn lemma_scaled_length(x: real, s: real, r: real, t: real, f: real, k: real)
    requires
        size(x) <= 0x100_0000_0000 as real,
        1 as real <= f <= 0x1_0000_0000 as real,
        0 as real <= t,
        size(s * f - t) <= t * ulp() + f * k,
        size(r - x * s) <= size(x * s) * ulp() + k,
        (0 as real) < k,
        k * (0x1_0000_0000_0000_0000_0000_0000_0000_0000 as real) <= 1 as real,
    ensures
        0x4_0000_0000_0000 as real * size(r * f - x * t) <= size(x) * t + 1 as real,
{
    let (w, xs, fk) = (ulp(), size(x), f * k);
    let (d, e, sf) = (s * f - t, r - x * s, s * f);
    let tw = t * w;
    let (xt, xtw, xfk, big) = (xs * t, xs * tw, xs * fk, xs * size(sf));
    let bw = big * w;
    lemma_faint(2 as real * xs, f, k);
    lemma_size_times(x, s);
    lemma_size_times(s, f);
    lemma_size_times(e, f);
    lemma_size_times(x, d);
    lemma_scaled(size(e), size(x * s) * w + k, f);
    lemma_scaled(size(d), tw + fk, xs);
    lemma_scaled(size(sf), t + (tw + fk), xs);
    lemma_scaled(0 as real, t, xs);
    lemma_nothing(xs);
    let (ss, xss) = (size(s), size(x * s));
    // The first loss times the old width.
    lemma_spread_out(xss * w, k, f);
    lemma_three(xss, w, f);
    lemma_three(xs, ss, f);
    lemma_swap(f, k);
    assert((xss * w + k) * f == bw + fk);
    // Both losses make up what is lost.
    lemma_spread_out(r, x * s, f);
    lemma_three(x, s, f);
    lemma_spread_out(s * f, t, x);
    assert(e * f + x * d == r * f - x * t);
    lemma_spread_out(tw, fk, xs);
    lemma_spread_out(t, tw + fk, xs);
    lemma_ulp(t);
    lemma_ulp(big);
    lemma_ulp(xt);
    lemma_three(xs, t, w);
    lemma_three(2 as real, xs, fk);
    lemma_lost(r * f - x * t, xt, xtw, fk, xfk, bw, big);
}

/// One length of a lens times a rounded ratio of widths.
proof fn lemma_in_proportion(c: F64, to: u32, from: u32)
    requires
        ordinary_length(c),
        from > 0,
    ensures
        in_proportion(
            c.times(F64::of_whole(to as nat).over(F64::of_whole(from as nat))),
            c,
            to,
            from,
        ),
{
    lemma_speck();
    let (t, f) = (to as real, from as real);
    let scale = F64::of_whole(to as nat).over(F64::of_whole(from as nat));
    lemma_ratio(to, from);
    lemma_ulp(t);
    let (x, s) = (val(c), val(scale));
    lemma_size_bounded(x, 0x100_0000_0000 as real, s, 0x4_0000_0000 as real);
    lemma_times(c, scale);
    lemma_relative(val(c.times(scale)), x * s);
    lemma_scaled_length(x, s, val(c.times(scale)), t, f, speck());
}

/// For frames of another size, each of the four lengths of a lens is the
/// calibration's own times the new width over the old one, and the distortion
/// is the calibration's own.
pub proof fn law_lengths_grow_with_the_width(camera: CameraParams, width: u32, height: u32)
    requires
        camera.width > 0,
        camera.width != width || camera.height != height,
        ordinary_length(camera.fx),
        ordinary_length(camera.fy),
        ordinary_length(camera.cx),
        ordinary_length(camera.cy),
    ensures
        ({
            let r = rescaled(camera, width, height);
            &&& r.width == width && r.height == height
            &&& in_proportion(r.fx, camera.fx, width, camera.width)
            &&& in_proportion(r.fy, camera.fy, width, camera.width)
            &&& in_proportion(r.cx, camera.cx, width, camera.width)
            &&& in_proportion(r.cy, camera.cy, width, camera.width)
            &&& r.d == camera.d
        }),
{
    lemma_in_proportion(camera.fx, width, camera.width);
    lemma_in_proportion(camera.fy, width, camera.width);
    lemma_in_proportion(camera.cx, width, camera.width);
    lemma_in_proportion(camera.cy, width, camera.width);
}

/// A length that grew with the width grew with the height, if the aspect was
/// kept.
proof fn lemma_with_the_height(after: real, before: real, w: real, h: real, to_w: real, to_h: real)
    requires
        w > 0 as real,
        h > 0 as real,
        to_w * h == to_h * w,
        0x4_0000_0000_0000 as real * size(after * w - before * to_w) <= size(before) * to_w
            + 1 as real,
    ensures
        (0x4_0000_0000_0000 as real * size(after * h - before * to_h)) * w <= (size(before) * to_w
            + 1 as real) * h,
{
    let (d, e) = (after * w - before * to_w, after * h - before * to_h);
    lemma_spread_out(after * w, before * to_w, h);
    lemma_spread_out(after * h, before * to_h, w);
    lemma_three(after, w, h);
    lemma_three(before, to_w, h);
    lemma_three(before, to_h, w);
    assert(d * h == e * w);
    lemma_size_times(d, h);
    lemma_size_times(e, w);
    let b = 0x4_0000_0000_0000 as real;
    lemma_three(b, size(d), h);
    lemma_three(b, size(e), w);
    lemma_scaled(b * size(d), size(before) * to_w + 1 as real, h);
}

/// With the aspect kept, the lens in fractions of the frame is the
/// calibration's, so that a pixel given as fractions keeps its ray: across as a
/// fraction of the width, and down as a fraction of the height.
pub proof fn law_rescaled_lens_keeps_rays(camera: CameraParams, width: u32, height: u32)
    requires
        camera.width > 0,
        camera.height > 0,
        width as real * camera.height as real == height as real * camera.width as real,
        camera.width != width || camera.height != height,
        ordinary_length(camera.fx),
        ordinary_length(camera.fy),
        ordinary_length(camera.cx),
        ordinary_length(camera.cy),
    ensures
        ({
            let r = rescaled(camera, width, height);
            let n = 0x4_0000_0000_0000 as real;
            let (w, h) = (camera.width as real, camera.height as real);
            let (tw, th) = (width as real, height as real);
            &&& n * size(val(r.fx) * w - val(camera.fx) * tw) <= size(val(camera.fx)) * tw
                + 1 as real
            &&& n * size(val(r.cx) * w - val(camera.cx) * tw) <= size(val(camera.cx)) * tw
                + 1 as real
            &&& (n * size(val(r.fy) * h - val(camera.fy) * th)) * w <= (size(val(camera.fy)) * tw
                + 1 as real) * h
            &&& (n * size(val(r.cy) * h - val(camera.cy) * th)) * w <= (size(val(camera.cy)) * tw
                + 1 as real) * h
        }),
{
    law_lengths_grow_with_the_width(camera, width, height);
    let r = rescaled(camera, width, height);
    let (w, h) = (camera.width as real, camera.height as real);
    let (tw, th) = (width as real, height as real);
    lemma_with_the_height(val(r.fy), val(camera.fy), w, h, tw, th);
    lemma_with_the_height(val(r.cy), val(camera.cy), w, h, tw, th);
}

} // verus!
