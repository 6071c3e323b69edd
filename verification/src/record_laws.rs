//! Smaller promises: how angles are shown, how bounds shrink, what is pooled,
//! placed, timed and rated.
use crate::algebra::{lemma_nothing, lemma_spread_out, lemma_swap, lemma_three};
use crate::cluster::keep_count;
use crate::detect_target::{all_placed, Detection};
use crate::detector_laws::lemma_ratio_times;
use crate::double::F64;
use crate::follow_laws::{fraction, lemma_not_negative};
use crate::kb4::{even_powers, growth_at, one_and_terms, shown_at, ODD, ONE};
use crate::lens_laws::{
    lemma_dyadic, lemma_odd, lemma_one, lemma_powers, lemma_shown_near, lemma_term, lemma_tick,
    mild, near, tick,
};
use crate::mono_core::{cylinder_for, inset};
use crate::mono_job::{sensible_rate, FailedPart, JobReply, JobRun, JobStep};
use crate::near_laws::{
    lemma_last_place, lemma_nigh_minus, lemma_nigh_plus, lemma_notch, lemma_relative, nigh, notch,
};
use crate::panner_config::FieldPannerConfig;
use crate::pipeline::ViewportConfig;
use crate::radius_laws::{
    lemma_scaled, lemma_size_bounded, lemma_size_times, lemma_square, lemma_unscaled,
};
use crate::real_laws::{self, size};
use crate::real_single_laws::{
    lemma_speck, lemma_times, lemma_val, lemma_val_ordered, speck, ulp, val,
};
use crate::replay::Duration;
use crate::rounding::{lemma_rung_in_binade, Format};
use crate::single::F32;
use crate::stereo::{
    confidence_of, counted, pooled, FrameMatches, MatchedPoint, FULL_CONFIDENCE_MATCHES, ONE_DOUBLE,
};
use crate::stitch_core::{ClampedPosition, StitchCore};
use crate::value_laws::{lemma_small_constants, lemma_whole, lemma_whole_single};
use crate::viewport::HALF;
use crate::world::ViewportPosition;
use vstd::arithmetic::div_mod::lemma_fundamental_div_mod;
use vstd::arithmetic::power2::{
    lemma2_to64, lemma2_to64_rest, lemma_pow2_adds, lemma_pow2_pos, pow2,
};
use vstd::prelude::*;

verus! {

/// A lens shows an angle at the angle itself times one and its even powers, each
/// by its coefficient.
pub proof fn law_lens_shows_the_polynomial(theta: F64, k: Seq<F64>)
    requires
        theta.finite(),
        size(real_laws::val(theta)) <= 111 as real / 100 as real,
        mild(k),
    ensures
        ({
            let t = real_laws::val(theta);
            let t2 = t * t;
            let t4 = t2 * t2;
            near(
                shown_at(theta, k),
                t * (1 as real + real_laws::val(k[0]) * t2 + real_laws::val(k[1]) * t4
                    + real_laws::val(k[2]) * (t4 * t2) + real_laws::val(k[3]) * (t4 * t4)),
                20 as real * tick(),
            )
        }),
{
    lemma_shown_near(theta, k, real_laws::val(theta), 0 as real);
}

/// The coefficients are at most a sixteenth.
pub open spec fn mild_growth(k: Seq<F64>) -> bool {
    k.len() == 4 && forall|i: int|
        0 <= i < 4 ==> (#[trigger] k[i]).finite() && 16 as real * size(real_laws::val(k[i]))
            <= 1 as real
}

/// An odd number times a coefficient.
proof fn lemma_odd_times(i: int, k: F64)
    requires
        0 <= i < 4,
        k.finite(),
        16 as real * size(real_laws::val(k)) <= 1 as real,
    ensures
        ({
            let c = (F64 { bits: ODD[i] }).times(k);
            &&& c.finite()
            &&& size(real_laws::val(c)) <= 5 as real / 8 as real
            &&& size(real_laws::val(c) - (2 * i + 3) as real * real_laws::val(k)) <= tick()
        }),
{
    lemma_odd();
    let o = F64 { bits: ODD[i] };
    let (a, b) = (real_laws::val(o), real_laws::val(k));
    assert(a == (2 * i + 3) as real);
    lemma_size_times(a, b);
    lemma_scaled(a, 9 as real, size(b));
    real_laws::lemma_times(o, k);
    lemma_tick(real_laws::val(o.times(k)), a * b);
}

/// How fast what a lens shows grows with the angle: the slope of its polynomial.
pub proof fn law_growth_is_the_slope(theta: F64, k: Seq<F64>)
    requires
        theta.finite(),
        size(real_laws::val(theta)) <= 1 as real,
        mild_growth(k),
    ensures
        ({
            let t = real_laws::val(theta);
            let t2 = t * t;
            let t4 = t2 * t2;
            let (a, b, c, d) = (
                3 as real * real_laws::val(k[0]),
                5 as real * real_laws::val(k[1]),
                7 as real * real_laws::val(k[2]),
                9 as real * real_laws::val(k[3]),
            );
            near(
                growth_at(theta, k),
                1 as real + a * t2 + b * t4 + c * (t4 * t2) + d * (t4 * t4),
                100 as real * tick(),
            )
        }),
{
    let (p, t) = (even_powers(theta), real_laws::val(theta));
    let t2 = t * t;
    let t4 = t2 * t2;
    let (t6, t8) = (t4 * t2, t4 * t4);
    lemma_powers(theta, t, 0 as real);
    lemma_small_powers(t);
    lemma_one();
    let f = Seq::new(4, |i: int| (F64 { bits: ODD[i] }).times(k[i]));
    assert(k[0].finite() && k[1].finite() && k[2].finite() && k[3].finite());
    lemma_odd_times(0, k[0]);
    lemma_odd_times(1, k[1]);
    lemma_odd_times(2, k[2]);
    lemma_odd_times(3, k[3]);
    reveal_with_fuel(one_and_terms, 5);
    let one = 1 as real;
    let tk = tick();
    let s0 = F64 { bits: ONE };
    let s1 = s0.plus(f[0].times(p[0]));
    let s2 = s1.plus(f[1].times(p[1]));
    let s3 = s2.plus(f[2].times(p[2]));
    let s4 = s3.plus(f[3].times(p[3]));
    assert(growth_at(theta, k) == s4);
    lemma_slope_step(s0, one, 0 as real, f[0], 3 as real * real_laws::val(k[0]), p[0], t2);
    let y1 = one + (3 as real * real_laws::val(k[0])) * t2;
    lemma_slope_step(s1, y1, 25 as real * tk, f[1], 5 as real * real_laws::val(k[1]), p[1], t4);
    let y2 = y1 + (5 as real * real_laws::val(k[1])) * t4;
    lemma_slope_step(s2, y2, 50 as real * tk, f[2], 7 as real * real_laws::val(k[2]), p[2], t6);
    let y3 = y2 + (7 as real * real_laws::val(k[2])) * t6;
    lemma_slope_step(s3, y3, 75 as real * tk, f[3], 9 as real * real_laws::val(k[3]), p[3], t8);
}

/// The even powers of an angle of at most one.
proof fn lemma_small_powers(t: real)
    requires
        size(t) <= 1 as real,
    ensures
        ({
            let t2 = t * t;
            let t4 = t2 * t2;
            &&& 0 as real <= t2 <= 1 as real
            &&& 0 as real <= t4 <= 1 as real
            &&& 0 as real <= t4 * t2 <= 1 as real
            &&& 0 as real <= t4 * t4 <= 1 as real
        }),
{
    let t2 = t * t;
    let t4 = t2 * t2;
    lemma_square(t);
    lemma_size_bounded(t, 1 as real, t, 1 as real);
    lemma_nothing(1 as real);
    lemma_square(t2);
    lemma_size_bounded(t2, 1 as real, t2, 1 as real);
    lemma_scaled(0 as real, t4, t2);
    lemma_nothing(t2);
    lemma_scaled(t4, 1 as real, t2);
    lemma_square(t4);
    lemma_size_bounded(t4, 1 as real, t4, 1 as real);
}

/// One term of the slope.
proof fn lemma_slope_step(s: F64, y: real, e: real, f: F64, c: real, power: F64, t: real)
    requires
        near(s, y, e),
        0 as real <= e <= 75 as real * tick(),
        size(y) <= 3 as real,
        f.finite(),
        size(real_laws::val(f)) <= 5 as real / 8 as real,
        size(real_laws::val(f) - c) <= tick(),
        near(power, t, 20 as real * tick()),
        0 as real <= t <= 1 as real,
    ensures
        near(s.plus(f.times(power)), y + c * t, e + 25 as real * tick()),
        size(y + c * t) <= size(y) + 2 as real / 3 as real,
{
    let v = real_laws::val(f);
    lemma_term(s, y, e, f, v, power, t, 20 as real * tick(), 2 as real);
    lemma_scaled(size(v), 1 as real, 20 as real * tick());
    lemma_spread_out(v, c, t);
    lemma_size_times(v - c, t);
    lemma_scaled(t, 1 as real, size(v - c));
    lemma_nothing(size(v - c));
    lemma_size_times(c, t);
    lemma_scaled(t, 1 as real, size(c));
    lemma_nothing(size(c));
    lemma_nothing(20 as real * tick());
}

/// Bounds are moved in by the margin on both sides; where nothing is left between
/// them, both are the middle.
pub proof fn law_bounds_are_moved_in(range: (F32, F32), margin: F32)
    requires
        range.0.finite() && range.1.finite() && margin.finite(),
        size(val(range.0)) <= 8 as real && size(val(range.1)) <= 8 as real,
        size(val(margin)) <= 8 as real,
    ensures
        ({
            let (r, m) = (inset(range, margin), val(margin));
            let (lo, hi) = (val(range.0) + m, val(range.1) - m);
            let e = 4 as real * notch();
            &&& r.0.finite() && r.1.finite()
            &&& lo + e <= hi ==> nigh(r.0, lo, e) && nigh(r.1, hi, e)
            &&& lo > hi + e ==> r.0 == r.1 && nigh(
                r.0,
                (val(range.0) + val(range.1)) / 2 as real,
                e,
            )
        }),
{
    lemma_small_constants();
    let m = val(margin);
    lemma_nigh_plus(range.0, val(range.0), 0 as real, margin, m, 0 as real);
    lemma_nigh_minus(range.1, val(range.1), 0 as real, margin, m, 0 as real);
    let (lo, hi) = (range.0.plus(margin), range.1.minus(margin));
    let half = F32 { bits: HALF };
    lemma_val_ordered(lo, hi);
    lemma_nigh_plus(lo, val(range.0) + m, notch(), hi, val(range.1) - m, notch());
    let s = lo.plus(hi);
    lemma_times(s, half);
    lemma_three(val(s), val(half), 2 as real);
    lemma_nothing(val(s));
    lemma_notch(val(s.times(half)), val(s) * val(half));
}

/// The frame pairs that count are those that gave something, in order; and all
/// their points are pooled, one pair behind the other.
pub proof fn law_all_matches_are_pooled(
    results: Seq<Option<FrameMatches>>,
    frames: Seq<FrameMatches>,
    f: FrameMatches,
)
    ensures
        counted(results) == results.filter(|r: Option<FrameMatches>| r is Some).map_values(
            |r: Option<FrameMatches>| r->0,
        ),
        pooled(Seq::empty()) == Seq::<MatchedPoint>::empty(),
        pooled(frames.push(f)) == pooled(frames) + f.points@,
    decreases results.len(),
{
    reveal(Seq::filter);
    if results.len() > 0 {
        law_all_matches_are_pooled(results.drop_last(), frames, f);
    }
    assert(counted(results) =~= results.filter(
        |r: Option<FrameMatches>| r is Some,
    ).map_values(|r: Option<FrameMatches>| r->0));
    assert(frames.push(f).drop_last() =~= frames);
}

/// Confidence grows with the matches, a fiftieth for each, up to one.
pub proof fn law_confidence_grows(n: nat)
    requires
        n <= 50,
    ensures
        confidence_of(n).finite(),
        size(real_laws::val(confidence_of(n)) * 50 as real - n as real) <= 100 as real * tick(),
{
    let fifty = F64 { bits: FULL_CONFIDENCE_MATCHES };
    let one = F64 { bits: ONE_DOUBLE };
    lemma_whole(n);
    lemma_one();
    lemma2_to64();
    lemma2_to64_rest();
    lemma_dyadic(fifty, 1027, 0x19_0000_0000_0000);
    assert(real_laws::val(fifty) * 0x8000_0000_0000 as real == 0x19_0000_0000_0000 as real);
    assert(real_laws::val(fifty) == 50 as real);
    let a = F64::of_whole(n);
    real_laws::lemma_over(a, fifty);
    let r = a.over(fifty);
    lemma_tick(real_laws::val(r), n as real / 50 as real);
    real_laws::lemma_val_ordered(one, r);
}

/// What is placed keeps everything that was detected of it: camera, class,
/// confidence, center and size, each with the position of the same number.
pub proof fn law_placed_keep_their_detection(
    detections: Seq<Detection>,
    positions: Seq<Option<ViewportPosition>>,
    i: int,
)
    requires
        0 <= i < detections.len(),
    ensures
        all_placed(detections, positions).len() == detections.len(),
        ({
            let (d, m) = (detections[i], all_placed(detections, positions)[i]);
            &&& m.camera == d.camera && m.class_id == d.class_id && m.confidence == d.confidence
            &&& m.camera_center.0 == d.center_x && m.camera_center.1 == d.center_y
            &&& m.camera_size.0 == d.width && m.camera_size.1 == d.height
            &&& m.position == positions[i]
        }),
{
}

/// The picture's ratio times its height is its width.
pub proof fn law_ratio_is_of_the_picture(v: ViewportConfig)
    requires
        0 < v.width < 0x1_0000,
        0 < v.height < 0x1_0000,
    ensures
        v.ratio().finite(),
        0x10_0000 as real * size(val(v.ratio()) * v.height as real - v.width as real)
            <= v.width as real,
{
    lemma_ratio_times(v.width, v.height);
}

/// The painted height of a single camera's cylinder: to the arc that the frame
/// is painted on it is as the height of the frame to its width.
pub proof fn law_cylinder_keeps_the_aspect(width: u32, height: u32)
    requires
        0 < width < 0x1_0000,
        0 < height < 0x1_0000,
    ensures
        ({
            let c = cylinder_for(width, height);
            let arc = val(c.focal_length) * val(c.angular_sweep_rad);
            &&& c.video_height.finite()
            &&& arc >= 1 as real
            &&& 0x1_0000 as real * size(val(c.video_height) * width as real - arc * height as real)
                <= arc * height as real
            &&& c.screen_rotation_rad == (F32 { bits: 0 })
        }),
{
    lemma_speck();
    let c = cylinder_for(width, height);
    let (a, b) = (c.focal_length, c.angular_sweep_rad);
    lemma_arc();
    let arc = val(a) * val(b);
    lemma_times(a, b);
    let p = a.times(b);
    lemma_relative(val(p), arc);
    lemma_last_place(arc);
    lemma_ratio_times(height, width);
    let r = F32::of_whole(height as nat).over(F32::of_whole(width as nat));
    let (w, h) = (width as real, height as real);
    lemma_painted(val(p), val(r), arc, w, h);
    lemma_times(p, r);
    let v = val(p.times(r));
    let x = val(p) * val(r);
    lemma_relative(v, x);
    lemma_last_place(size(x));
    lemma_painted_height(v, x, arc, w, h);
}

/// The arc is a number between one and a million.
proof fn lemma_arc()
    ensures
        ({
            let (a, b) = (F32 { bits: 0x4516_0000 }, F32 { bits: 0x4049_0FDB });
            &&& a.finite() && b.finite()
            &&& 1 as real <= val(a) * val(b) <= 0x10_0000 as real
        }),
{
    let (a, b, one) = (
        F32 { bits: 0x4516_0000 },
        F32 { bits: 0x4049_0FDB },
        F32 { bits: 0x3F80_0000 },
    );
    lemma_small_constants();
    lemma_val(a);
    lemma_val(b);
    lemma_val_ordered(one, a);
    lemma_val_ordered(one, b);
    lemma_scaled(1 as real, val(a), val(b));
    lemma_nothing(val(b));
    lemma_bound(a, b);
}

/// Both factors are below 4096 and eight.
proof fn lemma_bound(a: F32, b: F32)
    requires
        a.bits == 0x4516_0000,
        b.bits == 0x4049_0FDB,
    ensures
        a.finite() && b.finite(),
        val(a) * val(b) <= 0x10_0000 as real,
{
    lemma_speck();
    lemma2_to64();
    lemma2_to64_rest();
    let (c, d) = (F32 { bits: 0x4580_0000 }, F32 { bits: 0x4100_0000 });
    lemma_power_value(c, 138, 12);
    lemma_power_value(d, 129, 3);
    lemma_val_ordered(a, c);
    lemma_val_ordered(b, d);
    lemma_val(a);
    lemma_val(b);
    lemma_scaled(val(a), 4096 as real, val(b));
    lemma_scaled(val(b), 8 as real, 4096 as real);
}

/// A power of two.
proof fn lemma_power_value(c: F32, t: nat, e: nat)
    requires
        t == 126 + e,
        e <= 20,
        c.bits == (t + 1) * 0x80_0000,
    ensures
        c.finite(),
        val(c) == pow2(e) as real,
{
    lemma_speck();
    lemma2_to64();
    lemma2_to64_rest();
    lemma_rung_in_binade(23, t, 0x80_0000);
    lemma_pow2_adds(23, t);
    lemma_pow2_adds(e, 149);
    lemma_val(c);
    let u = pow2(149) as real;
    let p = pow2(e);
    let g = pow2(149);
    assert((p * g) as real == p as real * u) by (nonlinear_arith)
        requires
            u == g as real,
    ;
    lemma_unscaled(val(c), p as real, u);
    lemma_unscaled(p as real, val(c), u);
}

/// A rounded arc times a rounded ratio, times the width.
proof fn lemma_painted(p: real, r: real, arc: real, w: real, h: real)
    requires
        1 as real <= arc <= 0x10_0000 as real,
        size(p - arc) <= arc * ulp() + speck(),
        0x10_0000 as real * size(r * w - h) <= h,
        1 as real <= w <= 0x1_0000 as real,
        1 as real <= h <= 0x1_0000 as real,
    ensures
        0x4_0000 as real * size((p * r) * w - arc * h) <= arc * h,
        size(p * r) <= 0x2_0000_0000_0000 as real,
{
    lemma_speck();
    lemma_last_place(arc);
    let (d, e, rw) = (p - arc, r * w - h, r * w);
    lemma_three(p, r, w);
    lemma_spread_out(p, arc, rw);
    lemma_spread_out(rw, h, arc);
    assert((p * r) * w - arc * h == d * rw + arc * e);
    lemma_size_times(d, rw);
    lemma_size_times(arc, e);
    let small = arc / 0x40_0000 as real;
    assert(size(d) <= small);
    lemma_scaled(size(d), small, size(rw));
    lemma_scaled(size(rw), 2 as real * h, small);
    lemma_three(arc, 1 as real / 0x40_0000 as real, h);
    let ah = arc * h;
    assert(small * (2 as real * h) == ah / 0x20_0000 as real) by {
        lemma_part_of_product(arc, h);
    }
    lemma_scaled(size(e), h / 0x10_0000 as real, arc);
    assert(arc * (h / 0x10_0000 as real) == ah / 0x10_0000 as real) by {
        lemma_part_of_product(arc, h);
    }
    // The bound of the product without the width.
    lemma_size_times(r, w);
    lemma_scaled(1 as real, w, size(r));
    lemma_nothing(size(r));
    lemma_size_bounded(p, 0x20_0000 as real, r, 0x2_0000 as real);
}

/// Parts of a product.
proof fn lemma_part_of_product(a: real, h: real)
    ensures
        (a / 0x40_0000 as real) * (2 as real * h) == (a * h) / 0x20_0000 as real,
        a * (h / 0x10_0000 as real) == (a * h) / 0x10_0000 as real,
{
    let (s, t) = (a / 0x40_0000 as real, h / 0x10_0000 as real);
    lemma_three(0x40_0000 as real, s, h);
    lemma_three(s, 2 as real, h);
    lemma_three(a, t, 0x10_0000 as real);
    lemma_swap(s, 2 as real);
    lemma_three(2 as real, s, h);
}

/// The last rounding.
proof fn lemma_painted_height(v: real, x: real, arc: real, w: real, h: real)
    requires
        size(v - x) <= size(x) * ulp() + speck(),
        0x4_0000 as real * size(x * w - arc * h) <= arc * h,
        1 as real <= arc,
        1 as real <= w <= 0x1_0000 as real,
        1 as real <= h,
    ensures
        0x1_0000 as real * size(v * w - arc * h) <= arc * h,
{
    lemma_speck();
    let (d, ah) = (v - x, arc * h);
    lemma_spread_out(v, x, w);
    lemma_size_times(d, w);
    lemma_size_times(x, w);
    lemma_scaled(size(d), size(x) * ulp() + speck(), w);
    lemma_spread_out(size(x) * ulp(), speck(), w);
    lemma_three(size(x), ulp(), w);
    lemma_last_place(size(x * w));
    lemma_scaled(w, 0x1_0000 as real, speck());
    lemma_scaled(1 as real, arc, h);
    lemma_nothing(h);
    assert(speck() * w <= 1 as real / 0x100_0000 as real);
}

/// A rate of frames is kept if it is one, and else taken to be thirty a second.
pub proof fn law_rates_are_sensible(rate: (i32, i32))
    ensures
        sensible_rate(rate).0 > 0 && sensible_rate(rate).1 > 0,
        rate.0 > 0 && rate.1 > 0 ==> sensible_rate(rate) == rate,
        rate.0 <= 0 || rate.1 <= 0 ==> sensible_rate(rate) == (30i32, 1i32),
{
}

/// A job goes round until its input ends: each decoded frame is submitted, each
/// finished picture written, and then what is left is flushed and written; what
/// fails ends it, with the part that failed.
pub proof fn law_job_goes_round(run: JobRun, reply: JobReply)
    requires
        !run.over(),
        run.step != JobStep::Hook,
    ensures
        ({
            let next = run.next_step(reply);
            let yes = reply == JobReply::Yes;
            &&& reply == JobReply::Error ==> {
                &&& run.step == JobStep::Poll || run.step == JobStep::Decode ==> next
                    == JobStep::Failed(FailedPart::Decode)
                &&& run.step == JobStep::Submit || run.step == JobStep::Flush ==> next
                    == JobStep::Failed(FailedPart::Core)
                &&& run.step == JobStep::Write || run.step == JobStep::WriteFlushed ==> next
                    == JobStep::Failed(FailedPart::Encoder)
            }
            &&& reply != JobReply::Error ==> {
                &&& run.step == JobStep::Open ==> next == JobStep::Poll
                &&& run.step == JobStep::Poll ==> (next == JobStep::Flush <==> yes) && (next
                    == JobStep::Decode <==> !yes)
                &&& run.step == JobStep::Decode ==> (next == JobStep::Submit <==> yes) && (next
                    == JobStep::Flush <==> !yes)
                &&& run.step == JobStep::Submit ==> (next == JobStep::Write <==> yes) && (next
                    == JobStep::Poll <==> !yes)
                &&& run.step == JobStep::Write ==> next == JobStep::Poll
                &&& run.step == JobStep::Flush ==> (next == JobStep::WriteFlushed <==> yes) && (next
                    == JobStep::Finish <==> !yes)
                &&& run.step == JobStep::WriteFlushed ==> next == JobStep::Flush
                &&& run.step == JobStep::Finish ==> next == JobStep::Done
            }
        }),
{
}

/// A time in seconds is its whole seconds and a thousand-millionth for each of
/// its nanoseconds.
pub proof fn law_time_in_seconds(d: Duration)
    requires
        d.secs <= 4000,
        d.nanos < 1_000_000_000,
    ensures
        near(
            d.seconds_double(),
            d.secs as real + d.nanos as real / 1_000_000_000 as real,
            2 as real * tick(),
        ),
{
    lemma_whole(d.secs as nat);
    lemma_whole(d.nanos as nat);
    lemma_whole(1_000_000_000);
    let (a, b) = (F64::of_whole(d.nanos as nat), F64::of_whole(1_000_000_000));
    let s = F64::of_whole(d.secs as nat);
    real_laws::lemma_over(a, b);
    lemma_tick(
        real_laws::val(a.over(b)),
        d.nanos as real / 1_000_000_000 as real,
    );
    real_laws::lemma_plus(s, a.over(b));
    lemma_tick(
        real_laws::val(s.plus(a.over(b))),
        d.secs as real + real_laws::val(a.over(b)),
    );
}

/// A look that is not held in keeps where it points, and shows no more than the
/// coverage allows: the asked angle of view, or the greatest one if that is less.
pub proof fn law_free_look_keeps_its_place<T, P, D, G>(
    core: StitchCore<T, P, D, G>,
    pose: ViewportPosition,
)
    ensures
        ({
            let free = core.free_pose(pose);
            &&& free.yaw == pose.yaw && free.pitch == pose.pitch
            &&& core.coverage is None || pose.fov_degrees is None ==> free.fov_degrees
                == pose.fov_degrees
            &&& core.coverage is Some && (pose.fov_degrees matches Some(f) && !f.nan()
                && !(core.coverage->0).max_fov.nan()) ==> free.fov_degrees is Some
                && free.fov_degrees->0.at_most(pose.fov_degrees->0) && free.fov_degrees->0.at_most(
                (core.coverage->0).max_fov,
            ) && (free.fov_degrees == pose.fov_degrees || free.fov_degrees == Some(
                (core.coverage->0).max_fov,
            ))
        }),
{
}

/// A look that is held in points where it was moved to, with the rig's tilt taken
/// off.
pub proof fn law_held_look_takes_off_the_tilt<T, P, D, G>(
    core: StitchCore<T, P, D, G>,
    pose: ViewportPosition,
    moved: ClampedPosition,
)
    requires
        core.coverage is Some,
        moved.pitch.finite() && core.pipeline.viewport.rig_tilt.finite(),
        size(val(moved.pitch)) <= 8 as real,
        size(val(core.pipeline.viewport.rig_tilt)) <= 8 as real,
    ensures
        ({
            let held = core.clamped_pose(pose, moved);
            &&& held.yaw == moved.yaw
            &&& held.pitch.finite()
            &&& size(
                val(held.pitch) + val(core.pipeline.viewport.rig_tilt) - val(moved.pitch),
            ) <= notch()
        }),
{
    let (a, b) = (moved.pitch, core.pipeline.viewport.rig_tilt);
    lemma_nigh_minus(a, val(a), 0 as real, b, val(b), 0 as real);
}

/// The closest whole number to a number.
proof fn lemma_to_nearest(x: F32)
    requires
        x.finite(),
        !x.parts().neg,
        val(x) <= 0x10_0000 as real,
    ensures
        2 as real * size(x.to_nearest() as real - val(x)) <= 1 as real,
{
    let u = pow2(149) as int;
    lemma_pow2_pos(149);
    lemma_pow2_adds(1, 149);
    lemma2_to64();
    lemma_val(x);
    let s = x.parts().size(Format::Single);
    let (n, d) = (2 * s + u, 2 * u);
    let k = n / d;
    lemma_fundamental_div_mod(n, d);
    let m = k * u;
    assert(d * k == 2 * m) by (nonlinear_arith)
        requires
            d == 2 * u,
            m == k * u,
    ;
    assert(2 * m <= 2 * s + u < 2 * m + 2 * u);
    let w = u as real;
    assert(m as real == k as real * w) by (nonlinear_arith)
        requires
            m == k * u,
            w == u as real,
    ;
    let (a, b) = (k as real, val(x));
    assert(b * w == s as real);
    lemma_spread_out(2 as real * a, 1 as real, w);
    lemma_spread_out(2 as real * b, 1 as real, w);
    lemma_three(2 as real, a, w);
    lemma_three(2 as real, b, w);
    lemma_nothing(w);
    lemma_unscaled(2 as real * a, 2 as real * b + 1 as real, w);
    lemma_unscaled(2 as real * b, 2 as real * a + 1 as real, w);
    assert(0 <= k <= 0x20_0000) by {
        if k < 0 {
            assert(2 as real * b <= -1 as real);
        }
    }
}

/// How many players are kept: the given share of them, to the closest whole
/// number, but never fewer than a group needs.
pub proof fn law_share_of_players_is_kept(c: FieldPannerConfig, n: nat)
    requires
        c.min_cluster <= n <= 64,
        fraction(c.keep_fraction),
    ensures
        ({
            let (k, share) = (keep_count(c, n) as real, n as real * val(c.keep_fraction));
            &&& c.min_cluster as real + 1 as real <= share ==> size(k - share) <= 2 as real
                / 3 as real
            &&& share + 1 as real <= c.min_cluster as real ==> k == c.min_cluster as real
        }),
{
    let (zero, one) = (F32 { bits: 0 }, F32 { bits: 0x3F80_0000 });
    lemma_small_constants();
    lemma_val(zero);
    lemma_val_ordered(c.keep_fraction, zero);
    lemma_val_ordered(one, c.keep_fraction);
    let share = c.keep_fraction.clamped(zero, one);
    assert(val(share) == val(c.keep_fraction));
    lemma_whole_single(n);
    let a = F32::of_whole(n);
    lemma_scaled(val(share), 1 as real, n as real);
    lemma_scaled(0 as real, val(share), n as real);
    lemma_nothing(n as real);
    lemma_times(a, share);
    let x = a.times(share);
    lemma_notch(val(x), n as real * val(share));
    if val(share) > 0 as real {
        lemma_not_negative(a, share);
    }
    lemma_val(x);
    if !x.parts().neg {
        lemma_to_nearest(x);
    } else {
        assert(val(x) <= 0 as real);
    }
}

} // verus!
