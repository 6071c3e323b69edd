//! What the cost and the error of a solved camera say of its marks, and where
//! the search for one starts.
use crate::algebra::{lemma_nothing, lemma_spread_out, lemma_three, lemma_ulp};
use crate::double::F64;
use crate::lens_laws::{lemma_dyadic, lemma_relative, lemma_tick, near, tick};
use crate::mono_optimizer::{
    camera_of, circle_angle, circle_sum, circle_total, clicks_of, curve_miss_px, curve_miss_sq,
    focal_seed, in_sight, mean_or_infinite, miss_px, miss_sq, miss_sum, miss_total, nudged,
    simplex_vertex, start_at, turn_seeds, PointCorrespondence, Seen, FOV_SEEDS_DEG, HALF,
    HEIGHT_SEEDS_M, INFINITE, LATERAL_SEEDS_M, TAU, ZERO,
};
use crate::radius_laws::{lemma_scaled, lemma_size_times, lemma_square};
use crate::real_laws::{
    lemma_minus, lemma_over, lemma_plus, lemma_speck, lemma_times, lemma_val, lemma_val_ordered,
    size, speck, ulp, val,
};
use crate::round_trip_laws::lemma_quotient;
use crate::value_laws::{lemma_small_constants, lemma_whole};
use vstd::arithmetic::power2::{lemma2_to64, lemma2_to64_rest, lemma_pow2_adds, pow2};
use vstd::prelude::*;

verus! {

/// The square of an offset between two coordinates.
proof fn lemma_offset_squared(x: F64, y: F64)
    requires
        x.finite() && y.finite(),
        size(val(x)) <= 8 as real && size(val(y)) <= 8 as real,
    ensures
        ({
            let (a, d) = (x.minus(y), val(x) - val(y));
            near(a.times(a), d * d, 40 as real * tick()) && 0 as real <= d * d <= 256 as real
        }),
{
    let (a, d) = (x.minus(y), val(x) - val(y));
    lemma_minus(x, y);
    lemma_tick(val(a), d);
    let e = val(a);
    lemma_spread_out(e, d, e);
    lemma_spread_out(e, d, d);
    assert(e * e - d * d == (e - d) * e + d * (e - d));
    lemma_size_times(e - d, e);
    lemma_size_times(d, e - d);
    lemma_scaled(size(e - d), tick(), size(e));
    lemma_scaled(size(e), 17 as real, tick());
    lemma_scaled(size(e - d), tick(), size(d));
    lemma_scaled(size(d), 16 as real, tick());
    lemma_square(d);
    lemma_scaled(size(d), 16 as real, size(d));
    lemma_times(a, a);
    lemma_tick(val(a.times(a)), e * e);
}

/// What a click costs is the square of its distance from the mark, across and
/// down.
pub proof fn law_cost_is_the_squared_distance(seen: (F64, F64), pixel: [F64; 2])
    requires
        seen.0.finite() && seen.1.finite() && pixel@[0].finite() && pixel@[1].finite(),
        size(val(seen.0)) <= 8 as real && size(val(seen.1)) <= 8 as real,
        size(val(pixel@[0])) <= 8 as real && size(val(pixel@[1])) <= 8 as real,
    ensures
        ({
            let (dx, dy) = (val(seen.0) - val(pixel@[0]), val(seen.1) - val(pixel@[1]));
            near(miss_sq(seen, pixel), dx * dx + dy * dy, 81 as real * tick())
        }),
{
    let (a, b) = (seen.0.minus(pixel@[0]), seen.1.minus(pixel@[1]));
    lemma_offset_squared(seen.0, pixel@[0]);
    lemma_offset_squared(seen.1, pixel@[1]);
    lemma_plus(a.times(a), b.times(b));
    lemma_tick(val(a.times(a).plus(b.times(b))), val(a.times(a)) + val(b.times(b)));
}

/// A mark that can be seen adds its distance to the sum and one to the count; a
/// mark that cannot adds nothing. The clicks are those of the correspondences.
pub proof fn law_seen_marks_are_counted(
    seen: Seq<Seen>,
    pixels: Seq<[F64; 2]>,
    n: nat,
    width: u32,
    height: u32,
)
    requires
        n < seen.len(),
    ensures
        ({
            let (a, b) = (
                miss_sum(seen, pixels, n, width, height),
                miss_sum(seen, pixels, n + 1, width, height),
            );
            &&& seen[n as int] is None ==> b == a
            &&& seen[n as int] is Some ==> b.0 == a.0 + 1 && b.1 == a.1.plus(
                miss_px(seen[n as int]->0, pixels[n as int], width, height),
            )
        }),
        miss_sum(seen, pixels, 0, width, height) == (0nat, F64 { bits: ZERO }),
        miss_sum(seen, pixels, n, width, height).0 == seen.take(n as int).filter(
            |s: Seen| s is Some,
        ).len(),
    decreases n,
{
    reveal(Seq::filter);
    if n > 0 {
        law_seen_marks_are_counted(seen, pixels, (n - 1) as nat, width, height);
        assert(seen.take(n as int).drop_last() =~= seen.take(n - 1));
    }
}

/// What the marks cost: a mark that can be seen adds the square of its distance,
/// and one that cannot adds the penalty.
pub proof fn law_every_mark_costs(seen: Seq<Seen>, pixels: Seq<[F64; 2]>, n: nat, start: F64)
    requires
        n < seen.len(),
    ensures
        miss_total(seen, pixels, 0, start) == start,
        miss_total(seen, pixels, n + 1, start) == miss_total(seen, pixels, n, start).plus(
            if seen[n as int] is Some {
                miss_sq(seen[n as int]->0, pixels[n as int])
            } else {
                F64 { bits: 0x4024_0000_0000_0000 }
            },
        ),
{
}

/// Each click on the circle counts once, with its distance from the closest
/// point of the drawn circle; and none does where nothing of it can be seen.
pub proof fn law_circle_clicks_count(
    curve: Seq<(F64, F64)>,
    clicks: Seq<[F64; 2]>,
    n: nat,
    start: (nat, F64),
    width: u32,
    height: u32,
)
    requires
        n < clicks.len(),
    ensures
        circle_sum(curve, clicks, 0, start, width, height) == start,
        curve.len() == 0 ==> circle_sum(curve, clicks, n, start, width, height) == start,
        curve.len() > 0 ==> circle_sum(curve, clicks, n, start, width, height).0 == start.0 + n,
        curve.len() > 0 ==> circle_sum(curve, clicks, n + 1, start, width, height).1
            == circle_sum(curve, clicks, n, start, width, height).1.plus(
            curve_miss_px(curve, clicks[n as int], curve.len(), width, height),
        ),
        circle_total(curve, clicks, 0, start.1) == start.1,
        circle_total(curve, clicks, n + 1, start.1) == circle_total(
            curve,
            clicks,
            n,
            start.1,
        ).plus(
            if curve.len() > 0 {
                curve_miss_sq(curve, clicks[n as int], curve.len())
            } else {
                F64 { bits: 0x4024_0000_0000_0000 }
            },
        ),
    decreases n,
{
    if n > 0 {
        law_circle_clicks_count(curve, clicks, (n - 1) as nat, start, width, height);
    }
}

/// The distance to a curve is the least of the distances to its points.
pub proof fn law_curve_distance_is_the_least(
    curve: Seq<(F64, F64)>,
    pixel: [F64; 2],
    n: nat,
    width: u32,
    height: u32,
)
    requires
        1 <= n <= curve.len(),
        forall|i: int| 0 <= i < n ==> !miss_px(#[trigger] curve[i], pixel, width, height).nan(),
        forall|i: int| 0 <= i < n ==> !miss_sq(#[trigger] curve[i], pixel).nan(),
    ensures
        ({
            let (d, q) = (
                curve_miss_px(curve, pixel, n, width, height),
                curve_miss_sq(curve, pixel, n),
            );
            &&& !d.nan() && !q.nan()
            &&& forall|i: int|
                0 <= i < n ==> d.at_most(miss_px(#[trigger] curve[i], pixel, width, height))
            &&& forall|i: int| 0 <= i < n ==> q.at_most(miss_sq(#[trigger] curve[i], pixel))
            &&& exists|i: int| 0 <= i < n && d == miss_px(#[trigger] curve[i], pixel, width, height)
            &&& q == (F64 { bits: INFINITE }) || exists|i: int|
                0 <= i < n && q == miss_sq(#[trigger] curve[i], pixel)
        }),
    decreases n,
{
    let last = curve[n - 1];
    if n > 1 {
        law_curve_distance_is_the_least(curve, pixel, (n - 1) as nat, width, height);
        let j = choose|j: int|
            0 <= j < n - 1 && curve_miss_px(curve, pixel, (n - 1) as nat, width, height) == miss_px(
                #[trigger] curve[j],
                pixel,
                width,
                height,
            );
        assert(curve[j] == curve[j]);
    } else {
        assert(curve_miss_sq(curve, pixel, 0) == (F64 { bits: INFINITE }));
    }
    assert(!miss_px(last, pixel, width, height).nan());
}

/// A mean times the count is the sum; of nothing the mean is infinite.
pub proof fn law_mean_times_count(count: nat, total: F64)
    requires
        total.finite(),
        size(val(total)) <= 0x100_0000_0000 as real,
        count <= 0x1_0000_0000,
    ensures
        count == 0 ==> mean_or_infinite(count, total) == (F64 { bits: INFINITE }),
        count > 0 ==> {
            let m = mean_or_infinite(count, total);
            m.finite() && 0x4_0000_0000_0000 as real * size(
                val(m) * count as real - val(total),
            ) <= size(val(total)) + 1 as real
        },
{
    if count > 0 {
        lemma_speck();
        lemma_whole(count);
        let b = F64::of_whole(count);
        let (v, f, w, k) = (val(total), count as real, ulp(), speck());
        let ratio = v / f;
        lemma_quotient(v, f);
        lemma_size_times(ratio, f);
        lemma_scaled(1 as real, f, size(ratio));
        lemma_nothing(size(ratio));
        lemma_over(total, b);
        let r = val(total.over(b));
        lemma_relative(r, ratio);
        lemma_spread_out(r, ratio, f);
        lemma_spread_out(size(ratio) * w, k, f);
        lemma_three(size(ratio), w, f);
        lemma_size_times(r - ratio, f);
        lemma_scaled(size(r - ratio), size(ratio) * w + k, f);
        lemma_ulp(size(v));
        lemma_scaled(f, 0x1_0000_0000 as real, k);
        assert(k * f <= k * 0x1_0000_0000 as real);
    }
}

/// What can be seen of a curve, in order, and the clicks as they were made.
pub proof fn law_in_sight_is_what_is_seen(seen: Seq<Seen>, points: Seq<PointCorrespondence>)
    ensures
        in_sight(seen) == seen.filter(|s: Seen| s is Some).map_values(|s: Seen| s->0),
        clicks_of(points).len() == points.len(),
        forall|i: int|
            0 <= i < points.len() ==> clicks_of(points)[i] == (#[trigger] points[i]).pixel,
    decreases seen.len(),
{
    reveal(Seq::filter);
    let all = seen.filter(|s: Seen| s is Some).map_values(|s: Seen| s->0);
    if seen.len() > 0 {
        law_in_sight_is_what_is_seen(seen.drop_last(), points);
    }
    assert(in_sight(seen) =~= all);
}

/// The search starts from every view with every turn, every height and every
/// place: each combination has a start of its own; and it starts without lens
/// distortion, straight ahead and in the middle.
pub proof fn law_every_start_is_tried(diagonal: F64, view: int, turn: int, height: int, place: int)
    requires
        0 <= view < 6,
        0 <= turn < 5,
        0 <= height < 3,
        0 <= place < 2,
    ensures
        ({
            let i = 30 * view + 6 * turn + 2 * height + place;
            let (s, zero) = (start_at(diagonal, i), F64 { bits: ZERO });
            &&& 0 <= i < 180
            &&& s.len() == 9
            &&& s[0] == focal_seed(diagonal, F64 { bits: FOV_SEEDS_DEG[view] })
            &&& s[3] == turn_seeds()[turn]
            &&& s[7] == (F64 { bits: LATERAL_SEEDS_M[place] })
            &&& s[8] == (F64 { bits: HEIGHT_SEEDS_M[height] })
            &&& s[1] == zero && s[2] == zero && s[4] == zero && s[5] == zero && s[6] == zero
        }),
{
    let i = 30 * view + 6 * turn + 2 * height + place;
    assert(i / 30 == view && (i / 6) % 5 == turn && (i / 2) % 3 == height && i % 2 == place);
}

/// The corners of the first simplex: the start itself, and for each parameter the
/// start with that one moved and all the others kept.
pub proof fn law_simplex_moves_one_at_a_time(
    start: Seq<F64>,
    bounds: Seq<(F64, F64)>,
    i: int,
    j: int,
)
    requires
        0 <= i <= start.len(),
        start.len() == bounds.len(),
        0 <= j < start.len(),
    ensures
        simplex_vertex(start, bounds, i).len() == start.len(),
        simplex_vertex(start, bounds, 0) == start,
        j != i - 1 ==> simplex_vertex(start, bounds, i)[j] == start[j],
        j == i - 1 ==> simplex_vertex(start, bounds, i)[j] == nudged(
            start[j],
            bounds[j].0,
            bounds[j].1,
        ),
{
}

/// A parameter is moved by a tenth of its range, up where that stays within the
/// range and else down.
pub proof fn law_nudge_is_a_tenth(x: F64, lo: F64, hi: F64)
    requires
        x.finite() && lo.finite() && hi.finite(),
        size(val(x)) <= 1000 as real && size(val(lo)) <= 1000 as real && size(val(hi))
            <= 1000 as real,
    ensures
        ({
            let r = nudged(x, lo, hi);
            let tenth = (val(hi) - val(lo)) / 10 as real;
            let slack = 4 as real * tick();
            &&& r.finite()
            &&& size(val(r) - (val(x) + tenth)) <= slack || size(val(r) - (val(x) - tenth)) <= slack
            &&& val(x) + tenth + slack <= val(hi) ==> size(val(r) - (val(x) + tenth)) <= slack
            &&& val(x) + tenth > val(hi) + slack ==> size(val(r) - (val(x) - tenth)) <= slack
        }),
{
    lemma_tenth();
    let t = F64 { bits: 0x3FB9_9999_9999_999A };
    lemma_minus(hi, lo);
    let range = hi.minus(lo);
    lemma_tick(val(range), val(hi) - val(lo));
    lemma_size_times(val(t), val(range));
    lemma_scaled(size(val(t)), 1 as real, size(val(range)));
    lemma_nothing(size(val(range)));
    lemma_times(t, range);
    let delta = t.times(range);
    lemma_tick(val(delta), val(t) * val(range));
    let off = val(t) - 1 as real / 10 as real;
    lemma_spread_out(val(t), 1 as real / 10 as real, val(range));
    lemma_size_times(off, val(range));
    lemma_scaled(size(off), tick() / 0x2000 as real, size(val(range)));
    lemma_three(size(val(range)), tick() / 0x2000 as real, 1 as real);
    lemma_scaled(size(val(range)), 0x1000 as real, tick() / 0x2000 as real);
    lemma_tenth_of(val(range));
    assert(size(val(delta) - (val(hi) - val(lo)) / 10 as real) <= 2 as real * tick());
    lemma_plus(x, delta);
    lemma_minus(x, delta);
    lemma_tick(val(x.plus(delta)), val(x) + val(delta));
    lemma_tick(val(x.minus(delta)), val(x) - val(delta));
    lemma_val_ordered(x.plus(delta), hi);
}

/// One tenth of a real.
proof fn lemma_tenth_of(x: real)
    ensures
        (1 as real / 10 as real) * x == x / 10 as real,
{
    let t = 1 as real / 10 as real;
    lemma_three(10 as real, t, x);
    lemma_nothing(x);
}

/// The constant one tenth.
proof fn lemma_tenth()
    ensures
        ({
            let t = F64 { bits: 0x3FB9_9999_9999_999A };
            t.finite() && size(val(t) - 1 as real / 10 as real) <= tick() / 0x2000 as real
        }),
{
    let t = F64 { bits: 0x3FB9_9999_9999_999A };
    lemma2_to64();
    lemma2_to64_rest();
    lemma_dyadic(t, 1018, 0x19_9999_9999_999A);
    lemma_pow2_adds(52, 4);
    let p = pow2(56) as real;
    assert(p == 0x100_0000_0000_0000 as real);
    assert(val(t) * 0x100_0000_0000_0000 as real == 0x19_9999_9999_999A as real);
}

/// The camera that parameters describe looks straight: square pixels, the
/// principal point in the middle of the frame, and two lens coefficients.
pub proof fn law_camera_of_parameters(p: Seq<F64>, width: u32, height: u32)
    ensures
        ({
            let c = camera_of(p, width, height);
            &&& c.width == width && c.height == height
            &&& c.fx == p[0] && c.fy == p[0]
            &&& c.cx.finite() && c.cy.finite()
            &&& 0x4_0000 as real * size(2 as real * val(c.cx) - width as real) <= 1 as real
            &&& 0x4_0000 as real * size(2 as real * val(c.cy) - height as real) <= 1 as real
            &&& c.d@[0] == p[1] && c.d@[1] == p[2]
            &&& c.d@[2] == (F64 { bits: ZERO }) && c.d@[3] == (F64 { bits: ZERO })
        }),
{
    lemma_small_constants();
    lemma_half_whole(width as nat);
    lemma_half_whole(height as nat);
}

/// Half of a whole number is held exactly enough.
proof fn lemma_half_whole(n: nat)
    requires
        n <= 0x1_0000_0000,
    ensures
        ({
            let h = F64::of_whole(n).times(F64 { bits: HALF });
            h.finite() && 0x4_0000 as real * size(2 as real * val(h) - n as real) <= 1 as real
        }),
{
    lemma_speck();
    lemma_small_constants();
    lemma_whole(n);
    let half = F64 { bits: HALF };
    let v = n as real * val(half);
    lemma_three(n as real, val(half), 2 as real);
    lemma_nothing(n as real);
    lemma_times(F64::of_whole(n), half);
    lemma_relative(val(F64::of_whole(n).times(half)), v);
    lemma_ulp(size(v));
}

/// The points by which the circle is drawn stand at equal steps of a whole turn.
pub proof fn law_circle_goes_once_round(s: nat)
    requires
        s <= 180,
    ensures
        circle_angle(s).finite(),
        size(val(circle_angle(s)) * 180 as real - s as real * val(F64 { bits: TAU }))
            <= 400 as real * tick(),
{
    let tau = F64 { bits: TAU };
    lemma_tau();
    lemma_whole(s);
    lemma_whole(180);
    let (n, d) = (F64::of_whole(s), F64::of_whole(180));
    let v = s as real * val(tau);
    lemma_size_times(s as real, val(tau));
    lemma_scaled(s as real, 180 as real, size(val(tau)));
    lemma_scaled(size(val(tau)), 8 as real, 180 as real);
    lemma_times(n, tau);
    let t = n.times(tau);
    lemma_tick(val(t), v);
    let q = val(t) / 180 as real;
    lemma_over(t, d);
    lemma_tick(val(t.over(d)), q);
}

/// A whole turn is a number between six and eight.
proof fn lemma_tau()
    ensures
        (F64 { bits: TAU }).finite(),
        size(val(F64 { bits: TAU })) <= 8 as real,
{
    let (t, eight) = (F64 { bits: TAU }, F64 { bits: 0x4020_0000_0000_0000 });
    lemma2_to64();
    lemma2_to64_rest();
    lemma_dyadic(eight, 1025, 0x10_0000_0000_0000);
    assert(val(eight) * 0x2_0000_0000_0000 as real == 0x10_0000_0000_0000 as real);
    lemma_val_ordered(t, eight);
    lemma_val(t);
}

} // verus!
