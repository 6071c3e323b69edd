//! What a distance in pixels says: how far apart two places of a frame are,
//! across and down.
use crate::algebra::{
    lemma_nothing, lemma_spread_out, lemma_square_of_sum, lemma_swap, lemma_three, lemma_ulp,
};
use crate::double::F64;
use crate::lens_laws::{lemma_not_negative, lemma_relative, lemma_sum_not_negative};
use crate::mono_optimizer::miss_px;
use crate::radius_laws::{
    dust, lemma_scaled, lemma_size_bounded, lemma_size_times, lemma_square, lemma_unsquared, part,
    radius_of,
};
use crate::real_laws::{
    lemma_minus, lemma_plus, lemma_root, lemma_speck, lemma_times, size, speck, ulp, val,
};
use crate::value_laws::lemma_whole;
use vstd::prelude::*;

verus! {

/// Two to the power -90.
pub open spec fn mote() -> real {
    1 as real / 0x400_0000_0000_0000_0000_0000 as real
}

/// A number is at most one more than its square.
pub proof fn lemma_below_square(r: real)
    requires
        r >= 0 as real,
    ensures
        r <= r * r + 1 as real,
        r * r >= 0 as real,
{
    lemma_square(r);
    if r > 1 as real {
        lemma_scaled(1 as real, r, r);
        lemma_nothing(r);
    }
}

/// The products that a rounded root leaves.
pub proof fn lemma_root_terms(r: real, w: real, k: real)
    requires
        r >= 0 as real,
        0 as real <= w <= 1 as real,
        0 as real <= k <= 1 as real,
    ensures
        ({
            let g = r * w + k;
            let q = r * r;
            &&& 0 as real <= r * g <= q * w + q * k + k
            &&& g * g <= r * g + q * k + 2 as real * k
        }),
{
    let (g, q) = (r * w + k, r * r);
    lemma_below_square(r);
    lemma_nothing(r);
    lemma_nothing(k);
    lemma_scaled(0 as real, w, r);
    lemma_scaled(w, 1 as real, r);
    lemma_scaled(0 as real, g, r);
    lemma_spread_out(r * w, k, r);
    lemma_three(r, r, w);
    lemma_scaled(r, q + 1 as real, k);
    lemma_spread_out(q, 1 as real, k);
    assert(r * g <= q * w + q * k + k);
    // The square of the gap.
    lemma_spread_out(r * w, k, g);
    lemma_three(r, w, g);
    lemma_three(r, g, w);
    lemma_swap(w, r * g);
    lemma_scaled(w, 1 as real, r * g);
    lemma_nothing(r * g);
    lemma_scaled(g, q + 2 as real, k);
    lemma_spread_out(q, 2 as real, k);
    lemma_swap(k, q);
    lemma_swap(k, q + 2 as real);
}

/// The last step: everything that is small is small.
proof fn lemma_radius_close(
    s: real,
    q: real,
    total: real,
    rg: real,
    gg: real,
    qw: real,
    qk: real,
    k: real,
    tw: real,
    pt: real,
)
    requires
        size(s - total) <= 3 as real * tw + 4 as real * k,
        q <= s + rg,
        s <= q + rg + gg / 4 as real,
        0 as real <= rg <= qw + qk + k,
        gg <= rg + qk + 2 as real * k,
        qw * 0x10_0000_0000_0000 as real == q,
        qk * 0x1_0000_0000_0000_0000_0000_0000_0000_0000 as real <= q,
        k * 0x1_0000_0000_0000_0000_0000_0000_0000_0000 as real <= 1 as real,
        tw * 0x10_0000_0000_0000 as real == total,
        pt * 0x1_0000_0000_0000 as real == total,
        total >= 0 as real,
        q >= 0 as real,
        k > 0 as real,
    ensures
        q <= total + pt + dust(),
        total <= q + pt + dust(),
{
}

/// A radius of any size, from a sum of squares that is known up to rounding.
proof fn lemma_any_radius(s: real, r: real, total: real)
    requires
        total >= 0 as real,
        size(s - total) <= 3 as real * (total * ulp()) + 4 as real * speck(),
        r >= 0 as real,
        s >= 0 as real,
        ({
            let g = r * ulp() + speck();
            r * r <= s + r * g && s <= r * r + r * g + g * g / 4 as real
        }),
    ensures
        r * r <= total + part() * total + dust(),
        total <= r * r + part() * total + dust(),
{
    lemma_speck();
    let (w, k, q) = (ulp(), speck(), r * r);
    let g = r * w + k;
    lemma_root_terms(r, w, k);
    lemma_below_square(r);
    lemma_ulp(q);
    lemma_ulp(total);
    let c = 0x1_0000_0000_0000_0000_0000_0000_0000_0000 as real;
    lemma_scaled(k * c, 1 as real, q);
    lemma_three(q, k, c);
    lemma_nothing(q);
    lemma_three(part(), total, 0x1_0000_0000_0000 as real);
    lemma_swap(total, 0x1_0000_0000_0000 as real);
    lemma_three(part(), 0x1_0000_0000_0000 as real, total);
    lemma_nothing(total);
    assert(part() * 0x1_0000_0000_0000 as real == 1 as real);
    lemma_radius_close(
        s,
        q,
        total,
        r * g,
        g * g,
        q * w,
        q * k,
        k,
        total * w,
        part() * total,
    );
}

/// A square of a number that is not vast.
proof fn lemma_square_bounded(x: real)
    requires
        size(x) <= 0x400_0000_0000_0000_0000_0000 as real,
    ensures
        0 as real <= x * x <= 0x10_0000_0000_0000_0000_0000_0000_0000_0000_0000_0000_0000 as real,
{
    lemma_square(x);
    lemma_size_bounded(
        x,
        0x400_0000_0000_0000_0000_0000 as real,
        x,
        0x400_0000_0000_0000_0000_0000 as real,
    );
}

/// The root of the sum of two squares, as a real.
pub proof fn lemma_any_length(a: F64, b: F64)
    requires
        a.finite(),
        b.finite(),
        size(val(a)) <= 0x400_0000_0000_0000_0000_0000 as real,
        size(val(b)) <= 0x400_0000_0000_0000_0000_0000 as real,
    ensures
        a.times(a).plus(b.times(b)).root().finite(),
        radius_of(val(a.times(a).plus(b.times(b)).root()), val(a), val(b)),
{
    lemma_speck();
    let (x2, y2) = (val(a) * val(a), val(b) * val(b));
    lemma_square_bounded(val(a));
    lemma_square_bounded(val(b));
    lemma_times(a, a);
    lemma_times(b, b);
    let (p, q) = (a.times(a), b.times(b));
    lemma_relative(val(p), x2);
    lemma_relative(val(q), y2);
    lemma_ulp(x2);
    lemma_ulp(y2);
    lemma_plus(p, q);
    let s = p.plus(q);
    let mid = val(p) + val(q);
    lemma_relative(val(s), mid);
    lemma_ulp(size(mid));
    let total = x2 + y2;
    lemma_spread_out(x2, y2, ulp());
    assert(size(val(s) - total) <= 3 as real * (total * ulp()) + 4 as real * speck());
    lemma_not_negative(a);
    lemma_not_negative(b);
    lemma_sum_not_negative(p, q);
    lemma_root(s);
    lemma_any_radius(val(s), val(s.root()), total);
}

/// A difference of coordinates times the extent of a frame.
proof fn lemma_offset(a: F64, b: F64, extent: u32)
    requires
        a.finite(),
        b.finite(),
        size(val(a)) <= 0x100_0000_0000 as real,
        size(val(b)) <= 0x100_0000_0000 as real,
    ensures
        ({
            let d = a.minus(b).times(F64::of_whole(extent as nat));
            let x = (val(a) - val(b)) * extent as real;
            &&& d.finite()
            &&& size(val(d) - x) <= 3 as real * (size(x) * ulp()) + mote()
            &&& size(x) <= 0x400_0000_0000_0000_0000 as real
            &&& size(val(d)) <= 0x1_0000_0000_0000_0000_0000 as real
        }),
{
    lemma_speck();
    lemma_whole(extent as nat);
    let (w, k, f) = (ulp(), speck(), extent as real);
    let e = F64::of_whole(extent as nat);
    let gap = val(a) - val(b);
    let x = gap * f;
    lemma_minus(a, b);
    let c = a.minus(b);
    lemma_relative(val(c), gap);
    lemma_ulp(size(gap));
    lemma_size_bounded(gap, 0x200_0000_0000 as real, f, 0x1_0000_0000 as real);
    lemma_size_bounded(val(c), 0x400_0000_0000 as real, f, 0x1_0000_0000 as real);
    lemma_times(c, e);
    let d = c.times(e);
    lemma_relative(val(d), val(c) * f);
    // The first loss times the extent.
    let h = val(c) - gap;
    lemma_spread_out(val(c), gap, f);
    lemma_size_times(h, f);
    lemma_size_times(gap, f);
    lemma_scaled(size(h), size(gap) * w + k, f);
    lemma_spread_out(size(gap) * w, k, f);
    lemma_three(size(gap), w, f);
    lemma_scaled(f, 0x1_0000_0000 as real, k);
    assert(k * f <= k * 0x1_0000_0000 as real);
    lemma_ulp(size(x));
    lemma_ulp(size(val(c) * f));
}

/// The square of a number that is close to another.
proof fn lemma_close_square(d: real, x: real)
    requires
        size(d - x) <= 3 as real * (size(x) * ulp()) + mote(),
    ensures
        size(d * d - x * x) <= 10 as real * ((x * x) * ulp()) + 5 as real * mote(),
{
    let (w, t, a, h) = (ulp(), mote(), size(x), d - x);
    let (b, q) = (a * w, x * x);
    lemma_square(x);
    lemma_below_square(a);
    lemma_ulp(a);
    lemma_ulp(q);
    lemma_square_of_sum(x, h);
    lemma_square(h);
    lemma_size_times(x, h);
    lemma_scaled(size(h), 3 as real * b + t, a);
    lemma_spread_out(3 as real * b, t, a);
    lemma_three(3 as real, b, a);
    lemma_three(a, w, a);
    lemma_swap(a, 3 as real * b + t);
    lemma_swap(a, 3 as real * b);
    assert(a * size(h) <= 3 as real * (q * w) + t * a);
    lemma_scaled(size(h), 3 as real * b + t, size(h));
    lemma_scaled(size(h), a + t, 3 as real * b + t);
    lemma_spread_out(a, t, 3 as real * b + t);
    lemma_spread_out(3 as real * b, t, t);
    lemma_scaled(3 as real * b, a, t);
    lemma_scaled(a, q + 1 as real, t);
    lemma_spread_out(q, 1 as real, t);
    lemma_nothing(t);
    lemma_nothing(q);
    lemma_scaled(t, w / 0x20_0000_0000 as real, q);
    lemma_swap(q, t);
    lemma_swap(a, t);
    lemma_tiny_part(q, w);
    lemma_scaled(t, 1 as real, t);
    assert(size(h) * size(h) <= 3 as real * (q * w) + 2 as real * (t * a) + t);
}

/// A part of a part.
proof fn lemma_tiny_part(q: real, w: real)
    ensures
        (q * (w / 0x20_0000_0000 as real)) * 0x20_0000_0000 as real == q * w,
{
    lemma_three(q, w / 0x20_0000_0000 as real, 0x20_0000_0000 as real);
    assert((w / 0x20_0000_0000 as real) * 0x20_0000_0000 as real == w);
}

/// A length, and the two sides that it spans: its square is the sum of theirs
/// up to one part in two to the power 44, and up to two to the power -80.
pub open spec fn spans(r: real, x: real, y: real) -> bool {
    let total = x * x + y * y;
    &&& r >= 0 as real
    &&& r * r <= total + total / 0x1000_0000_0000 as real + 1 as real
        / 0x1_0000_0000_0000_0000_0000 as real
    &&& total <= r * r + total / 0x1000_0000_0000 as real + 1 as real
        / 0x1_0000_0000_0000_0000_0000 as real
}

/// A side is no longer than the length that spans it.
pub proof fn lemma_side(r: real, x: real, y: real)
    requires
        spans(r, x, y),
    ensures
        size(x) <= r + r / 0x400_0000_0000 as real + 1 as real / 0x80_0000_0000 as real,
        size(y) <= r + r / 0x400_0000_0000 as real + 1 as real / 0x80_0000_0000 as real,
{
    let (q, p, c) = (r * r, r / 0x400_0000_0000 as real, 1 as real / 0x80_0000_0000 as real);
    lemma_square(x);
    lemma_square(y);
    lemma_square(r);
    let b = r + p;
    lemma_square_of_sum(r, p);
    lemma_square(p);
    lemma_three(r, p, 0x400_0000_0000 as real);
    assert((r * p) * 0x400_0000_0000 as real == q);
    lemma_square_of_sum(b, c);
    lemma_nothing(c);
    lemma_scaled(0 as real, b, c);
    assert(c * c == 1 as real / 0x4000_0000_0000_0000_0000 as real);
    lemma_unsquared(size(x), b + c);
    lemma_unsquared(size(y), b + c);
}

/// The distance of a mark from its click, in pixels, is the length of the
/// offset between them, across times the width of the frame and down times its
/// height; so it is no less than either, and it is nothing only where they
/// agree both across and down.
pub proof fn law_miss_is_the_pixel_distance(
    seen: (F64, F64),
    pixel: [F64; 2],
    width: u32,
    height: u32,
)
    requires
        seen.0.finite() && seen.1.finite() && pixel@[0].finite() && pixel@[1].finite(),
        size(val(seen.0)) <= 0x100_0000_0000 as real,
        size(val(seen.1)) <= 0x100_0000_0000 as real,
        size(val(pixel@[0])) <= 0x100_0000_0000 as real,
        size(val(pixel@[1])) <= 0x100_0000_0000 as real,
    ensures
        ({
            let r = miss_px(seen, pixel, width, height);
            let across = (val(seen.0) - val(pixel@[0])) * width as real;
            let down = (val(seen.1) - val(pixel@[1])) * height as real;
            let slack = val(r) / 0x400_0000_0000 as real + 1 as real / 0x80_0000_0000 as real;
            &&& r.finite()
            &&& spans(val(r), across, down)
            &&& size(across) <= val(r) + slack
            &&& size(down) <= val(r) + slack
            &&& val(r) == 0 as real ==> size(across) <= 1 as real / 0x80_0000_0000 as real
                && size(down) <= 1 as real / 0x80_0000_0000 as real
        }),
{
    let across = (val(seen.0) - val(pixel@[0])) * width as real;
    let down = (val(seen.1) - val(pixel@[1])) * height as real;
    let dx = seen.0.minus(pixel@[0]).times(F64::of_whole(width as nat));
    let dy = seen.1.minus(pixel@[1]).times(F64::of_whole(height as nat));
    lemma_offset(seen.0, pixel@[0], width);
    lemma_offset(seen.1, pixel@[1], height);
    lemma_any_length(dx, dy);
    let r = val(miss_px(seen, pixel, width, height));
    lemma_close_square(val(dx), across);
    lemma_close_square(val(dy), down);
    lemma_square(across);
    lemma_square(down);
    lemma_ulp(across * across);
    lemma_ulp(down * down);
    let s = val(dx) * val(dx) + val(dy) * val(dy);
    lemma_three(part(), s, 0x1_0000_0000_0000 as real);
    lemma_swap(s, 0x1_0000_0000_0000 as real);
    lemma_three(part(), 0x1_0000_0000_0000 as real, s);
    lemma_nothing(s);
    assert(part() * 0x1_0000_0000_0000 as real == 1 as real);
    lemma_spans(
        r * r,
        s,
        part() * s,
        across * across,
        down * down,
        (across * across) * ulp(),
        (down * down) * ulp(),
        val(dx) * val(dx),
        val(dy) * val(dy),
    );
    lemma_side(r, across, down);
}

/// The sum of two squares that are each close to another.
proof fn lemma_spans(
    q: real,
    s: real,
    ps: real,
    x2: real,
    y2: real,
    xw: real,
    yw: real,
    dx2: real,
    dy2: real,
)
    requires
        s == dx2 + dy2,
        ps * 0x1_0000_0000_0000 as real == s,
        q <= s + ps + dust(),
        s <= q + ps + dust(),
        x2 >= 0 as real,
        y2 >= 0 as real,
        xw * 0x10_0000_0000_0000 as real == x2,
        yw * 0x10_0000_0000_0000 as real == y2,
        size(dx2 - x2) <= 10 as real * xw + 5 as real * mote(),
        size(dy2 - y2) <= 10 as real * yw + 5 as real * mote(),
    ensures
        ({
            let total = x2 + y2;
            &&& q <= total + total / 0x1000_0000_0000 as real + 1 as real
                / 0x1_0000_0000_0000_0000_0000 as real
            &&& total <= q + total / 0x1000_0000_0000 as real + 1 as real
                / 0x1_0000_0000_0000_0000_0000 as real
        }),
{
}

} // verus!
