//! Radii of points in the plane, in real numbers, as far as rounding and small
//! moves change them.
use crate::real_laws::{lemma_speck, size, speck, ulp};
use vstd::prelude::*;

verus! {

/// Two to the power -48.
pub open spec fn part() -> real {
    1 as real / 0x1_0000_0000_0000 as real
}

/// Two to the power -100.
pub open spec fn dust() -> real {
    1 as real / 0x10_0000_0000_0000_0000_0000_0000 as real
}

/// A radius and what it is of: its square is close to the sum of the squares.
pub open spec fn radius_of(r: real, x: real, y: real) -> bool {
    &&& r >= 0 as real
    &&& r * r <= x * x + y * y + part() * (x * x + y * y) + dust()
    &&& x * x + y * y <= r * r + part() * (x * x + y * y) + dust()
}

/// The radius of a sum of squares that is known up to rounding.
pub proof fn lemma_radius_real(s: real, r: real, total: real)
    requires
        total >= 0 as real,
        total <= 0x2_0000 as real,
        size(s - total) <= 3 as real * total * ulp() + 4 as real * speck(),
        r >= 0 as real,
        s >= 0 as real,
        ({
            let g = r * ulp() + speck();
            r * r <= s + r * g && s <= r * r + r * g + g * g / 4 as real
        }),
    ensures
        r * r <= total + part() * total + dust(),
        total <= r * r + part() * total + dust(),
{
    lemma_speck();
    let (w, k) = (ulp(), speck());
    let g = r * w + k;
    let q = r * r;
    assert(w * 0x10_0000_0000_0000 as real == 1 as real && w > 0 as real) by (nonlinear_arith)
        requires
            w == 1 as real / 0x10_0000_0000_0000 as real,
    ;
    let m = 3 as real * total * w;
    assert(m * 0x10_0000_0000_0000 as real == 3 as real * total) by (nonlinear_arith)
        requires
            m == 3 as real * total * w,
            w * 0x10_0000_0000_0000 as real == 1 as real,
    ;
    assert(s <= 0x4_0000 as real);
    assert(r <= 0x400 as real) by (nonlinear_arith)
        requires
            r >= 0 as real,
            g == r * w + k,
            r * r <= s + r * g,
            s <= 0x4_0000 as real,
            (0 as real) < w <= 1 as real / 0x1000 as real,
            (0 as real) < k <= 1 as real / 0x1000 as real,
    {
        if r > 0x400 as real {
            assert(r * g == (r * r) * w + r * k) by (nonlinear_arith)
                requires
                    g == r * w + k,
            ;
            assert((r * r) * w <= (r * r) / 0x1000 as real) by (nonlinear_arith)
                requires
                    (0 as real) < w <= 1 as real / 0x1000 as real,
            ;
            assert(r * k <= r) by (nonlinear_arith)
                requires
                    r > 0 as real,
                    (0 as real) < k <= 1 as real / 0x1000 as real,
            ;
            assert(r * r >= 0x400 as real * r) by (nonlinear_arith)
                requires
                    r > 0x400 as real,
            ;
        }
    }
    let (qw, rk) = (q * w, r * k);
    assert(r * g == qw + rk) by (nonlinear_arith)
        requires
            g == r * w + k,
            q == r * r,
            qw == q * w,
            rk == r * k,
    ;
    assert(qw * 0x10_0000_0000_0000 as real == q) by (nonlinear_arith)
        requires
            qw == q * w,
            w * 0x10_0000_0000_0000 as real == 1 as real,
    ;
    assert(0 as real <= rk <= 0x400 as real * k) by (nonlinear_arith)
        requires
            rk == r * k,
            0 as real <= r <= 0x400 as real,
            k > 0 as real,
    ;
    assert(g * g <= qw + 4 as real * rk + k) by (nonlinear_arith)
        requires
            g == r * w + k,
            q == r * r,
            qw == q * w,
            rk == r * k,
            r >= 0 as real,
            (0 as real) < w <= 1 as real / 0x1000 as real,
            (0 as real) < k <= 1 as real / 0x1000 as real,
    {
        assert(g * g == (r * r) * (w * w) + 2 as real * (r * k) * w + k * k) by (nonlinear_arith)
            requires
                g == r * w + k,
        ;
        assert((r * r) * (w * w) <= qw) by (nonlinear_arith)
            requires
                qw == (r * r) * w,
                (0 as real) < w <= 1 as real / 0x1000 as real,
        ;
        assert(2 as real * (r * k) * w <= 4 as real * rk) by (nonlinear_arith)
            requires
                rk == r * k,
                rk >= 0 as real,
                (0 as real) < w <= 1 as real / 0x1000 as real,
        ;
        assert(k * k <= k) by (nonlinear_arith)
            requires
                (0 as real) < k <= 1 as real / 0x1000 as real,
        ;
    }
    let t = part() * total;
    assert(t * 0x1_0000_0000_0000 as real == total) by (nonlinear_arith)
        requires
            t == part() * total,
            part() == 1 as real / 0x1_0000_0000_0000 as real,
    ;
    assert(q >= 0 as real) by (nonlinear_arith)
        requires
            q == r * r,
    ;
}

/// Products of what is in order are in order.
pub proof fn lemma_scaled(a: real, b: real, c: real)
    requires
        a <= b,
        c >= 0 as real,
    ensures
        a * c <= b * c,
        c * a <= c * b,
{
    assert(a * c <= b * c && c * a <= c * b) by (nonlinear_arith)
        requires
            a <= b,
            c >= 0 as real,
    ;
}

/// The size of a product.
pub proof fn lemma_size_times(a: real, b: real)
    ensures
        size(a * b) == size(a) * size(b),
{
    if a >= 0 as real && b >= 0 as real {
        lemma_scaled(0 as real, a, b);
        assert(0 as real * b == 0 as real) by (nonlinear_arith);
    } else if a >= 0 as real {
        lemma_scaled(0 as real, a, -b);
        assert(0 as real * (-b) == 0 as real && a * (-b) == -(a * b)) by (nonlinear_arith);
    } else if b >= 0 as real {
        lemma_scaled(0 as real, b, -a);
        assert((-a) * (0 as real) == 0 as real && (-a) * b == -(a * b)) by (nonlinear_arith);
    } else {
        lemma_scaled(0 as real, -a, -b);
        assert(0 as real * (-b) == 0 as real && (-a) * (-b) == a * b) by (nonlinear_arith);
    }
}

/// A square is not negative.
pub proof fn lemma_square(a: real)
    ensures
        a * a >= 0 as real,
        size(a) * size(a) == a * a,
{
    assert(a * a >= 0 as real) by (nonlinear_arith);
    lemma_size_times(a, a);
}

/// A product whose factors have bounds.
pub proof fn lemma_size_bounded(a: real, m: real, b: real, n: real)
    requires
        size(a) <= m,
        size(b) <= n,
    ensures
        size(a * b) <= m * n,
{
    lemma_size_times(a, b);
    lemma_scaled(size(a), m, size(b));
    lemma_scaled(size(b), n, m);
}

/// What is in order after a product was in order before it.
pub proof fn lemma_unscaled(a: real, b: real, c: real)
    requires
        a * c <= b * c,
        c > 0 as real,
    ensures
        a <= b,
{
    if a > b {
        let d = a - b;
        assert(d * c == a * c - b * c) by (nonlinear_arith)
            requires
                d == a - b,
        ;
        assert(d * c > 0 as real) by (nonlinear_arith)
            requires
                d > 0 as real,
                c > 0 as real,
        ;
    }
}

/// Numbers whose squares are in order are in order.
pub proof fn lemma_unsquared(a: real, b: real)
    requires
        a * a <= b * b,
        b >= 0 as real,
    ensures
        a <= b,
{
    if a > b {
        lemma_scaled(b, a, b);
        assert(a * a > a * b) by (nonlinear_arith)
            requires
                a > b,
                b >= 0 as real,
        ;
    }
}

/// Both coordinates are at most a radius that is not tiny, but for rounding.
pub proof fn lemma_within_radius(r: real, x: real, y: real)
    requires
        radius_of(r, x, y),
        r * 0x100_0000_0000 as real >= 1 as real,
    ensures
        100 as real * size(x) <= 101 as real * r,
        100 as real * size(y) <= 101 as real * r,
{
    let (x2, y2, r2) = (x * x, y * y, r * r);
    let total = x2 + y2;
    let t = part() * total;
    assert(t * 0x1_0000_0000_0000 as real == total) by (nonlinear_arith)
        requires
            t == part() * total,
            part() == 1 as real / 0x1_0000_0000_0000 as real,
    ;
    lemma_square(x);
    lemma_square(y);
    lemma_square(r);
    let c = 0x100_0000_0000 as real;
    let w = r * c;
    lemma_scaled(1 as real, w, w);
    assert(w * w == r2 * 0x1_0000_0000_0000_0000_0000 as real) by (nonlinear_arith)
        requires
            w == r * 0x100_0000_0000 as real,
            r2 == r * r,
    ;
    assert(100 as real * total <= 102 as real * r2);
    let (p, q, m) = (100 as real * size(x), 100 as real * size(y), 101 as real * r);
    assert(p * p == 10000 as real * (size(x) * size(x)) && q * q == 10000 as real * (size(y)
        * size(y)) && m * m == 10201 as real * (r * r)) by (nonlinear_arith)
        requires
            p == 100 as real * size(x),
            q == 100 as real * size(y),
            m == 101 as real * r,
    ;
    lemma_unsquared(p, m);
    lemma_unsquared(q, m);
}

/// A square of what is moved by at most `h`.
pub proof fn lemma_moved_square(x: real, a: real, h: real)
    requires
        size(x - a) <= h,
    ensures
        x * x <= a * a + 2 as real * (h * size(a)) + h * h,
        x * x >= a * a - 2 as real * (h * size(a)),
{
    let d = x - a;
    assert(x * x == a * a + 2 as real * (a * d) + d * d) by (nonlinear_arith)
        requires
            x == a + d,
    ;
    lemma_size_bounded(d, h, a, size(a));
    assert(a * d == d * a) by (nonlinear_arith);
    lemma_size_bounded(d, h, d, h);
    lemma_square(d);
}

/// The radius of a point that is moved by at most `h` on both axes is moved by at
/// most twice that. `rho` is the radius before, `r` the one after.
pub proof fn lemma_moved_radius(
    rho: real,
    ax: real,
    ay: real,
    r: real,
    x: real,
    y: real,
    h: real,
)
    requires
        rho <= 140 as real,
        h * 0x4_0000_0000 as real >= 1 as real,
        rho >= 5 as real * h,
        size(x - ax) <= h,
        size(y - ay) <= h,
        radius_of(r, x, y),
        size(rho * rho - (ax * ax + ay * ay)) <= part() * (ax * ax + ay * ay) + 4300 as real
            * dust(),
    ensures
        size(r - rho) <= 2 as real * h,
{
    lemma_moved_square(x, ax, h);
    lemma_moved_square(y, ay, h);
    let (a2, s2, p2, r2) = (ax * ax + ay * ay, x * x + y * y, rho * rho, r * r);
    let (hr, hh) = (h * rho, h * h);
    lemma_square(ax);
    lemma_square(ay);
    lemma_square(x);
    lemma_square(y);
    let (ta, ts) = (part() * a2, part() * s2);
    assert(ta * 0x1_0000_0000_0000 as real == a2 && ts * 0x1_0000_0000_0000 as real == s2)
        by (nonlinear_arith)
        requires
            ta == part() * a2,
            ts == part() * s2,
            part() == 1 as real / 0x1_0000_0000_0000 as real,
    ;
    // products by size
    let w = h * 0x4_0000_0000 as real;
    lemma_scaled(1 as real, w, h);
    lemma_scaled(1 as real, w, rho);
    assert(w * h == hh * 0x4_0000_0000 as real && w * rho == hr * 0x4_0000_0000 as real)
        by (nonlinear_arith)
        requires
            w == h * 0x4_0000_0000 as real,
            hh == h * h,
            hr == h * rho,
    ;
    let five = 5 as real * h;
    lemma_scaled(five, rho, h);
    lemma_scaled(five, rho, rho);
    assert(h * five == 5 as real * hh && five * rho == 5 as real * hr) by (nonlinear_arith)
        requires
            five == 5 as real * h,
            hh == h * h,
            hr == h * rho,
    ;
    lemma_scaled(rho, 140 as real, rho);
    assert(hh * 0x10_0000_0000_0000_0000 as real >= 1 as real);
    assert(1000 as real * a2 <= 1001 as real * p2);
    let m = size(ax) + size(ay);
    lemma_spread(ax, ay, rho);
    lemma_scaled(2 as real * m, 3 as real * rho, h);
    assert(h * (2 as real * m) == 2 as real * (h * size(ax)) + 2 as real * (h * size(ay)) && h * (
    3 as real * rho) == 3 as real * hr) by (nonlinear_arith)
        requires
            m == size(ax) + size(ay),
            hr == h * rho,
    ;
    assert(s2 <= a2 + 3 as real * hr + 2 as real * hh);
    assert(s2 >= a2 - 3 as real * hr);
    assert(r2 <= p2 + 4 as real * hr + 4 as real * hh);
    assert(r2 >= p2 - 4 as real * hr + 4 as real * hh);
    let (up, down) = (rho + 2 as real * h, rho - 2 as real * h);
    assert(up * up == p2 + 4 as real * hr + 4 as real * hh && down * down == p2 - 4 as real * hr
        + 4 as real * hh) by (nonlinear_arith)
        requires
            up == rho + 2 as real * h,
            down == rho - 2 as real * h,
            p2 == rho * rho,
            hr == h * rho,
            hh == h * h,
    ;
    lemma_unsquared(r, up);
    lemma_unsquared(down, r);
}

/// The two coordinates of a point together are at most one and a half times its
/// radius.
pub proof fn lemma_spread(ax: real, ay: real, rho: real)
    requires
        1000 as real * (ax * ax + ay * ay) <= 1001 as real * (rho * rho),
        rho >= 0 as real,
    ensures
        2 as real * (size(ax) + size(ay)) <= 3 as real * rho,
{
    let (a, b) = (size(ax), size(ay));
    lemma_square(ax);
    lemma_square(ay);
    lemma_square(a - b);
    lemma_square(rho);
    let (m, n) = (2 as real * (a + b), 3 as real * rho);
    assert((a - b) * (a - b) == a * a - 2 as real * (a * b) + b * b && m * m == 4 as real * (a * a)
        + 8 as real * (a * b) + 4 as real * (b * b) && n * n == 9 as real * (rho * rho))
        by (nonlinear_arith)
        requires
            m == 2 as real * (a + b),
            n == 3 as real * rho,
    ;
    lemma_unsquared(m, n);
}

/// One axis of the way to the plane and back: `dx` is where it began, in focal
/// lengths, `x` where the plane was met, `z` where that is shown. The lens shows
/// the radius `rho` at `theta`, and the radius `r` that is found at `p`.
pub proof fn lemma_axis_back(
    dx: real,
    x: real,
    theta: real,
    rho: real,
    sigma: real,
    r: real,
    p: real,
    s: real,
    h: real,
    z: real,
)
    requires
        sigma > 0 as real,
        100 as real * sigma <= 126 as real,
        theta == rho * sigma,
        rho >= 0 as real,
        h > 0 as real,
        s >= 0 as real,
        100 as real * size(dx) <= 101 as real * theta,
        size(x * sigma - dx) <= h * sigma,
        100 as real * size(x) <= 101 as real * r,
        size(p - theta) <= s,
        r > 0 as real,
        rho <= 5 as real * h || (rho >= 5 as real * h && size(r - rho) <= 2 as real * h),
        z * r == p * x,
    ensures
        100 as real * size(z - dx) <= 1300 as real * h + 102 as real * s,
{
    let hs = h * sigma;
    lemma_scaled(100 as real * sigma, 126 as real, h);
    assert(h * (100 as real * sigma) == 100 as real * hs) by (nonlinear_arith)
        requires
            hs == h * sigma,
    ;
    lemma_scaled(0 as real, rho, sigma);
    assert(0 as real * sigma == 0 as real) by (nonlinear_arith);
    if rho <= 5 as real * h {
        lemma_scaled(rho, 5 as real * h, sigma);
        assert((5 as real * h) * sigma == 5 as real * hs) by (nonlinear_arith)
            requires
                hs == h * sigma,
        ;
        lemma_size_times(z, r);
        lemma_size_times(p, x);
        let (a, b) = (100 as real * size(z), 101 as real * size(p));
        lemma_scaled(100 as real * size(x), 101 as real * r, size(p));
        assert(a * r == 100 as real * (size(z) * r) && b * r == size(p) * (101 as real * r) && size(
            p,
        ) * (100 as real * size(x)) == 100 as real * (size(p) * size(x))) by (nonlinear_arith)
            requires
                a == 100 as real * size(z),
                b == 101 as real * size(p),
        ;
        lemma_unscaled(a, b, r);
    } else {
        let (e, q) = (x * sigma - dx, p - theta);
        lemma_back_identity(dx, x, theta, rho, sigma, r, p, z, e, q);
        let th = theta * h;
        // dx (rho - r)
        lemma_size_bounded(100 as real * dx, 101 as real * theta, rho - r, 2 as real * h);
        assert((100 as real * dx) * (rho - r) == 100 as real * (dx * (rho - r)) && (101 as real
            * theta) * (2 as real * h) == 202 as real * th) by (nonlinear_arith)
            requires
                th == theta * h,
        ;
        // rho e
        lemma_size_bounded(rho, rho, e, hs);
        assert(rho * hs == th) by (nonlinear_arith)
            requires
                hs == h * sigma,
                theta == rho * sigma,
                th == theta * h,
        ;
        // q x
        lemma_size_bounded(q, s, 100 as real * x, 101 as real * r);
        let sr = s * r;
        assert(q * (100 as real * x) == 100 as real * (q * x) && s * (101 as real * r) == 101
            as real * sr) by (nonlinear_arith)
            requires
                sr == s * r,
        ;
        // theta against r
        let rr = 5 as real * r;
        lemma_scaled(3 as real * rho, rr, 100 as real * sigma);
        lemma_scaled(100 as real * sigma, 126 as real, rr);
        assert((3 as real * rho) * (100 as real * sigma) == 300 as real * theta)
            by (nonlinear_arith)
            requires
                theta == rho * sigma,
        ;
        assert(rr * (100 as real * sigma) == (100 as real * sigma) * rr) by (nonlinear_arith);
        assert(10 as real * theta <= 21 as real * r);
        lemma_scaled(10 as real * theta, 21 as real * r, h);
        let rh = r * h;
        assert((10 as real * theta) * h == 10 as real * th && (21 as real * r) * h == 21 as real
            * rh) by (nonlinear_arith)
            requires
                th == theta * h,
                rh == r * h,
        ;
        lemma_scaled(0 as real, r, h);
        lemma_scaled(0 as real, r, s);
        assert(0 as real * h == 0 as real && 0 as real * s == 0 as real && r * s == sr)
            by (nonlinear_arith)
            requires
                sr == s * r,
        ;
        let (d, most) = (100 as real * (z - dx), 1300 as real * h + 102 as real * s);
        lemma_size_times(d, r);
        assert(d * r == 100 as real * ((z - dx) * r) && most * r == 1300 as real * rh + 102 as real
            * sr) by (nonlinear_arith)
            requires
                d == 100 as real * (z - dx),
                most == 1300 as real * h + 102 as real * s,
                rh == r * h,
                sr == s * r,
        ;
        lemma_unscaled(size(d), most, r);
    }
}

/// What is shown, less what it began at.
proof fn lemma_back_identity(
    dx: real,
    x: real,
    theta: real,
    rho: real,
    sigma: real,
    r: real,
    p: real,
    z: real,
    e: real,
    q: real,
)
    requires
        theta == rho * sigma,
        z * r == p * x,
        e == x * sigma - dx,
        q == p - theta,
    ensures
        (z - dx) * r == dx * (rho - r) + rho * e + q * x,
{
    assert(theta * x == rho * (x * sigma)) by (nonlinear_arith)
        requires
            theta == rho * sigma,
    ;
    assert(rho * (x * sigma) == rho * dx + rho * e) by (nonlinear_arith)
        requires
            e == x * sigma - dx,
    ;
    assert(p * x == theta * x + q * x) by (nonlinear_arith)
        requires
            q == p - theta,
    ;
    assert((z - dx) * r == z * r - dx * r && dx * (rho - r) == dx * rho - dx * r && rho * dx == dx
        * rho) by (nonlinear_arith);
}

} // verus!
