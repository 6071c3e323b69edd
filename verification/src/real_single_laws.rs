//! Single-precision arithmetic as arithmetic on real numbers, each result off by
//! what is lost to rounding.
use crate::arith::Parts;
use crate::single::F32;
use crate::speed_laws::value;
use crate::real_laws::size;
use crate::rounding::{
    gap_exp, law_ratio_rounds, law_root_rounds, law_rounding_error, law_rounding_keeps_order,
    lemma_gap_small, lemma_rung_ascends, lemma_rung_in_binade, lemma_rung_step, lemma_rung_zero,
    root_side, rounded_ratio, rounded_root, rung, Format,
};
use vstd::arithmetic::power2::{
    lemma2_to64, lemma2_to64_rest, lemma_pow2_adds, lemma_pow2_pos, pow2,
};
use vstd::prelude::*;

verus! {

/// The smallest positive number.
pub open spec fn speck() -> real {
    1 as real / pow2(149) as real
}

/// The value of a finite number.
pub open spec fn val(x: F32) -> real {
    value(x) as real / pow2(149) as real
}

/// Two to the power -23.
pub open spec fn ulp() -> real {
    1 as real / 0x80_0000 as real
}

/// A bound that no result here comes near to: two to the power 60.
pub open spec fn vast() -> real {
    0x1000_0000_0000_0000 as real
}

/// The smallest number is far below anything that matters.
pub proof fn lemma_speck()
    ensures
        speck() > 0 as real,
        speck() * (pow2(149) as real) == 1 as real,
        speck() * (0x1_0000_0000_0000_0000_0000_0000_0000_0000 as real) <= 1 as real,
        pow2(149) as real > 0 as real,
{
    lemma2_to64();
    lemma2_to64_rest();
    lemma_pow2_adds(64, 64);
    lemma_pow2_adds(128, 21);
    lemma_pow2_pos(21);
    let (u, h) = (pow2(149) as int, pow2(21) as int);
    assert(pow2(128) == 0x1_0000_0000_0000_0000_0000_0000_0000_0000);
    assert(u >= 0x1_0000_0000_0000_0000_0000_0000_0000_0000) by (nonlinear_arith)
        requires
            u == 0x1_0000_0000_0000_0000_0000_0000_0000_0000 * h,
            h >= 1,
    ;
    let (a, c) = (u as real, 0x1_0000_0000_0000_0000_0000_0000_0000_0000 as real);
    assert((1 as real / a) * a == 1 as real && 1 as real / a > 0 as real && (1 as real / a) * c
        <= 1 as real) by (nonlinear_arith)
        requires
            a >= c,
            c > 0 as real,
    ;
}

/// Whole numbers of units as reals.
proof fn lemma_units(n: int)
    ensures
        (n as real / pow2(149) as real) * pow2(149) as real == n as real,
        n as real / pow2(149) as real == n as real * speck(),
{
    lemma_speck();
    let (a, u) = (n as real, pow2(149) as real);
    assert((a / u) * u == a && a / u == a * (1 as real / u)) by (nonlinear_arith)
        requires
            u > 0 as real,
    ;
}

/// What is known of the value of a number.
pub proof fn lemma_val(x: F32)
    ensures
        val(x) * pow2(149) as real == value(x) as real,
        val(x) == value(x) as real * speck(),
        0 <= x.parts().size(Format::Single),
        size(val(x)) == x.parts().size(Format::Single) as real * speck(),
        x.parts().neg ==> val(x) <= 0 as real,
        !x.parts().neg ==> val(x) >= 0 as real,
        x.parts().key == 0 <==> val(x) == 0 as real,
        val(x.negated()) == -val(x),
        val(x.magnitude()) == size(val(x)),
{
    lemma_speck();
    lemma_units(value(x));
    lemma_units(value(x.negated()));
    lemma_units(value(x.magnitude()));
    lemma_rung_zero(23);
    let k = x.parts().key as int;
    if k > 0 {
        lemma_rung_ascends(23, 0, k);
    }
    let (n, s) = (x.parts().size(Format::Single), speck());
    assert(n >= 0);
    assert(n as real * s >= 0 as real && (-n) as real * s == -(n as real * s) && (n > 0 ==> n
        as real * s > 0 as real)) by (nonlinear_arith)
        requires
            n >= 0,
            s > 0 as real,
    ;
    assert(x.negated().parts().key == x.parts().key);
    assert(x.magnitude().parts().key == x.parts().key);
}

/// Numbers in order have values in order.
pub proof fn lemma_val_ordered(a: F32, b: F32)
    requires
        a.finite(),
        b.finite(),
    ensures
        a.place() <= b.place() <==> val(a) <= val(b),
        a.below(b) <==> val(a) < val(b),
        a.at_most(b) <==> val(a) <= val(b),
{
    lemma_speck();
    lemma_val(a);
    lemma_val(b);
    let (j, k) = (a.parts().key as int, b.parts().key as int);
    lemma_rung_zero(23);
    if j > 0 {
        lemma_rung_ascends(23, 0, j);
    }
    if k > 0 {
        lemma_rung_ascends(23, 0, k);
    }
    if j < k {
        lemma_rung_ascends(23, j, k);
    }
    if k < j {
        lemma_rung_ascends(23, k, j);
    }
    let (x, y, s) = (value(a), value(b), speck());
    assert(x <= y <==> x as real * s <= y as real * s) by (nonlinear_arith)
        requires
            s > 0 as real,
    ;
    assert(x < y <==> x as real * s < y as real * s) by (nonlinear_arith)
        requires
            s > 0 as real,
    ;
    assert(a.place() <= b.place() <==> x <= y);
}

/// A rounded fraction as a real: `exact` is the fraction in units of the smallest
/// number.
proof fn lemma_rounded(n: int, d: int, exact: real)
    requires
        d > 0,
        n >= 0,
        exact * d as real == n as real * speck(),
        rounded_ratio(Format::Single, n, d) < Format::Single.infinity(),
    ensures
        ({
            let r = rung(23, rounded_ratio(Format::Single, n, d)) as real * speck();
            r >= 0 as real && size(r - exact) <= (r * ulp() + speck()) / 2 as real
        }),
{
    lemma_speck();
    lemma2_to64();
    lemma2_to64_rest();
    let f = Format::Single;
    let k = rounded_ratio(f, n, d);
    let r = rung(23, k);
    law_ratio_rounds(f, n, d);
    law_rounding_error(f, n, d);
    lemma_rung_zero(23);
    if k > 0 {
        lemma_rung_ascends(23, 0, k);
    }
    let b: int = 0x80_0000;
    assert(pow2(23) == b);
    let (x, y, s, e, w) = (r as real, n as real, speck(), exact, d as real);
    let rd = r * d;
    assert(rd as real == x * w) by (nonlinear_arith)
        requires
            rd == r * d,
            x == r as real,
            w == d as real,
    ;
    let c = (r + b) * d;
    assert(c as real == (x + b as real) * w) by (nonlinear_arith)
        requires
            c == (r + b) * d,
            x == r as real,
            w == d as real,
    ;
    let gap = rd - n;
    assert(0x100_0000 * gap <= c && -0x100_0000 * gap <= c)
        by (nonlinear_arith)
        requires
            gap == rd - n,
            pow2(23) == 0x80_0000,
            2 * pow2(23) * (rd - n) <= c,
            2 * pow2(23) * (n - rd) <= c,
    ;
    let g = gap as real;
    assert(g == x * w - y);
    assert(0x100_0000 as real * g <= (x + b as real) * w);
    assert(0x100_0000 as real * (-g) <= (x + b as real) * w);
    let rs = x * s;
    let h = (rs * ulp() + s) / 2 as real;
    assert((x + b as real) * s == 2 as real * b as real * h) by (nonlinear_arith)
        requires
            rs == x * s,
            h == (rs * ulp() + s) / 2 as real,
            ulp() == 1 as real / b as real,
            b == 0x80_0000int,
    ;
    assert(rs - e <= h && e - rs <= h && rs >= 0 as real) by (nonlinear_arith)
        requires
            rs == x * s,
            x >= 0 as real,
            s > 0 as real,
            w > 0 as real,
            b > 0,
            e * w == y * s,
            (x + b as real) * s == 2 as real * b as real * h,
            b == 0x80_0000int,
            g == x * w - y,
            0x100_0000 as real * g <= (x + b as real) * w,
            0x100_0000 as real * (-g) <= (x + b as real) * w,
    ;
}

/// A result is off the exact one by no more than half a gap.
pub open spec fn rounds(r: real, exact: real) -> bool {
    size(r - exact) <= (size(r) * ulp() + speck()) / 2 as real
}

/// A fraction that is not vast is rounded to a finite number.
proof fn lemma_fits(n: int, d: int, exact: real)
    requires
        d > 0,
        exact * d as real == n as real * speck(),
        exact <= vast(),
    ensures
        rounded_ratio(Format::Single, n, d) < Format::Single.infinity(),
{
    lemma_speck();
    lemma2_to64();
    lemma2_to64_rest();
    let k: int = 0x5D80_0000;
    lemma_rung_in_binade(23, 186, 0x80_0000);
    lemma_pow2_adds(23, 186);
    lemma_pow2_adds(60, 149);
    let (u, top) = (pow2(149) as int, rung(23, k));
    assert(top == 0x1000_0000_0000_0000 * u);
    let (s, w, y, z) = (speck(), d as real, n as real, u as real);
    assert(y <= (vast() * z) * w) by (nonlinear_arith)
        requires
            exact * w == y * s,
            exact <= vast(),
            s * z == 1 as real,
            s > 0 as real,
            z > 0 as real,
            w > 0 as real,
    {
        assert(y == (exact * w) * z) by (nonlinear_arith)
            requires
                exact * w == y * s,
                s * z == 1 as real,
        ;
        assert((exact * w) * z == exact * (w * z)) by (nonlinear_arith);
        assert(exact * (w * z) <= vast() * (w * z)) by (nonlinear_arith)
            requires
                exact <= vast(),
                w > 0 as real,
                z > 0 as real,
        ;
        assert(vast() * (w * z) == (vast() * z) * w) by (nonlinear_arith);
    }
    let m = top * d;
    assert(m as real == (vast() * z) * w) by (nonlinear_arith)
        requires
            m == top * d,
            top == 0x1000_0000_0000_0000 * u,
            z == u as real,
            w == d as real,
            vast() == 0x1000_0000_0000_0000 as real,
    ;
    assert(n <= m);
    law_rounding_keeps_order(Format::Single, n, d, k);
}

/// The value of a number with a sign.
proof fn lemma_signed(r: F32, neg: bool, exact: real)
    requires
        r.finite(),
        r.parts().neg == neg || r.parts().key == 0,
        exact >= 0 as real,
        size(size(val(r)) - exact) <= (size(val(r)) * ulp() + speck()) / 2 as real,
    ensures
        rounds(val(r), if neg {
            -exact
        } else {
            exact
        }),
{
    lemma_val(r);
}

/// A sum as a real.
pub proof fn lemma_plus(a: F32, b: F32)
    requires
        a.finite(),
        b.finite(),
    ensures
        size(val(a) + val(b)) <= vast() ==> a.plus(b).finite(),
        a.plus(b).finite() ==> rounds(val(a.plus(b)), val(a) + val(b)),
{
    reveal(F32::plus);
    lemma_speck();
    lemma_val(a);
    lemma_val(b);
    let r = a.plus(b);
    lemma_val(r);
    let v = value(a) + value(b);
    let n = if v < 0 {
        -v
    } else {
        v
    };
    let (s, exact) = (speck(), size(val(a) + val(b)));
    assert(v as real * s == val(a) + val(b)) by (nonlinear_arith)
        requires
            v == value(a) + value(b),
            val(a) == value(a) as real * s,
            val(b) == value(b) as real * s,
    ;
    assert(exact == n as real * s) by (nonlinear_arith)
        requires
            v as real * s == val(a) + val(b),
            exact == size(val(a) + val(b)),
            s > 0 as real,
            n == if v < 0 { -v } else { v },
    ;
    assert(exact * 1int as real == n as real * s) by (nonlinear_arith)
        requires
            exact == n as real * s,
    ;
    law_ratio_rounds(Format::Single, n, 1);
    if exact <= vast() {
        lemma_fits(n, 1, exact);
    }
    if r.finite() {
        assert(v < 0 <==> val(a) + val(b) < 0 as real) by (nonlinear_arith)
            requires
                v as real * s == val(a) + val(b),
                s > 0 as real,
        ;
        if v == 0 {
            assert(r.parts().key == 0);
            assert(rounds(val(r), 0 as real)) by {
                assert(size(0 as real) * ulp() == 0 as real) by (nonlinear_arith);
            }
        } else {
            lemma_rounded(n, 1, exact);
            lemma_signed(r, v < 0, exact);
        }
    }
}

/// A difference as a real.
pub proof fn lemma_minus(a: F32, b: F32)
    requires
        a.finite(),
        b.finite(),
    ensures
        size(val(a) - val(b)) <= vast() ==> a.minus(b).finite(),
        a.minus(b).finite() ==> rounds(val(a.minus(b)), val(a) - val(b)),
{
    lemma_val(b);
    assert(b.negated().finite());
    lemma_plus(a, b.negated());
}

/// A product as a real.
pub proof fn lemma_times(a: F32, b: F32)
    requires
        a.finite(),
        b.finite(),
    ensures
        size(val(a) * val(b)) <= vast() ==> a.times(b).finite(),
        a.times(b).finite() ==> rounds(val(a.times(b)), val(a) * val(b)),
{
    reveal(F32::times);
    lemma_speck();
    lemma_val(a);
    lemma_val(b);
    let r = a.times(b);
    lemma_val(r);
    let (x, y) = (a.parts().size(Format::Single), b.parts().size(Format::Single));
    let (s, u) = (speck(), pow2(149) as int);
    let exact = size(val(a)) * size(val(b));
    let n = x * y;
    lemma_pow2_pos(149);
    assert(size(val(a) * val(b)) == exact && exact >= 0 as real) by (nonlinear_arith)
        requires
            exact == size(val(a)) * size(val(b)),
    ;
    assert(exact * u as real == n as real * s && n >= 0) by (nonlinear_arith)
        requires
            n == x * y,
            x >= 0,
            y >= 0,
            exact == (x as real * s) * (y as real * s),
            s * u as real == 1 as real,
    {
        assert(n as real == x as real * y as real) by (nonlinear_arith)
            requires
                n == x * y,
        ;
        assert((x as real * s) * (y as real * s) * u as real == (x as real * y as real) * s * (s
            * u as real)) by (nonlinear_arith);
        assert(n >= 0) by (nonlinear_arith)
            requires
                n == x * y,
                x >= 0,
                y >= 0,
        ;
    }
    law_ratio_rounds(Format::Single, n, u);
    if exact <= vast() {
        lemma_fits(n, u, exact);
    }
    if r.finite() {
        let neg = a.parts().neg != b.parts().neg;
        assert(val(a) * val(b) == if neg { -exact } else { exact }) by (nonlinear_arith)
            requires
                exact == size(val(a)) * size(val(b)),
                a.parts().neg ==> val(a) <= 0 as real,
                !a.parts().neg ==> val(a) >= 0 as real,
                b.parts().neg ==> val(b) <= 0 as real,
                !b.parts().neg ==> val(b) >= 0 as real,
                neg == (a.parts().neg != b.parts().neg),
        ;
        if a.parts().key == 0 || b.parts().key == 0 {
            assert(exact == 0 as real) by (nonlinear_arith)
                requires
                    exact == size(val(a)) * size(val(b)),
                    val(a) == 0 as real || val(b) == 0 as real,
            ;
            assert(rounds(val(r), 0 as real)) by {
                assert(size(0 as real) * ulp() == 0 as real) by (nonlinear_arith);
            }
        } else {
            lemma_rounded(n, u, exact);
            lemma_signed(r, neg, exact);
        }
    }
}

/// A quotient as a real.
pub proof fn lemma_over(a: F32, b: F32)
    requires
        a.finite(),
        b.finite(),
        val(b) != 0 as real,
    ensures
        size(val(a) / val(b)) <= vast() ==> a.over(b).finite(),
        a.over(b).finite() ==> rounds(val(a.over(b)), val(a) / val(b)),
{
    reveal(F32::over);
    lemma_speck();
    lemma_val(a);
    lemma_val(b);
    let r = a.over(b);
    lemma_val(r);
    let (x, y) = (a.parts().size(Format::Single), b.parts().size(Format::Single));
    let (s, u) = (speck(), pow2(149) as int);
    let (p, q) = (size(val(a)), size(val(b)));
    let exact = p / q;
    let n = x * u;
    lemma_pow2_pos(149);
    assert(y > 0) by (nonlinear_arith)
        requires
            q == y as real * s,
            q > 0 as real,
            s > 0 as real,
    ;
    assert(size(val(a) / val(b)) == exact && exact >= 0 as real && exact * q == p)
        by (nonlinear_arith)
        requires
            exact == p / q,
            p == size(val(a)),
            q == size(val(b)),
            q > 0 as real,
    ;
    assert(n as real == x as real * u as real && n >= 0) by (nonlinear_arith)
        requires
            n == x * u,
            x >= 0,
            u > 0,
    ;
    assert(exact * y as real == n as real * s) by (nonlinear_arith)
        requires
            n as real == x as real * u as real,
            exact * q == p,
            p == x as real * s,
            q == y as real * s,
            s * u as real == 1 as real,
            s > 0 as real,
    {
        assert((exact * y as real) * s == x as real * s) by (nonlinear_arith)
            requires
                exact * q == p,
                p == x as real * s,
                q == y as real * s,
        ;
        assert(exact * y as real == x as real) by (nonlinear_arith)
            requires
                (exact * y as real) * s == x as real * s,
                s > 0 as real,
        ;
        assert((x as real * u as real) * s == x as real * (s * u as real)) by (nonlinear_arith);
    }
    law_ratio_rounds(Format::Single, n, y);
    if exact <= vast() {
        lemma_fits(n, y, exact);
    }
    if r.finite() {
        let neg = a.parts().neg != b.parts().neg;
        assert(val(a) / val(b) == if neg { -exact } else { exact }) by (nonlinear_arith)
            requires
                exact == p / q,
                p == size(val(a)),
                q == size(val(b)),
                q > 0 as real,
                a.parts().neg ==> val(a) <= 0 as real,
                !a.parts().neg ==> val(a) >= 0 as real,
                b.parts().neg ==> val(b) <= 0 as real,
                !b.parts().neg ==> val(b) >= 0 as real,
                neg == (a.parts().neg != b.parts().neg),
        ;
        if a.parts().key == 0 {
            assert(exact == 0 as real) by (nonlinear_arith)
                requires
                    exact * q == p,
                    p == 0 as real,
                    q > 0 as real,
            ;
            assert(rounds(val(r), 0 as real)) by {
                assert(size(0 as real) * ulp() == 0 as real) by (nonlinear_arith);
            }
        } else {
            lemma_rounded(n, y, exact);
            lemma_signed(r, neg, exact);
        }
    }
}

/// The step after a value is at most a gap of its size.
proof fn lemma_gap_real(k: int)
    requires
        0 <= k,
    ensures
        ({
            let g = pow2(gap_exp(23, k)) as real * speck();
            let r = rung(23, k) as real * speck();
            &&& rung(23, k + 1) == rung(23, k) + pow2(gap_exp(23, k))
            &&& 0 <= rung(23, k)
            &&& 0 as real <= g <= r * ulp() + speck()
        }),
{
    lemma_speck();
    lemma2_to64();
    lemma2_to64_rest();
    lemma_rung_step(23, k);
    lemma_gap_small(23, k);
    lemma_pow2_pos(gap_exp(23, k));
    lemma_rung_zero(23);
    if k > 0 {
        lemma_rung_ascends(23, 0, k);
    }
    let (g, r, s) = (pow2(gap_exp(23, k)) as int, rung(23, k), speck());
    assert(0x80_0000 * g <= r + 0x80_0000) by (nonlinear_arith)
        requires
            pow2(23) * g <= r + pow2(23),
            pow2(23) == 0x80_0000,
    ;
    let (x, y) = (g as real, r as real);
    assert(0x80_0000 as real * x <= y + 0x80_0000 as real);
    assert(0 as real <= x * s <= (y * s) * ulp() + s) by (nonlinear_arith)
        requires
            0x80_0000 as real * x <= y + 0x80_0000 as real,
            x >= 0 as real,
            s > 0 as real,
            ulp() == 1 as real / 0x80_0000 as real,
    ;
}

/// Twice a value, moved by a gap and squared, as a real.
proof fn lemma_squared_units(w: int, n: int, x: int, s: real, u: int)
    requires
        s > 0 as real,
        s * u as real == 1 as real,
        n == x * u,
    ensures
        ({
            let (z, a) = (w as real * s, x as real * s);
            &&& 4 * n - w * w <= 0 ==> 4 as real * a <= z * z
            &&& 4 * n - w * w >= 0 ==> z * z <= 4 as real * a
        }),
{
    let (z, a) = (w as real * s, x as real * s);
    let (ww, v) = (w as real, x as real);
    let sq = w * w;
    assert(sq as real == ww * ww) by (nonlinear_arith)
        requires
            sq == w * w,
            ww == w as real,
    ;
    assert(n as real == v * u as real) by (nonlinear_arith)
        requires
            n == x * u,
            v == x as real,
    ;
    assert(z * z == (ww * ww) * (s * s)) by (nonlinear_arith)
        requires
            z == ww * s,
    ;
    assert(4 as real * a == (4 as real * n as real) * (s * s)) by (nonlinear_arith)
        requires
            a == v * s,
            n as real == v * u as real,
            s * u as real == 1 as real,
    {
        assert((v * u as real) * (s * s) == v * s * (s * u as real)) by (nonlinear_arith);
    }
    let (p, q, t) = (ww * ww, 4 as real * n as real, s * s);
    assert(t > 0 as real) by (nonlinear_arith)
        requires
            t == s * s,
            s > 0 as real,
    ;
    assert((q <= p ==> q * t <= p * t) && (p <= q ==> p * t <= q * t)) by (nonlinear_arith)
        requires
            t > 0 as real,
    ;
}

/// A square root as a real: its square is close to the number.
pub proof fn lemma_root(a: F32)
    requires
        a.finite(),
        val(a) >= 0 as real,
        val(a) <= vast(),
    ensures
        ({
            let r = val(a.root());
            let g = r * ulp() + speck();
            &&& a.root().finite()
            &&& r >= 0 as real
            &&& r * r <= val(a) + r * g
            &&& val(a) <= r * r + r * g + g * g / 4 as real
        }),
{
    reveal(F32::root);
    lemma_speck();
    lemma_val(a);
    let f = Format::Single;
    let (s, u, x) = (speck(), pow2(149) as int, a.parts().size(f));
    let n = x * u;
    let root = a.root();
    lemma_val(root);
    lemma_pow2_pos(149);
    if a.parts().key == 0 {
        assert(root.parts().key == 0);
        assert(speck() * speck() / 4 as real >= 0 as real) by (nonlinear_arith)
            requires
                speck() > 0 as real,
        ;
        assert(0 as real * ulp() == 0 as real) by (nonlinear_arith);
    } else {
        let k = rounded_root(f, n);
        let side = root_side(n);
        law_root_rounds(f, n);
        lemma_root_fits(a, n);
        lemma_gap_real(k);
        let r = rung(23, k);
        let over = r + rung(23, k + 1);
        assert(side(over) <= 0);
        lemma_squared_units(over, n, x, s, u);
        let (y, g) = (r as real * s, pow2(gap_exp(23, k)) as real * s);
        assert(over as real * s == 2 as real * y + g) by (nonlinear_arith)
            requires
                over == 2 * r + pow2(gap_exp(23, k)),
                y == r as real * s,
                g == pow2(gap_exp(23, k)) as real * s,
        ;
        assert(val(root) == y);
        let most = y * ulp() + s;
        assert(y >= 0 as real) by (nonlinear_arith)
            requires
                y == r as real * s,
                r >= 0,
                s > 0 as real,
        ;
        assert(val(a) <= y * y + y * most + most * most / 4 as real) by (nonlinear_arith)
            requires
                4 as real * val(a) <= (2 as real * y + g) * (2 as real * y + g),
                0 as real <= g <= most,
                y >= 0 as real,
        ;
        if k > 0 {
            lemma_gap_real(k - 1);
            let below = rung(23, k - 1);
            let under = below + r;
            assert(side(under) >= 0);
            lemma_squared_units(under, n, x, s, u);
            let (z, h) = (below as real * s, pow2(gap_exp(23, k - 1)) as real * s);
            assert(z + h == y) by (nonlinear_arith)
                requires
                    r == below + pow2(gap_exp(23, k - 1)),
                    z == below as real * s,
                    h == pow2(gap_exp(23, k - 1)) as real * s,
                    y == r as real * s,
            ;
            assert(under as real * s == 2 as real * y - h) by (nonlinear_arith)
                requires
                    under == 2 * r - pow2(gap_exp(23, k - 1)),
                    y == r as real * s,
                    h == pow2(gap_exp(23, k - 1)) as real * s,
            ;
            assert(z * ulp() <= y * ulp()) by (nonlinear_arith)
                requires
                    z <= y,
                    ulp() > 0 as real,
            ;
            assert(y * y <= val(a) + y * most) by (nonlinear_arith)
                requires
                    (2 as real * y - h) * (2 as real * y - h) <= 4 as real * val(a),
                    0 as real <= h <= most,
                    y >= 0 as real,
            ;
        } else {
            lemma_rung_zero(23);
            assert(y * y <= val(a) + y * most) by (nonlinear_arith)
                requires
                    y == 0 as real,
                    val(a) >= 0 as real,
            ;
        }
    }
}

/// The square root of a number that is not vast is finite.
proof fn lemma_root_fits(a: F32, n: int)
    requires
        a.finite(),
        a.parts().key > 0,
        !a.parts().neg,
        val(a) <= vast(),
        n == a.parts().size(Format::Single) * pow2(149),
    ensures
        0 <= rounded_root(Format::Single, n) < Format::Single.infinity(),
{
    let f = Format::Single;
    lemma_speck();
    lemma_val(a);
    lemma2_to64();
    lemma2_to64_rest();
    law_root_rounds(f, n);
    lemma_pow2_pos(149);
    let k = rounded_root(f, n);
    let u = pow2(149) as int;
    if k == f.infinity() {
        let j: int = 0x5D80_0000;
        lemma_rung_in_binade(23, 186, 0x80_0000);
        lemma_pow2_adds(23, 186);
        lemma_pow2_adds(60, 149);
        let top = rung(23, j);
        assert(top == 0x1000_0000_0000_0000 * u);
        lemma_rung_ascends(23, j, k - 1);
        lemma_rung_ascends(23, j, k);
        let under = rung(23, k - 1) + rung(23, k);
        let side = root_side(n);
        assert(side(under) >= 0);
        let x = a.parts().size(f);
        assert(x <= 0x1000_0000_0000_0000 * u) by (nonlinear_arith)
            requires
                val(a) * u as real == x as real,
                val(a) <= vast(),
                vast() == 0x1000_0000_0000_0000 as real,
                u > 0,
        ;
        assert(false) by (nonlinear_arith)
            requires
                4 * n - under * under >= 0,
                under >= 2 * top,
                top == 0x1000_0000_0000_0000 * u,
                n == x * u,
                x <= 0x1000_0000_0000_0000 * u,
                u > 0,
        {
            assert(n <= 0x1000_0000_0000_0000 * (u * u)) by (nonlinear_arith)
                requires
                    n == x * u,
                    x <= 0x1000_0000_0000_0000 * u,
                    u > 0,
            ;
            assert(under * under >= 4 * (top * top)) by (nonlinear_arith)
                requires
                    under >= 2 * top,
                    top > 0,
            ;
            assert(top * top == 0x1000_0000_0000_0000 * (0x1000_0000_0000_0000 * (u * u)))
                by (nonlinear_arith)
                requires
                    top == 0x1000_0000_0000_0000 * u,
            ;
            assert(u * u > 0) by (nonlinear_arith)
                requires
                    u > 0,
            ;
        }
    }
}

} // verus!
