//! That ordinary frames fit into the input of a model.
use crate::cpu_detectors::{fits, fitted, fitting_scale, TWO};
use crate::rounding::{
    in_binade, law_ratio_rounds, law_rounding_error, law_rounding_keeps_order, lemma_rung_ascends,
    lemma_rung_in_binade, lemma_rung_zero, rounded_ratio, rung, Format,
};
use crate::single::F32;
use crate::whole::{whole_part, Toward};
use vstd::arithmetic::div_mod::{lemma_fundamental_div_mod, lemma_fundamental_div_mod_converse};
use vstd::arithmetic::mul::lemma_mul_is_associative;
use vstd::arithmetic::power2::{
    lemma2_to64, lemma2_to64_rest, lemma_pow2_adds, lemma_pow2_pos, lemma_pow2_unfold, pow2,
};
use vstd::prelude::*;

verus! {

/// The number of the value `q` times two to the power `t`.
proof fn lemma_key_of(q: int, t: nat) -> (k: int)
    requires
        0 <= q < 0x100_0000,
    ensures
        0 <= k <= t * 0x80_0000 + q,
        rung(23, k) == q * pow2(t),
    decreases t,
{
    lemma2_to64();
    lemma2_to64_rest();
    if t == 0 || q >= 0x80_0000 {
        let k = t * 0x80_0000 + q;
        assert(in_binade(23, t, q));
        lemma_rung_in_binade(23, t, q);
        k
    } else {
        lemma_pow2_unfold(t);
        let below = pow2((t - 1) as nat);
        assert((2 * q) * below == q * pow2(t)) by (nonlinear_arith)
            requires
                pow2(t) == 2 * below,
        ;
        lemma_key_of(2 * q, (t - 1) as nat)
    }
}

/// Small whole numbers are held exactly.
pub proof fn law_small_whole_is_exact(n: nat)
    requires
        n <= 0x100_0000,
    ensures
        !F32::of_whole(n).parts().neg,
        F32::of_whole(n).parts().key <= 0x4B80_0000,
        F32::of_whole(n).parts().size(Format::Single) == n * pow2(149),
        n > 0 ==> F32::of_whole(n).parts().key > 0,
        n < 0x100_0000 ==> F32::of_whole(n).parts().key < 0x4B80_0000,
{
    reveal(F32::of_whole);
    lemma2_to64();
    lemma2_to64_rest();
    lemma_pow2_pos(149);
    let u = pow2(149) as int;
    lemma_rung_zero(23);
    if n > 0 {
        let k = if n < 0x100_0000 {
            lemma_key_of(n as int, 149)
        } else {
            lemma_pow2_adds(1, 149);
            assert(0x80_0000 * pow2(150) == 0x100_0000 * u) by (nonlinear_arith)
                requires
                    pow2(150) == 2 * u,
            ;
            lemma_key_of(0x80_0000, 150)
        };
        law_rounding_keeps_order(Format::Single, n * u, 1, k);
        assert(n * u > 0) by (nonlinear_arith)
            requires
                n > 0,
                u > 0,
        ;
    } else {
        assert(0 * u == 0);
    }
}

/// The bound of what is scaled is a small whole number: the scale is a length
/// over an extent, rounded up by less than would show.
proof fn lemma_scale_bounded(extent: nat, size: nat, scale: F32)
    requires
        1 <= extent <= 0x100_0000,
        1 <= size <= 0x10_0000,
        !scale.parts().neg,
        scale.parts().key <= F32::of_whole(size).over(F32::of_whole(extent)).parts().key,
    ensures
        scale.finite(),
        0xFF_FFFF * (extent * scale.parts().size(Format::Single)) <= 0x100_0000 * (size * pow2(149))
            + pow2(149),
        0 <= extent * scale.parts().size(Format::Single),
{
    reveal(F32::over);
    lemma2_to64();
    lemma2_to64_rest();
    lemma_pow2_pos(149);
    lemma_pow2_adds(64, 85);
    lemma_pow2_pos(85);
    let u = pow2(149) as int;
    assert(u >= 0x1_0000_0000_0000) by (nonlinear_arith)
        requires
            u == pow2(64) * pow2(85),
            pow2(64) == 0x1_0000_0000_0000_0000,
            pow2(85) >= 1,
    ;
    law_small_whole_is_exact(extent);
    law_small_whole_is_exact(size);
    let a = F32::of_whole(size).parts();
    let b = F32::of_whole(extent).parts();
    let n = (size * u) * u;
    let d = extent * u;
    assert(d > 0) by (nonlinear_arith)
        requires
            d == extent * u,
            extent > 0,
            u > 0,
    ;
    assert(0 <= n <= (size * u) * d) by (nonlinear_arith)
        requires
            n == (size * u) * u,
            d == extent * u,
            extent >= 1,
            size >= 1,
            u > 0,
    ;
    law_rounding_keeps_order(Format::Single, n, d, a.key as int);
    let k = rounded_ratio(Format::Single, n, d);
    law_ratio_rounds(Format::Single, n, d);
    assert(F32::of_whole(size).over(F32::of_whole(extent)).parts().key == k);
    law_rounding_error(Format::Single, n, d);
    let r = rung(23, k);
    let c = scale.parts().size(Format::Single);
    if scale.parts().key < k {
        lemma_rung_ascends(23, scale.parts().key as int, k);
    }
    if 0 < scale.parts().key {
        lemma_rung_ascends(23, 0, scale.parts().key as int);
    }
    lemma_rung_zero(23);
    let x = extent * r;
    let s = size * u;
    // the error of the quotient, with the unit taken out
    assert(0x100_0000 * (x - s) <= x + 0x80_0000 * extent) by (nonlinear_arith)
        requires
            2 * 0x80_0000 * (r * d - n) <= (r + 0x80_0000) * d,
            d == extent * u,
            n == s * u,
            x == extent * r,
            u > 0,
    {
        assert(r * d - n == (x - s) * u) by (nonlinear_arith)
            requires
                d == extent * u,
                n == s * u,
                x == extent * r,
        ;
        assert(r * d == x * u) by (nonlinear_arith)
            requires
                d == extent * u,
                x == extent * r,
        ;
        assert((r + 0x80_0000) * d == r * d + 0x80_0000 * (extent * u)) by (nonlinear_arith)
            requires
                d == extent * u,
        ;
        let y = 0x80_0000 * extent;
        assert((x + y) * u == x * u + y * u) by (nonlinear_arith);
        lemma_mul_is_associative(0x80_0000, extent as int, u);
        let left = 0x100_0000 * (x - s);
        let right = x + 0x80_0000 * extent;
        assert(left * u <= right * u) by (nonlinear_arith)
            requires
                2 * 0x80_0000 * ((x - s) * u) <= right * u,
                left == 0x100_0000 * (x - s),
        ;
        assert(left <= right) by (nonlinear_arith)
            requires
                left * u <= right * u,
                u > 0,
        ;
    }
    assert(0 <= extent * c <= x) by (nonlinear_arith)
        requires
            0 <= c <= r,
            x == extent * r,
            extent >= 1,
    ;
}

/// What becomes of an extent at a scale that fits it into a square: no more than
/// the square, and no fraction.
proof fn lemma_scaled_bounded(extent: nat, size: nat, scale: F32)
    requires
        1 <= extent <= 0x100_0000,
        1 <= size <= 0x10_0000,
        !scale.parts().neg,
        scale.parts().key <= F32::of_whole(size).over(F32::of_whole(extent)).parts().key,
    ensures
        F32::of_whole(extent).times(scale).rounded().before_point() <= size,
{
    reveal(F32::times);
    lemma2_to64();
    lemma2_to64_rest();
    lemma_pow2_pos(149);
    lemma_pow2_adds(1, 148);
    lemma_pow2_adds(64, 85);
    lemma_pow2_pos(85);
    let u = pow2(149) as int;
    assert(u >= 0x1_0000_0000_0000) by (nonlinear_arith)
        requires
            u == pow2(64) * pow2(85),
            pow2(64) == 0x1_0000_0000_0000_0000,
            pow2(85) >= 1,
    ;
    lemma_rung_zero(23);
    law_small_whole_is_exact(extent);
    law_small_whole_is_exact((2 * size) as nat);
    lemma_scale_bounded(extent, size, scale);
    let c = scale.parts().size(Format::Single);
    let x = extent * c;
    let s = size * u;
    assert(s <= 0x10_0000 * u) by (nonlinear_arith)
        requires
            s == size * u,
            size <= 0x10_0000,
            u > 0,
    ;
    assert(s >= u) by (nonlinear_arith)
        requires
            s == size * u,
            size >= 1,
            u > 0,
    ;
    let p = F32::of_whole(extent).times(scale);
    lemma_fundamental_div_mod_converse(0, u, 0, 0);
    if scale.parts().key == 0 {
        assert(p.parts().key == 0);
        assert(p.rounded() == p);
        assert(p.before_point() == 0);
    } else {
        let n = (extent * u) * c;
        let k = rounded_ratio(Format::Single, n, u);
        let top = F32::of_whole((2 * size) as nat).parts();
        assert(n == x * u) by (nonlinear_arith)
            requires
                n == (extent * u) * c,
                x == extent * c,
        ;
        assert((2 * size) * u == 2 * s) by (nonlinear_arith)
            requires
                s == size * u,
        ;
        assert(x <= 2 * s);
        assert(0 <= n <= (2 * s) * u) by (nonlinear_arith)
            requires
                n == x * u,
                0 <= x <= 2 * s,
                u > 0,
        ;
        law_ratio_rounds(Format::Single, n, u);
        law_rounding_keeps_order(Format::Single, n, u, top.key as int);
        law_rounding_error(Format::Single, n, u);
        assert(p.parts().key == k && !p.parts().neg);
        let r = rung(23, k);
        assert(0x100_0000 * (r - x) <= r + 0x80_0000) by (nonlinear_arith)
            requires
                2 * 0x80_0000 * (r * u - n) <= (r + 0x80_0000) * u,
                n == x * u,
                u > 0,
        {
            let left = 0x100_0000 * (r - x);
            let right = r + 0x80_0000;
            assert(left * u == 2 * 0x80_0000 * (r * u - x * u)) by (nonlinear_arith)
                requires
                    left == 0x100_0000 * (r - x),
            ;
            assert(left <= right) by (nonlinear_arith)
                requires
                    left * u <= right * u,
                    u > 0,
            ;
        }
        // with both errors the result lies less than one half above the square
        assert(2 * r < 2 * s + u);
        if k > 0 {
            lemma_rung_ascends(23, 0, k);
        }
        let w = whole_part(Format::Single, r, Toward::Nearest);
        lemma_fundamental_div_mod(r + pow2(148), u);
        assert(0 <= w <= size) by (nonlinear_arith)
            requires
                r + pow2(148) == u * w + (r + pow2(148)) % u,
                0 <= (r + pow2(148)) % u < u,
                2 * r < 2 * (size * u) + u,
                2 * pow2(148) == u,
                r >= 0,
                u > 0,
        ;
        if k == 0 {
            assert(p.rounded() == p);
            assert(p.before_point() == 0);
        } else {
            assert(!p.coarse());
            let whole = F32::of_whole(w as nat);
            assert(p.rounded() == whole);
            law_small_whole_is_exact(w as nat);
            lemma_fundamental_div_mod_converse(w * u, u, w, 0);
            assert(whole.before_point() == w);
        }
    }
}

/// Half of a whole number is no more than it.
proof fn lemma_half_bounded(m: nat)
    requires
        m <= 0x10_0000,
    ensures
        F32::of_whole(m).over(F32 { bits: TWO }).before_point() <= m,
{
    reveal(F32::over);
    lemma2_to64();
    lemma2_to64_rest();
    lemma_pow2_pos(149);
    lemma_rung_zero(23);
    law_small_whole_is_exact(m);
    let u = pow2(149) as int;
    let two = F32 { bits: TWO };
    lemma_rung_in_binade(23, 127, 0x80_0000);
    lemma_pow2_adds(23, 127);
    lemma_pow2_adds(1, 149);
    assert(two.parts().size(Format::Single) == 2 * u);
    let a = F32::of_whole(m).parts();
    let h = F32::of_whole(m).over(two);
    if m == 0 {
        assert(a.key == 0) by {
            if a.key > 0 {
                lemma_rung_ascends(23, 0, a.key as int);
            }
        }
        lemma_fundamental_div_mod_converse(0, u, 0, 0);
    } else {
        let n = (m * u) * u;
        let d = 2 * u;
        assert(0 <= n <= (m * u) * d) by (nonlinear_arith)
            requires
                n == (m * u) * u,
                d == 2 * u,
                u > 0,
                m > 0,
        ;
        law_ratio_rounds(Format::Single, n, d);
        law_rounding_keeps_order(Format::Single, n, d, a.key as int);
        let k = rounded_ratio(Format::Single, n, d);
        assert(h.parts().key == k && !h.parts().neg);
        if k < a.key {
            lemma_rung_ascends(23, k, a.key as int);
        }
        if k > 0 {
            lemma_rung_ascends(23, 0, k);
        }
        let r = rung(23, k);
        lemma_fundamental_div_mod(r, u);
        let w = r / u;
        assert(0 <= w <= m) by (nonlinear_arith)
            requires
                r == u * w + r % u,
                0 <= r % u < u,
                0 <= r <= m * u,
                u > 0,
        ;
    }
}

/// Every frame of ordinary size fits into the input of a model: rounding never
/// makes it reach beyond the square.
pub proof fn law_ordinary_frames_fit(width: u32, height: u32, size: u32)
    requires
        1 <= width <= 0x100_0000,
        1 <= height <= 0x100_0000,
        1 <= size <= 0x10_0000,
    ensures
        fits(width, height, size),
{
    let s = F32::of_whole(size as nat);
    let across = s.over(F32::of_whole(width as nat));
    let down = s.over(F32::of_whole(height as nat));
    lemma_ratio_ordered(width as nat, size as nat);
    lemma_ratio_ordered(height as nat, size as nat);
    let scale = fitting_scale(width, height, size);
    assert(scale == across || scale == down);
    lemma_scaled_bounded(width as nat, size as nat, scale);
    lemma_scaled_bounded(height as nat, size as nat, scale);
    let b = fitted(width, height, size);
    lemma_half_bounded((size - b.width) as nat);
    lemma_half_bounded((size - b.height) as nat);
}

/// A quotient of small whole numbers is a number and not negative.
proof fn lemma_ratio_ordered(extent: nat, size: nat)
    requires
        1 <= extent <= 0x100_0000,
        1 <= size <= 0x10_0000,
    ensures
        !F32::of_whole(size).over(F32::of_whole(extent)).parts().neg,
        F32::of_whole(size).over(F32::of_whole(extent)).finite(),
{
    reveal(F32::over);
    law_small_whole_is_exact(extent);
    law_small_whole_is_exact(size);
    let r = F32::of_whole(size).over(F32::of_whole(extent));
    lemma_pow2_pos(149);
    let u = pow2(149) as int;
    assert(extent * u > 0) by (nonlinear_arith)
        requires
            extent >= 1,
            u > 0,
    ;
    law_ratio_rounds(Format::Single, (size * u) * u, extent * u);
    assert(!r.parts().neg);
    lemma_scale_bounded(extent, size, r);
}

} // verus!
