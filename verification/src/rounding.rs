//! What it means to round a real number to a binary floating-point format.
//!
//! The non-negative values of a format, in ascending order, are numbered by
//! their bit patterns: value number `k` is the one whose bits (without the
//! sign) read `k`. All values are whole multiples of the smallest positive
//! one, and `rung` gives the multiple. Rounding is the search for the number
//! of the value closest to a given real, ties going to the even number.
use vstd::arithmetic::div_mod::{lemma_fundamental_div_mod, lemma_fundamental_div_mod_converse};
use vstd::arithmetic::power2::{lemma_pow2_pos, lemma_pow2_unfold, pow2};
use vstd::prelude::*;

verus! {

/// A binary format.
#[derive(Clone, Copy, PartialEq, Eq, Structural)]
pub enum Format {
    /// 32 bits: a sign, 8 exponent bits, 23 fraction bits.
    Single,
    /// 64 bits: a sign, 11 exponent bits, 52 fraction bits.
    Double,
}

impl Format {
    /// The number of bits after the leading one.
    pub open spec fn frac(self) -> nat {
        match self {
            Format::Single => 23,
            Format::Double => 52,
        }
    }

    /// The number of the pattern behind the largest finite value.
    pub open spec fn infinity(self) -> int {
        match self {
            Format::Single => 0x7F80_0000,
            Format::Double => 0x7FF0_0000_0000_0000,
        }
    }

    /// The smallest positive value is two to the power `-unit`.
    pub open spec fn unit(self) -> nat {
        match self {
            Format::Single => 149,
            Format::Double => 1074,
        }
    }
}

/// The exponent of the gap that follows value number `k`.
pub open spec fn gap_exp(p: nat, k: int) -> nat {
    let e = k / pow2(p) as int;
    if e <= 0 {
        0
    } else {
        (e - 1) as nat
    }
}

/// Value number `k`, as a multiple of the smallest positive value.
pub open spec fn rung(p: nat, k: int) -> int {
    (k - gap_exp(p, k) * pow2(p)) * pow2(gap_exp(p, k))
}

/// `k` is the number of the value closest to a real `x`, ties going to the
/// even number and everything from half a gap below infinity onwards going to
/// infinity. `side(w)` is positive, zero or negative as `2 x` is above, at or
/// below `w`.
pub open spec fn nearest(f: Format, side: spec_fn(int) -> int, k: int) -> bool {
    let p = f.frac();
    &&& 0 <= k <= f.infinity()
    &&& k > 0 ==> {
        let below = side(rung(p, k - 1) + rung(p, k));
        below > 0 || (below == 0 && k % 2 == 0)
    }
    &&& k < f.infinity() ==> {
        let above = side(rung(p, k) + rung(p, k + 1));
        above < 0 || (above == 0 && k % 2 == 0)
    }
}

/// On which side of `w` twice the fraction `n / d` lies.
pub open spec fn ratio_side(n: int, d: int) -> spec_fn(int) -> int {
    |w: int| 2 * n - w * d
}

/// On which side of `w` twice the square root of `n` lies.
pub open spec fn root_side(n: int) -> spec_fn(int) -> int {
    |w: int| 4 * n - w * w
}

/// The number of the value closest to the fraction `n / d`.
pub open spec fn rounded_ratio(f: Format, n: int, d: int) -> int {
    choose|k: int| nearest(f, ratio_side(n, d), k)
}

/// The number of the value closest to the square root of `n`.
pub open spec fn rounded_root(f: Format, n: int) -> int {
    choose|k: int| nearest(f, root_side(n), k)
}

/// `side` falls strictly as its argument grows.
pub open spec fn falling(side: spec_fn(int) -> int) -> bool {
    forall|v: int, w: int| 0 <= v < w ==> #[trigger] side(v) > #[trigger] side(w)
}

/// A significand and the exponent of its last place: either the lowest gap, or
/// a leading one in the highest place.
pub open spec fn in_binade(p: nat, t: nat, q: int) -> bool {
    0 <= q < 2 * pow2(p) && (t == 0 || pow2(p) <= q)
}

/// The number of the value with significand `q` and last place `t`, and of
/// its neighbour above.
pub proof fn lemma_rung_in_binade(p: nat, t: nat, q: int)
    requires
        in_binade(p, t, q),
    ensures
        rung(p, t * pow2(p) + q) == q * pow2(t),
        rung(p, t * pow2(p) + q + 1) == (q + 1) * pow2(t),
        gap_exp(p, t * pow2(p) + q) == t,
{
    let b = pow2(p) as int;
    lemma_pow2_pos(p);
    let k = t * pow2(p) + q;
    if q < b {
        assert(k == q) by (nonlinear_arith)
            requires
                k == t * b + q,
                t == 0,
        ;
        lemma_fundamental_div_mod_converse(k, b, 0, q);
        if q + 1 < b {
            lemma_fundamental_div_mod_converse(k + 1, b, 0, q + 1);
        } else {
            assert(k + 1 == 1 * b + 0);
            lemma_fundamental_div_mod_converse(k + 1, b, 1, 0);
        }
        assert(gap_exp(p, k) == 0 && gap_exp(p, k + 1) == 0);
    } else {
        assert(k == (t + 1) * b + (q - b)) by (nonlinear_arith)
            requires
                k == t * b + q,
        ;
        lemma_fundamental_div_mod_converse(k, b, t as int + 1, q - b);
        assert(gap_exp(p, k) == t);
        if q + 1 < 2 * b {
            assert(k + 1 == (t + 1) * b + (q + 1 - b)) by (nonlinear_arith)
                requires
                    k == t * b + q,
            ;
            lemma_fundamental_div_mod_converse(k + 1, b, t as int + 1, q + 1 - b);
            assert(gap_exp(p, k + 1) == t);
        } else {
            assert(k + 1 == (t + 2) * b + 0) by (nonlinear_arith)
                requires
                    k == t * b + q,
                    q + 1 == 2 * b,
            ;
            lemma_fundamental_div_mod_converse(k + 1, b, t as int + 2, 0);
            assert(gap_exp(p, k + 1) == t + 1);
            lemma_pow2_unfold((t + 1) as nat);
            assert((k + 1) - (t + 1) * b == b) by (nonlinear_arith)
                requires
                    k + 1 == (t + 2) * b,
            ;
            assert(b * (2 * pow2(t)) == (2 * b) * pow2(t)) by (nonlinear_arith);
        }
    }
}

/// Every number splits into a significand and a last place.
pub proof fn lemma_split(p: nat, k: int)
    requires
        0 <= k,
    ensures
        in_binade(p, gap_exp(p, k), k - gap_exp(p, k) * pow2(p)),
{
    let b = pow2(p) as int;
    lemma_pow2_pos(p);
    lemma_fundamental_div_mod(k, b);
    let e = k / b;
    let t = gap_exp(p, k);
    let r = k % b;
    assert(k == b * e + r);
    assert(e >= 0) by (nonlinear_arith)
        requires
            k == b * e + r,
            0 <= r < b,
            0 <= k,
            b > 0,
    ;
    if e == 0 {
        assert(t * b == 0 && b * e == 0) by (nonlinear_arith)
            requires
                t == 0,
                e == 0,
        ;
    } else {
        assert(t * b == b * e - b) by (nonlinear_arith)
            requires
                t == e - 1,
        ;
    }
}

/// The gap behind value number `k` is two to the power `gap_exp`.
pub proof fn lemma_rung_step(p: nat, k: int)
    requires
        0 <= k,
    ensures
        rung(p, k + 1) == rung(p, k) + pow2(gap_exp(p, k)),
        rung(p, k) < rung(p, k + 1),
        0 <= rung(p, k),
{
    let t = gap_exp(p, k);
    let q = k - t * pow2(p);
    lemma_split(p, k);
    lemma_rung_in_binade(p, t, q);
    lemma_pow2_pos(t);
    assert((q + 1) * pow2(t) == q * pow2(t) + pow2(t)) by (nonlinear_arith);
    assert(q * pow2(t) >= 0) by (nonlinear_arith)
        requires
            q >= 0,
    ;
}

/// The values ascend with their numbers.
pub proof fn lemma_rung_ascends(p: nat, j: int, k: int)
    requires
        0 <= j < k,
    ensures
        rung(p, j) < rung(p, k),
        0 <= rung(p, j),
    decreases k - j,
{
    lemma_rung_step(p, j);
    if j + 1 < k {
        lemma_rung_ascends(p, j + 1, k);
    }
}

/// At most one number is nearest.
pub proof fn lemma_nearest_unique(f: Format, side: spec_fn(int) -> int, j: int, k: int)
    requires
        falling(side),
        nearest(f, side, j),
        nearest(f, side, k),
    ensures
        j == k,
{
    let p = f.frac();
    if j < k {
        lemma_nearest_ordered(f, side, j, k);
    } else if k < j {
        lemma_nearest_ordered(f, side, k, j);
    }
}

proof fn lemma_nearest_ordered(f: Format, side: spec_fn(int) -> int, j: int, k: int)
    requires
        falling(side),
        nearest(f, side, j),
        0 <= j < k,
    ensures
        !nearest(f, side, k),
{
    let p = f.frac();
    lemma_rung_step(p, j);
    lemma_rung_step(p, k - 1);
    let v = rung(p, j) + rung(p, j + 1);
    let w = rung(p, k - 1) + rung(p, k);
    if j + 1 < k {
        lemma_rung_ascends(p, j, k - 1);
        lemma_rung_ascends(p, j + 1, k);
        assert(0 <= v < w);
        assert(side(v) > side(w));
    }
}

/// From a significand `q` below `x`, with `x` less than one last place above
/// it, the nearest number is the one of `q` or the next.
pub proof fn lemma_round_from_floor(
    f: Format,
    side: spec_fn(int) -> int,
    t: nat,
    q: int,
    up: bool,
)
    requires
        falling(side),
        in_binade(f.frac(), t, q),
        side(2 * q * pow2(t)) >= 0,
        side(2 * (q + 1) * pow2(t)) < 0,
        ({
            let half = side((2 * q + 1) * pow2(t));
            up == (half > 0 || (half == 0 && q % 2 == 1))
        }),
    ensures
        ({
            let k = t * pow2(f.frac()) + q + (if up { 1int } else { 0int });
            nearest(f, side, if k <= f.infinity() { k } else { f.infinity() })
        }),
{
    let p = f.frac();
    let b = pow2(p) as int;
    let k0 = t * pow2(p) + q;
    lemma_pow2_pos(p);
    lemma_pow2_pos(t);
    lemma_pow2_unfold(p);
    lemma_rung_in_binade(p, t, q);
    assert(k0 >= 0) by (nonlinear_arith)
        requires
            k0 == t * b + q,
            q >= 0,
            b > 0,
            t >= 0,
    ;
    lemma_rung_step(p, k0);
    assert(rung(p, k0) + rung(p, k0 + 1) == (2 * q + 1) * pow2(t)) by (nonlinear_arith)
        requires
            rung(p, k0) == q * pow2(t),
            rung(p, k0 + 1) == (q + 1) * pow2(t),
    ;
    assert(2 * rung(p, k0) == 2 * q * pow2(t)) by (nonlinear_arith)
        requires
            rung(p, k0) == q * pow2(t),
    ;
    assert(2 * rung(p, k0 + 1) == 2 * (q + 1) * pow2(t)) by (nonlinear_arith)
        requires
            rung(p, k0 + 1) == (q + 1) * pow2(t),
    ;
    assert(k0 % 2 == q % 2) by {
        let h = pow2((p - 1) as nat) as int;
        assert(b == 2 * h);
        assert(k0 == 2 * (t * h) + q) by (nonlinear_arith)
            requires
                k0 == t * b + q,
                b == 2 * h,
        ;
    }
    if k0 >= f.infinity() {
        let top = f.infinity();
        lemma_rung_step(p, top - 1);
        if top < k0 {
            lemma_rung_ascends(p, top, k0);
        }
        let w = rung(p, top - 1) + rung(p, top);
        assert(0 <= w < 2 * rung(p, k0));
        assert(side(w) > side(2 * rung(p, k0)));
    } else if !up {
        if k0 > 0 {
            lemma_rung_step(p, k0 - 1);
            let w = rung(p, k0 - 1) + rung(p, k0);
            assert(0 <= w < 2 * rung(p, k0));
            assert(side(w) > side(2 * rung(p, k0)));
        }
    } else {
        lemma_rung_step(p, k0 + 1);
        let w = rung(p, k0 + 1) + rung(p, k0 + 2);
        assert(0 <= 2 * rung(p, k0 + 1) < w);
        assert(side(2 * rung(p, k0 + 1)) > side(w));
    }
}

/// Some number is nearest: among the first `n`, the highest one whose lower
/// neighbour is no closer, or the one below it on an odd tie.
proof fn lemma_nearest_below(f: Format, side: spec_fn(int) -> int, n: int) -> (k: int)
    requires
        falling(side),
        0 <= n <= f.infinity(),
        n < f.infinity() ==> side(rung(f.frac(), n) + rung(f.frac(), n + 1)) < 0,
    ensures
        nearest(f, side, k),
    decreases n,
{
    let p = f.frac();
    if n == 0 {
        0
    } else {
        let below = side(rung(p, n - 1) + rung(p, n));
        if below < 0 {
            lemma_nearest_below(f, side, n - 1)
        } else if below > 0 || n % 2 == 0 {
            n
        } else {
            // an odd tie goes to the even number below
            if n - 1 > 0 {
                lemma_rung_step(p, n - 2);
                lemma_rung_step(p, n - 1);
                let v = rung(p, n - 2) + rung(p, n - 1);
                let w = rung(p, n - 1) + rung(p, n);
                assert(0 <= v < w);
                assert(side(v) > side(w));
            }
            n - 1
        }
    }
}

/// The rounded fraction is the nearest number, and there is exactly one.
pub proof fn law_ratio_rounds(f: Format, n: int, d: int)
    requires
        d > 0,
    ensures
        nearest(f, ratio_side(n, d), rounded_ratio(f, n, d)),
        forall|k: int|
            #[trigger] nearest(f, ratio_side(n, d), k) ==> k == rounded_ratio(f, n, d),
{
    let side = ratio_side(n, d);
    assert forall|v: int, w: int| 0 <= v < w implies #[trigger] side(v) > #[trigger] side(w) by {
        assert(v * d < w * d) by (nonlinear_arith)
            requires
                v < w,
                d > 0,
        ;
    }
    let k = lemma_nearest_below(f, side, f.infinity());
    assert forall|k: int| #[trigger] nearest(f, side, k) implies k == rounded_ratio(f, n, d) by {
        lemma_nearest_unique(f, side, k, rounded_ratio(f, n, d));
    }
}

/// The rounded square root is the nearest number.
pub proof fn law_root_rounds(f: Format, n: int)
    ensures
        nearest(f, root_side(n), rounded_root(f, n)),
{
    let side = root_side(n);
    assert forall|v: int, w: int| 0 <= v < w implies #[trigger] side(v) > #[trigger] side(w) by {
        assert(v * v < w * w) by (nonlinear_arith)
            requires
                0 <= v < w,
        ;
    }
    let k = lemma_nearest_below(f, side, f.infinity());
}

/// Rounding keeps the order: a fraction at or above value number `k` is rounded
/// to `k` or above, one at or below it to `k` or below, and the value itself to
/// itself.
pub proof fn law_rounding_keeps_order(f: Format, n: int, d: int, k: int)
    requires
        d > 0,
        0 <= k <= f.infinity(),
    ensures
        n >= rung(f.frac(), k) * d ==> rounded_ratio(f, n, d) >= k,
        n <= rung(f.frac(), k) * d ==> rounded_ratio(f, n, d) <= k,
        n == rung(f.frac(), k) * d ==> rounded_ratio(f, n, d) == k,
{
    let p = f.frac();
    let side = ratio_side(n, d);
    let j = rounded_ratio(f, n, d);
    law_ratio_rounds(f, n, d);
    let r = rung(p, k);
    if j < k && n >= r * d {
        lemma_rung_step(p, j);
        if j + 1 < k {
            lemma_rung_ascends(p, j + 1, k);
        }
        let w = rung(p, j) + rung(p, j + 1);
        assert(w * d < 2 * n) by (nonlinear_arith)
            requires
                w < 2 * r,
                n >= r * d,
                d > 0,
        ;
        assert(side(w) > 0);
    }
    if j > k && n <= r * d {
        lemma_rung_step(p, j - 1);
        if k < j - 1 {
            lemma_rung_ascends(p, k, j - 1);
        }
        let w = rung(p, j - 1) + rung(p, j);
        assert(w * d > 2 * n) by (nonlinear_arith)
            requires
                w > 2 * r,
                n <= r * d,
                d > 0,
        ;
        assert(side(w) < 0);
    }
}

/// Value number zero is zero.
pub proof fn lemma_rung_zero(p: nat)
    ensures
        rung(p, 0) == 0,
{
    lemma_pow2_pos(p);
    assert(in_binade(p, 0, 0));
    lemma_rung_in_binade(p, 0, 0);
    assert(0 * pow2(p) == 0 && 0 * pow2(0) == 0) by (nonlinear_arith);
}

/// The gap that follows a value is at most that value, cut down by the width of
/// the fraction, or else the lowest gap.
pub proof fn lemma_gap_small(p: nat, k: int)
    requires
        0 <= k,
    ensures
        pow2(p) * pow2(gap_exp(p, k)) <= rung(p, k) + pow2(p),
{
    let t = gap_exp(p, k);
    let q = k - t * pow2(p);
    lemma_split(p, k);
    lemma_pow2_pos(p);
    lemma_pow2_pos(t);
    let b = pow2(p) as int;
    let g = pow2(t) as int;
    if t == 0 {
        vstd::arithmetic::power2::lemma2_to64();
        assert(b * g <= q * g + b) by (nonlinear_arith)
            requires
                g == 1,
                q >= 0,
        ;
    } else {
        assert(b * g <= q * g + b) by (nonlinear_arith)
            requires
                b <= q,
                g > 0,
                b > 0,
        ;
    }
}

/// Rounding moves a fraction by at most half a gap: by at most the result, cut
/// down by one place more than the fraction has, or else half the lowest gap.
pub proof fn law_rounding_error(f: Format, n: int, d: int)
    requires
        d > 0,
        0 <= n,
        rounded_ratio(f, n, d) < f.infinity(),
    ensures
        ({
            let r = rung(f.frac(), rounded_ratio(f, n, d));
            let b = pow2(f.frac());
            &&& 2 * b * (r * d - n) <= (r + b) * d
            &&& 2 * b * (n - r * d) <= (r + b) * d
        }),
{
    let p = f.frac();
    let b = pow2(p) as int;
    let k = rounded_ratio(f, n, d);
    let r = rung(p, k);
    let side = ratio_side(n, d);
    law_ratio_rounds(f, n, d);
    lemma_pow2_pos(p);
    lemma_rung_step(p, k);
    lemma_gap_small(p, k);
    let g = pow2(gap_exp(p, k)) as int;
    let over = r + rung(p, k + 1);
    assert(side(over) <= 0);
    assert(2 * b * (n - r * d) <= (r + b) * d) by (nonlinear_arith)
        requires
            2 * n - over * d <= 0,
            over == 2 * r + g,
            b * g <= r + b,
            b > 0,
            d > 0,
    ;
    if k > 0 {
        lemma_rung_step(p, k - 1);
        lemma_gap_small(p, k - 1);
        let h = pow2(gap_exp(p, k - 1)) as int;
        let under = rung(p, k - 1) + r;
        assert(side(under) >= 0);
        assert(2 * b * (r * d - n) <= (r + b) * d) by (nonlinear_arith)
            requires
                2 * n - under * d >= 0,
                under == 2 * r - h,
                b * h <= r + b,
                b > 0,
                d > 0,
        ;
    } else {
        lemma_rung_zero(p);
        assert(2 * b * (r * d - n) <= (r + b) * d) by (nonlinear_arith)
            requires
                r == 0,
                n >= 0,
                b > 0,
                d > 0,
        ;
    }
}

/// Rounding keeps the order of any two fractions.
pub proof fn law_rounding_monotone(f: Format, a: int, b: int, d: int)
    requires
        d > 0,
        a <= b,
    ensures
        rounded_ratio(f, a, d) <= rounded_ratio(f, b, d),
{
    let p = f.frac();
    let j = rounded_ratio(f, a, d);
    let k = rounded_ratio(f, b, d);
    law_ratio_rounds(f, a, d);
    law_ratio_rounds(f, b, d);
    if j > k {
        let (low, high) = (ratio_side(a, d), ratio_side(b, d));
        let v = rung(p, k) + rung(p, k + 1);
        let w = rung(p, j - 1) + rung(p, j);
        if k + 1 < j {
            lemma_rung_ascends(p, k, j - 1);
            lemma_rung_ascends(p, k + 1, j);
            assert(v * d < w * d) by (nonlinear_arith)
                requires
                    v < w,
                    d > 0,
            ;
        }
        assert(low(w) >= 0 && high(v) <= 0);
    }
}

} // verus!
