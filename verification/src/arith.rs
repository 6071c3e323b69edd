//! Correctly rounded arithmetic on sign and magnitude.
use crate::rounding::{
    falling, gap_exp, in_binade, lemma_nearest_unique, lemma_round_from_floor, lemma_split,
    nearest, ratio_side, root_side, rounded_ratio, rounded_root, rung, Format,
};
use vstd::arithmetic::power2::{
    lemma_pow2_adds, lemma_pow2_pos, lemma_pow2_strictly_increases, lemma_pow2_unfold, pow2,
};
use vstd::bits::lemma_u128_shr_is_div;
use vstd::prelude::*;

verus! {

impl Format {
    /// The number of bits after the leading one.
    fn frac_bits(self) -> (r: u32)
        ensures
            r == self.frac(),
    {
        match self {
            Format::Single => 23,
            Format::Double => 52,
        }
    }

    /// The number of the pattern behind the largest finite value.
    fn infinity_key(self) -> (r: u64)
        ensures
            r == self.infinity(),
    {
        match self {
            Format::Single => 0x7F80_0000,
            Format::Double => 0x7FF0_0000_0000_0000,
        }
    }

    /// The exponent of the smallest positive value, negated.
    fn unit_bits(self) -> (r: i32)
        ensures
            r == self.unit(),
    {
        match self {
            Format::Single => 149,
            Format::Double => 1074,
        }
    }
}

proof fn lemma_one_shl(n: u128)
    requires
        n < 128,
    ensures
        (1u128 << n) == pow2(n as nat),
    decreases n,
{
    if n == 0 {
        assert(1u128 << 0u128 == 1) by (bit_vector);
        lemma_pow2_unfold(1);
        assert(pow2(0) == 1) by {
            vstd::arithmetic::power2::lemma2_to64();
        }
    } else {
        let m = (n - 1) as u128;
        lemma_one_shl(m);
        assert((1u128 << n) == 2 * (1u128 << m)) by (bit_vector)
            requires
                0 < n < 128,
                m == n - 1,
        ;
        lemma_pow2_unfold(n as nat);
    }
}

/// Two to the power `n`.
pub(crate) fn power(n: u32) -> (r: u128)
    requires
        n < 128,
    ensures
        r == pow2(n as nat),
        r > 0,
{
    proof {
        lemma_one_shl(n as u128);
        lemma_pow2_pos(n as nat);
    }
    1u128 << (n as u128)
}

/// On which side of `w` twice the number `m` times two to the power `e` lies.
pub open spec fn dyadic_side(m: int, e: int, w: int) -> int {
    if e >= 0 {
        2 * m * pow2(e as nat) - w
    } else {
        2 * m - w * pow2((-e) as nat)
    }
}

/// The real described by `side` is `m` times two to the power `e`, or with
/// `more` lies strictly between that and `m + 1` times that power.
pub open spec fn tracks(side: spec_fn(int) -> int, m: int, e: int, more: bool) -> bool {
    forall|w: int|
        0 <= w ==> {
            let s = #[trigger] side(w);
            if more {
                &&& dyadic_side(m, e, w) >= 0 ==> s > 0
                &&& dyadic_side(m + 1, e, w) <= 0 ==> s < 0
            } else {
                &&& (s > 0 <==> dyadic_side(m, e, w) > 0)
                &&& (s < 0 <==> dyadic_side(m, e, w) < 0)
            }
        }
}

/// At a multiple of two to the power `t`, the comparison moves to `m` itself.
proof fn lemma_dyadic_at(m: int, e: int, t: nat, u: int)
    requires
        t >= e,
    ensures
        dyadic_side(m, e, u * pow2(t)) > 0 <==> 2 * m - u * pow2((t - e) as nat) > 0,
        dyadic_side(m, e, u * pow2(t)) < 0 <==> 2 * m - u * pow2((t - e) as nat) < 0,
{
    let s = (t - e) as nat;
    if e >= 0 {
        lemma_pow2_adds(s, e as nat);
        lemma_pow2_pos(e as nat);
        let g = pow2(e as nat) as int;
        let h = pow2(s) as int;
        assert(2 * m * g - u * (h * g) == (2 * m - u * h) * g) by (nonlinear_arith);
        assert((2 * m - u * h) * g > 0 <==> 2 * m - u * h > 0) by (nonlinear_arith)
            requires
                g > 0,
        ;
        assert((2 * m - u * h) * g < 0 <==> 2 * m - u * h < 0) by (nonlinear_arith)
            requires
                g > 0,
        ;
    } else {
        lemma_pow2_adds(t, (-e) as nat);
        let g = pow2((-e) as nat) as int;
        let h = pow2(t) as int;
        assert((u * h) * g == u * (h * g)) by (nonlinear_arith);
    }
}

/// The position of the leading one.
fn leading(m: u128) -> (l: u32)
    requires
        m > 0,
    ensures
        l < 128,
        pow2(l as nat) <= m,
        l < 127 ==> m < pow2((l + 1) as nat),
{
    let mut lo: u32 = 0;
    let mut hi: u32 = 128;
    proof {
        vstd::arithmetic::power2::lemma2_to64();
    }
    while hi - lo > 1
        invariant
            lo < hi <= 128,
            pow2(lo as nat) <= m,
            hi < 128 ==> m < pow2(hi as nat),
        decreases hi - lo,
    {
        let mid: u32 = (lo + hi) / 2;
        let x: u128 = power(mid);
        if x <= m {
            lo = mid;
        } else {
            hi = mid;
        }
    }
    lo
}

/// What `lemma_round_from_floor` asks of a significand and a direction.
spec fn floor_of(f: Format, side: spec_fn(int) -> int, t: nat, q: int, up: bool) -> bool {
    &&& in_binade(f.frac(), t, q)
    &&& side(2 * q * pow2(t)) >= 0
    &&& side(2 * (q + 1) * pow2(t)) < 0
    &&& {
        let half = side((2 * q + 1) * pow2(t));
        up == (half > 0 || (half == 0 && q % 2 == 1))
    }
}

/// A number whose last place lies at or above the wanted one is a significand
/// already.
proof fn lemma_floor_exact(
    f: Format,
    side: spec_fn(int) -> int,
    m: int,
    e: int,
    l: nat,
    t: nat,
    d: nat,
)
    requires
        tracks(side, m, e, false),
        pow2(l) <= m < pow2(l + 1),
        e == t + d,
        t == (if l + e > f.frac() { l + e - f.frac() } else { 0 }),
    ensures
        floor_of(f, side, t, m * pow2(d), false),
{
    let p = f.frac();
    let q = m * pow2(d);
    lemma_pow2_pos(d);
    lemma_pow2_pos(t);
    lemma_pow2_adds(l, d);
    lemma_pow2_adds(l + 1, d);
    lemma_pow2_adds(d, t);
    lemma_pow2_unfold(p + 1);
    assert(q < pow2(l + 1 + d)) by (nonlinear_arith)
        requires
            q == m * pow2(d),
            m < pow2(l + 1),
            pow2(l + 1) * pow2(d) == pow2(l + 1 + d),
            pow2(d) > 0,
    ;
    assert(pow2(l + d) <= q) by (nonlinear_arith)
        requires
            q == m * pow2(d),
            pow2(l) <= m,
            pow2(l) * pow2(d) == pow2(l + d),
            pow2(d) > 0,
    ;
    if l + 1 + d < p + 1 {
        lemma_pow2_strictly_increases(l + 1 + d, p + 1);
    }
    let g = pow2(t) as int;
    assert(2 * m * pow2(e as nat) == 2 * q * g) by (nonlinear_arith)
        requires
            q == m * pow2(d),
            pow2(d) * g == pow2(e as nat),
    ;
    assert(2 * (q + 1) * g == 2 * q * g + 2 * g) by (nonlinear_arith);
    assert((2 * q + 1) * g == 2 * q * g + g) by (nonlinear_arith);
    assert(2 * q * g >= 0) by (nonlinear_arith)
        requires
            q >= 0,
            g > 0,
    ;
    let w0 = side(2 * q * pow2(t));
    let w1 = side(2 * (q + 1) * pow2(t));
    let w2 = side((2 * q + 1) * pow2(t));
}

/// A number less than half of the smallest value.
proof fn lemma_floor_zero(f: Format, side: spec_fn(int) -> int, m: int, e: int, more: bool)
    requires
        tracks(side, m, e, more),
        0 < m < pow2(127),
        e <= -128,
    ensures
        floor_of(f, side, 0, 0, false),
{
    let s = (-e) as nat;
    lemma_pow2_pos(f.frac());
    vstd::arithmetic::power2::lemma2_to64();
    lemma_pow2_unfold(128);
    if s > 128 {
        lemma_pow2_strictly_increases(128, s);
    }
    assert(pow2(0) == 1);
    assert(0 * pow2(s) == 0 && 2 * pow2(s) == pow2(s) + pow2(s) && 1 * pow2(s) == pow2(s));
    let w0 = side(0);
    let w1 = side(2);
    let w2 = side(1);
    assert(2 * 0 * pow2(0) == 0 && 2 * (0 + 1) * pow2(0) == 2 && (2 * 0 + 1) * pow2(0) == 1)
        by (nonlinear_arith)
        requires
            pow2(0) == 1,
    ;
}

/// A number cut off after its leading places, rounded by what was cut.
proof fn lemma_floor_cut(
    f: Format,
    side: spec_fn(int) -> int,
    m: int,
    e: int,
    more: bool,
    l: nat,
    t: nat,
    q: int,
)
    requires
        tracks(side, m, e, more),
        pow2(l) <= m < pow2(l + 1),
        t > e,
        t == (if l + e > f.frac() { l + e - f.frac() } else { 0 }),
        q * pow2((t - e) as nat) <= m < (q + 1) * pow2((t - e) as nat),
    ensures
        ({
            let r = m - q * pow2((t - e) as nat);
            let half = pow2((t - e - 1) as nat);
            floor_of(f, side, t, q, r > half || (r == half && (more || q % 2 == 1)))
        }),
{
    let p = f.frac();
    let s = (t - e) as nat;
    let c = pow2(s) as int;
    let g = pow2(t) as int;
    lemma_pow2_pos(l);
    lemma_pow2_pos(s);
    lemma_pow2_pos(t);
    lemma_pow2_unfold(s);
    lemma_pow2_unfold(p + 1);
    assert(q >= 0) by (nonlinear_arith)
        requires
            m < (q + 1) * c,
            m > 0,
            c > 0,
    ;
    assert(q < pow2(p + 1)) by {
        if l >= p {
            lemma_pow2_adds(p + 1, (l - p) as nat);
            if (l - p) < s {
                lemma_pow2_strictly_increases((l - p) as nat, s);
            }
            assert(q < pow2(p + 1)) by (nonlinear_arith)
                requires
                    q * c <= m,
                    m < pow2(p + 1) * pow2((l - p) as nat),
                    pow2((l - p) as nat) <= c,
                    c > 0,
                    pow2(p + 1) >= 0,
            ;
        } else {
            if l + 1 < p + 1 {
                lemma_pow2_strictly_increases(l + 1, p + 1);
            }
            assert(q <= m) by (nonlinear_arith)
                requires
                    q * c <= m,
                    c >= 1,
                    q >= 0,
            ;
        }
    }
    if t > 0 {
        lemma_pow2_adds(p, s);
        assert(pow2(p) <= q) by (nonlinear_arith)
            requires
                pow2(p) * c <= m,
                m < (q + 1) * c,
                c > 0,
        ;
    }
    lemma_dyadic_at(m, e, t, 2 * q);
    lemma_dyadic_at(m, e, t, 2 * (q + 1));
    lemma_dyadic_at(m, e, t, 2 * q + 1);
    lemma_dyadic_at(m + 1, e, t, 2 * (q + 1));
    lemma_dyadic_at(m + 1, e, t, 2 * q + 1);
    let r = m - q * c;
    assert((2 * q) * c == 2 * (q * c)) by (nonlinear_arith);
    assert((2 * (q + 1)) * c == 2 * (q * c) + 2 * c) by (nonlinear_arith);
    assert((2 * q + 1) * c == 2 * (q * c) + c) by (nonlinear_arith);
    assert((q + 1) * c == q * c + c) by (nonlinear_arith);
    assert((2 * q) * g >= 0 && (2 * (q + 1)) * g >= 0 && (2 * q + 1) * g >= 0) by (nonlinear_arith)
        requires
            q >= 0,
            g > 0,
    ;
    let w0 = side(2 * q * pow2(t));
    let w1 = side(2 * (q + 1) * pow2(t));
    let w2 = side((2 * q + 1) * pow2(t));
}

/// The number of the value nearest to the real that `side` describes, given
/// as `m` times two to the power `e`, in units of the smallest value, with a
/// flag that says whether it lies a little above that.
fn round_dyadic(f: Format, m: u128, e: i32, more: bool, side: Ghost<spec_fn(int) -> int>) -> (k:
    u64)
    requires
        0 < m < pow2(127),
        -10_000 < e < 10_000,
        falling(side@),
        tracks(side@, m as int, e as int, more),
        more ==> m >= 2 * pow2(f.frac()),
    ensures
        nearest(f, side@, k as int),
{
    let p: u32 = f.frac_bits();
    let l: u32 = leading(m);
    proof {
        lemma_pow2_pos(p as nat);
        lemma_pow2_unfold((p + 1) as nat);
        vstd::arithmetic::power2::lemma2_to64();
        vstd::arithmetic::power2::lemma2_to64_rest();
    }
    let raise: i32 = l as i32 + e - p as i32;
    let t: i32 = if raise > 0 {
        raise
    } else {
        0
    };
    let s: i32 = t - e;
    let ghost tn = t as nat;
    let mut q: u128 = 0;
    let mut up: bool = false;
    if s <= 0 {
        let d: u32 = (-s) as u32;
        proof {
            if more {
                // the leading one stands above the fraction, so something is cut
                if l < p + 1 && l + 1 < p + 1 {
                    lemma_pow2_strictly_increases((l + 1) as nat, (p + 1) as nat);
                }
                assert(l >= p + 1);
            }
            lemma_floor_exact(f, side@, m as int, e as int, l as nat, tn, d as nat);
            if d >= 127 {
                lemma_pow2_strictly_increases(64, d as nat);
                assert(m * pow2(d as nat) >= pow2(d as nat)) by (nonlinear_arith)
                    requires
                        m >= 1,
                        pow2(d as nat) >= 0,
                ;
            }
        }
        q = m * power(d);
    } else if s >= 128 {
        proof {
            lemma_floor_zero(f, side@, m as int, e as int, more);
        }
    } else {
        let d: u32 = s as u32;
        proof {
            lemma_u128_shr_is_div(m, d as u128);
        }
        let w: u128 = power(d);
        q = m >> (d as u128);
        proof {
            vstd::arithmetic::div_mod::lemma_fundamental_div_mod(m as int, w as int);
            assert(q * w <= m && m < (q + 1) * w) by (nonlinear_arith)
                requires
                    m == w * q + m as int % w as int,
                    0 <= m as int % w as int,
                    (m as int % w as int) < w,
            ;
        }
        let r: u128 = m - q * w;
        let half: u128 = power(d - 1);
        up = r > half || (r == half && (more || q % 2 == 1));
        proof {
            lemma_floor_cut(f, side@, m as int, e as int, more, l as nat, tn, q as int);
        }
    }
    proof {
        lemma_round_from_floor(f, side@, tn, q as int, up);
    }
    let top: u64 = f.infinity_key();
    let step: u128 = power(p);
    if t >= 2047 {
        proof {
            assert(t * step >= 2047 * step) by (nonlinear_arith)
                requires
                    t >= 2047,
                    step >= 0,
            ;
        }
        return top;
    }
    proof {
        assert(0 <= t * step <= 2047 * step) by (nonlinear_arith)
            requires
                0 <= t <= 2047,
                step >= 0,
        ;
    }
    let k: u128 = t as u128 * step + q + if up {
        1u128
    } else {
        0u128
    };
    if k <= top as u128 {
        k as u64
    } else {
        top
    }
}

/// A sign and the number of a magnitude. Numbers above infinity stand for what
/// is not a number.
#[derive(Clone, Copy, PartialEq, Eq, Structural)]
pub struct Parts {
    pub neg: bool,
    pub key: u64,
}

impl Parts {
    /// Not a number.
    pub open spec fn nan(self, f: Format) -> bool {
        self.key > f.infinity()
    }

    /// Neither infinite nor not a number.
    pub open spec fn finite(self, f: Format) -> bool {
        self.key < f.infinity()
    }

    /// The magnitude of a finite value, in units of the smallest one.
    pub open spec fn size(self, f: Format) -> int {
        rung(f.frac(), self.key as int)
    }

    /// A finite value, in units of the smallest one.
    pub open spec fn value(self, f: Format) -> int {
        if self.neg {
            -self.size(f)
        } else {
            self.size(f)
        }
    }

    /// Where the value stands in the order of all values; both zeros stand at
    /// the same place.
    pub open spec fn place(self) -> int {
        if self.neg {
            -(self.key as int)
        } else {
            self.key as int
        }
    }
}

/// The first number that no longer fits beside a sign bit.
pub open spec fn sign_place(f: Format) -> int {
    match f {
        Format::Single => 0x8000_0000,
        Format::Double => 0x8000_0000_0000_0000,
    }
}

/// The pattern that stands for every result that is not a number.
pub open spec fn quiet_nan(f: Format) -> Parts {
    Parts {
        neg: false,
        key: match f {
            Format::Single => 0x7FC0_0000,
            Format::Double => 0x7FF8_0000_0000_0000,
        },
    }
}

/// Infinity with a sign.
pub open spec fn infinite(f: Format, neg: bool) -> Parts {
    Parts { neg, key: f.infinity() as u64 }
}

/// The sum: the exact one, rounded; an exact zero is negative only where both
/// summands are.
pub open spec fn sum(f: Format, a: Parts, b: Parts) -> Parts {
    if a.nan(f) || b.nan(f) {
        quiet_nan(f)
    } else if !a.finite(f) {
        if !b.finite(f) && a.neg != b.neg {
            quiet_nan(f)
        } else {
            a
        }
    } else if !b.finite(f) {
        b
    } else {
        let n = a.value(f) + b.value(f);
        if n == 0 {
            Parts { neg: a.neg && b.neg, key: 0 }
        } else if n > 0 {
            Parts { neg: false, key: rounded_ratio(f, n, 1) as u64 }
        } else {
            Parts { neg: true, key: rounded_ratio(f, -n, 1) as u64 }
        }
    }
}

/// The product: the exact one, rounded.
pub open spec fn product(f: Format, a: Parts, b: Parts) -> Parts {
    let neg = a.neg != b.neg;
    if a.nan(f) || b.nan(f) {
        quiet_nan(f)
    } else if !a.finite(f) || !b.finite(f) {
        if a.key == 0 || b.key == 0 {
            quiet_nan(f)
        } else {
            infinite(f, neg)
        }
    } else if a.key == 0 || b.key == 0 {
        Parts { neg, key: 0 }
    } else {
        Parts {
            neg,
            key: rounded_ratio(f, a.size(f) * b.size(f), pow2(f.unit()) as int) as u64,
        }
    }
}

/// The quotient: the exact one, rounded.
pub open spec fn quotient(f: Format, a: Parts, b: Parts) -> Parts {
    let neg = a.neg != b.neg;
    if a.nan(f) || b.nan(f) {
        quiet_nan(f)
    } else if !a.finite(f) {
        if !b.finite(f) {
            quiet_nan(f)
        } else {
            infinite(f, neg)
        }
    } else if !b.finite(f) {
        Parts { neg, key: 0 }
    } else if b.key == 0 {
        if a.key == 0 {
            quiet_nan(f)
        } else {
            infinite(f, neg)
        }
    } else if a.key == 0 {
        Parts { neg, key: 0 }
    } else {
        Parts { neg, key: rounded_ratio(f, a.size(f) * pow2(f.unit()), b.size(f)) as u64 }
    }
}

/// The square root: the exact one, rounded.
pub open spec fn square_root(f: Format, a: Parts) -> Parts {
    if a.nan(f) || (a.neg && a.key > 0) {
        quiet_nan(f)
    } else if a.key == 0 || !a.finite(f) {
        a
    } else {
        Parts { neg: false, key: rounded_root(f, a.size(f) * pow2(f.unit())) as u64 }
    }
}

/// The value closest to a whole number.
pub open spec fn whole(f: Format, n: nat) -> Parts {
    if n == 0 {
        Parts { neg: false, key: 0 }
    } else {
        Parts { neg: false, key: rounded_ratio(f, (n * pow2(f.unit())) as int, 1) as u64 }
    }
}

proof fn lemma_ratio_falls(n: int, d: int)
    requires
        d > 0,
    ensures
        falling(ratio_side(n, d)),
{
    let side = ratio_side(n, d);
    assert forall|v: int, w: int| 0 <= v < w implies #[trigger] side(v) > #[trigger] side(w) by {
        assert(v * d < w * d) by (nonlinear_arith)
            requires
                v < w,
                d > 0,
        ;
    }
}

proof fn lemma_root_falls(n: int)
    ensures
        falling(root_side(n)),
{
    let side = root_side(n);
    assert forall|v: int, w: int| 0 <= v < w implies #[trigger] side(v) > #[trigger] side(w) by {
        assert(v * v < w * w) by (nonlinear_arith)
            requires
                0 <= v < w,
        ;
    }
}

/// The nearest number is the one that the rounding functions name.
proof fn lemma_is_rounded_ratio(f: Format, n: int, d: int, k: int)
    requires
        d > 0,
        nearest(f, ratio_side(n, d), k),
    ensures
        rounded_ratio(f, n, d) == k,
{
    lemma_ratio_falls(n, d);
    lemma_nearest_unique(f, ratio_side(n, d), k, rounded_ratio(f, n, d));
}

proof fn lemma_is_rounded_root(f: Format, n: int, k: int)
    requires
        nearest(f, root_side(n), k),
    ensures
        rounded_root(f, n) == k,
{
    lemma_root_falls(n);
    lemma_nearest_unique(f, root_side(n), k, rounded_root(f, n));
}

pub(crate) fn make_nan(f: Format) -> (r: Parts)
    ensures
        r == quiet_nan(f),
{
    match f {
        Format::Single => Parts { neg: false, key: 0x7FC0_0000 },
        Format::Double => Parts { neg: false, key: 0x7FF8_0000_0000_0000 },
    }
}

/// A finite value as a significand and its last place.
pub(crate) fn split(f: Format, key: u64) -> (r: (u64, u32))
    requires
        key < f.infinity(),
    ensures
        rung(f.frac(), key as int) == r.0 * pow2(r.1 as nat),
        r.0 < 2 * pow2(f.frac()),
        r.1 > 0 ==> r.0 >= pow2(f.frac()),
        r.1 <= 2046,
        key > 0 <==> r.0 > 0,
        f == Format::Single ==> r.1 <= 254,
{
    let p: u32 = f.frac_bits();
    let b: u64 = power(p) as u64;
    proof {
        vstd::arithmetic::power2::lemma2_to64();
        vstd::arithmetic::power2::lemma2_to64_rest();
    }
    let e: u64 = key / b;
    let t: u64 = if e == 0 {
        0
    } else {
        e - 1
    };
    proof {
        lemma_split(f.frac(), key as int);
        vstd::arithmetic::div_mod::lemma_fundamental_div_mod(key as int, b as int);
        assert(t * b <= key) by (nonlinear_arith)
            requires
                t <= e,
                key == b * e + key as int % b as int,
                0 <= key as int % b as int,
                b > 0,
        ;
        assert(gap_exp(f.frac(), key as int) == t);
        assert(e <= 2046) by (nonlinear_arith)
            requires
                key == b * e + key as int % b as int,
                0 <= key as int % b as int,
                key < 2047 * b,
                b > 0,
        ;
        if f == Format::Single {
            assert(e <= 254) by (nonlinear_arith)
                requires
                    key == b * e + key as int % b as int,
                    0 <= key as int % b as int,
                    key < 255 * b,
                    b > 0,
            ;
        }
    }
    (key - t * b, t as u32)
}

/// A whole multiple of a power of two tracks itself.
proof fn lemma_tracks_exact(n: int, d_exp: nat, m: int, e: int)
    requires
        e + d_exp >= 0,
        n == m * pow2((e + d_exp) as nat),
    ensures
        tracks(ratio_side(n, pow2(d_exp) as int), m, e, false),
{
    let d = pow2(d_exp) as int;
    let side = ratio_side(n, d);
    lemma_pow2_pos(d_exp);
    assert forall|w: int| 0 <= w implies {
        let s = #[trigger] side(w);
        &&& (s > 0 <==> dyadic_side(m, e, w) > 0)
        &&& (s < 0 <==> dyadic_side(m, e, w) < 0)
    } by {
        let z = dyadic_side(m, e, w);
        if e >= 0 {
            lemma_pow2_adds(e as nat, d_exp);
            let g = pow2(e as nat) as int;
            assert(side(w) == z * d) by (nonlinear_arith)
                requires
                    side(w) == 2 * n - w * d,
                    n == m * (g * d),
                    z == 2 * m * g - w,
            ;
            assert(z * d > 0 <==> z > 0) by (nonlinear_arith)
                requires
                    d > 0,
            ;
            assert(z * d < 0 <==> z < 0) by (nonlinear_arith)
                requires
                    d > 0,
            ;
        } else {
            let c = (e + d_exp) as nat;
            lemma_pow2_adds(c, (-e) as nat);
            lemma_pow2_pos(c);
            let g = pow2((-e) as nat) as int;
            let h = pow2(c) as int;
            assert(side(w) == z * h) by (nonlinear_arith)
                requires
                    side(w) == 2 * n - w * d,
                    n == m * h,
                    d == h * g,
                    z == 2 * m - w * g,
            ;
            assert(z * h > 0 <==> z > 0) by (nonlinear_arith)
                requires
                    h > 0,
            ;
            assert(z * h < 0 <==> z < 0) by (nonlinear_arith)
                requires
                    h > 0,
            ;
        }
    }
}

/// Rounds `m` times two to the power `e`, in units of the smallest value.
pub(crate) fn round_exact(f: Format, m: u128, e: i32, n: Ghost<int>, d_exp: Ghost<nat>) -> (k: u64)
    requires
        0 < m < pow2(127),
        -10_000 < e < 10_000,
        e + d_exp@ >= 0,
        n@ == m * pow2((e + d_exp@) as nat),
    ensures
        k == rounded_ratio(f, n@, pow2(d_exp@) as int),
        k <= f.infinity(),
{
    let ghost d = pow2(d_exp@) as int;
    proof {
        lemma_pow2_pos(d_exp@);
        lemma_ratio_falls(n@, d);
        lemma_tracks_exact(n@, d_exp@, m as int, e as int);
    }
    let k: u64 = round_dyadic(f, m, e, false, Ghost(ratio_side(n@, d)));
    proof {
        lemma_is_rounded_ratio(f, n@, d, k as int);
    }
    k
}

/// The magnitude of the sum or difference of two magnitudes that stand far
/// apart: the larger one, a little more or a little less.
fn round_far(f: Format, big: (u64, u32), small: (u64, u32), plus: bool) -> (k: u64)
    requires
        pow2(f.frac()) <= big.0 < 2 * pow2(f.frac()),
        0 < small.0 < 2 * pow2(f.frac()),
        small.1 + 64 < big.1 <= 2046,
    ensures
        ({
            let n = big.0 * pow2(big.1 as nat);
            let d = small.0 * pow2(small.1 as nat);
            k == rounded_ratio(f, if plus { n + d } else { n - d }, 1)
        }),
        k <= f.infinity(),
{
    let ghost n = big.0 * pow2(big.1 as nat);
    let ghost d = small.0 * pow2(small.1 as nat);
    let ghost total = if plus {
        n + d
    } else {
        n - d
    };
    let ghost side = ratio_side(total, 1);
    let e: i32 = big.1 as i32 - 3;
    proof {
        vstd::arithmetic::power2::lemma2_to64();
        vstd::arithmetic::power2::lemma2_to64_rest();
        lemma_pow2_adds(64, 63);
        assert(pow2(127) == pow2(64) * pow2(63));
        assert(pow2(127) >= 0x8000_0000_0000_0000) by (nonlinear_arith)
            requires
                pow2(127) == pow2(64) * pow2(63),
                pow2(63) == 0x8000_0000_0000_0000,
                pow2(64) >= 1,
        ;
    }
    let m: u128 = if plus {
        big.0 as u128 * 8
    } else {
        big.0 as u128 * 8 - 1
    };
    proof {
        let g = pow2(e as nat) as int;
        lemma_pow2_pos(e as nat);
        lemma_pow2_adds(3, e as nat);
        assert(n == big.0 * 8 * g) by (nonlinear_arith)
            requires
                n == big.0 * (8 * g),
        ;
        // the smaller one is less than one unit of `m`
        lemma_pow2_adds(54, small.1 as nat);
        lemma_pow2_pos(small.1 as nat);
        assert(54 + small.1 < e);
        lemma_pow2_strictly_increases((54 + small.1) as nat, e as nat);
        assert(0 < d < g) by (nonlinear_arith)
            requires
                d == small.0 * pow2(small.1 as nat),
                0 < small.0 < pow2(54),
                pow2(54) * pow2(small.1 as nat) < g,
                pow2(small.1 as nat) > 0,
        ;
        lemma_ratio_falls(total, 1);
        assert(m * g < total < (m + 1) * g) by (nonlinear_arith)
            requires
                n == big.0 * 8 * g,
                0 < d < g,
                plus ==> total == n + d && m == big.0 * 8,
                !plus ==> total == n - d && m == big.0 * 8 - 1,
        ;
        assert forall|w: int| 0 <= w implies {
            let s = #[trigger] side(w);
            &&& dyadic_side(m as int, e as int, w) >= 0 ==> s > 0
            &&& dyadic_side(m as int + 1, e as int, w) <= 0 ==> s < 0
        } by {
            assert(2 * m * g == 2 * (m * g)) by (nonlinear_arith);
            assert(2 * (m + 1) * g == 2 * ((m + 1) * g)) by (nonlinear_arith);
        }
    }
    let k: u64 = round_dyadic(f, m, e, true, Ghost(side));
    proof {
        lemma_is_rounded_ratio(f, total, 1, k as int);
    }
    k
}

/// Adds two finite values, the first with the higher last place.
fn add_finite(f: Format, a: Parts, b: Parts, x: (u64, u32), y: (u64, u32)) -> (r: Parts)
    requires
        a.finite(f),
        b.finite(f),
        a.size(f) == x.0 * pow2(x.1 as nat),
        b.size(f) == y.0 * pow2(y.1 as nat),
        x.0 < 2 * pow2(f.frac()),
        y.0 < 2 * pow2(f.frac()),
        x.1 > 0 ==> x.0 >= pow2(f.frac()),
        y.1 <= x.1 <= 2046,
    ensures
        r == sum(f, a, b),
        r.key <= f.infinity(),
{
    proof {
        vstd::arithmetic::power2::lemma2_to64();
        vstd::arithmetic::power2::lemma2_to64_rest();
        lemma_pow2_pos(x.1 as nat);
        lemma_pow2_pos(y.1 as nat);
    }
    let gap: u32 = x.1 - y.1;
    let plus: bool = a.neg == b.neg;
    if gap > 64 && y.0 > 0 {
        let k: u64 = round_far(f, x, y, plus);
        proof {
            let h = pow2(y.1 as nat) as int;
            lemma_pow2_adds(gap as nat, y.1 as nat);
            lemma_pow2_strictly_increases(64, gap as nat);
            assert(x.0 * (pow2(gap as nat) * h) > y.0 * h) by (nonlinear_arith)
                requires
                    x.0 >= 1,
                    0 < y.0 < pow2(64),
                    pow2(64) < pow2(gap as nat),
                    h > 0,
            ;
            assert(y.0 * h > 0) by (nonlinear_arith)
                requires
                    y.0 > 0,
                    h > 0,
            ;
        }
        return Parts { neg: a.neg, key: k };
    }
    let (hi, e): (u128, i32) = if gap > 64 {
        (x.0 as u128, x.1 as i32)
    } else {
        proof {
            lemma_pow2_adds(54, gap as nat);
            lemma_pow2_adds(54, 64);
            lemma_pow2_unfold(119);
            if gap < 64 {
                lemma_pow2_strictly_increases(gap as nat, 64);
            }
            assert(x.0 * pow2(gap as nat) <= pow2(54) * pow2(64)) by (nonlinear_arith)
                requires
                    0 <= x.0 <= pow2(54),
                    0 <= pow2(gap as nat) <= pow2(64),
            ;
        }
        (x.0 as u128 * power(gap), y.1 as i32)
    };
    let lo: u128 = y.0 as u128;
    let ghost g = pow2(e as nat) as int;
    proof {
        lemma_pow2_pos(e as nat);
        lemma_pow2_adds(gap as nat, y.1 as nat);
        if gap <= 64 {
            assert(x.0 * pow2(x.1 as nat) == hi * g) by (nonlinear_arith)
                requires
                    hi == x.0 * pow2(gap as nat),
                    pow2(x.1 as nat) == pow2(gap as nat) * g,
            ;
        } else {
            assert(y.0 * pow2(y.1 as nat) == 0) by (nonlinear_arith)
                requires
                    y.0 == 0,
            ;
            assert(lo * g == 0) by (nonlinear_arith)
                requires
                    lo == 0,
            ;
        }
        assert(a.size(f) == hi * g && b.size(f) == lo * g);
        assert((hi + lo) * g == hi * g + lo * g) by (nonlinear_arith);
        assert((hi - lo) * g == hi * g - lo * g) by (nonlinear_arith);
        assert((lo - hi) * g == lo * g - hi * g) by (nonlinear_arith);
        lemma_pow2_adds(64, 54);
        lemma_pow2_strictly_increases(119, 127);
        lemma_pow2_strictly_increases(118, 119);
        assert(pow2(54) <= pow2(118)) by {
            lemma_pow2_strictly_increases(54, 118);
        }
        lemma_pow2_unfold(119);
        assert(hi <= pow2(118) && lo <= pow2(118));
        assert(0 * g == 0);
        assert(hi + lo > 0 ==> (hi + lo) * g > 0) by (nonlinear_arith)
            requires
                g > 0,
        ;
        assert(hi - lo > 0 ==> (hi - lo) * g > 0) by (nonlinear_arith)
            requires
                g > 0,
        ;
        assert(lo - hi > 0 ==> (lo - hi) * g > 0) by (nonlinear_arith)
            requires
                g > 0,
        ;
    }
    if plus {
        let m: u128 = hi + lo;
        if m == 0 {
            return Parts { neg: a.neg && b.neg, key: 0 };
        }
        let k: u64 = round_exact(f, m, e, Ghost((hi + lo) * g), Ghost(0));
        Parts { neg: a.neg, key: k }
    } else if hi > lo {
        let k: u64 = round_exact(f, hi - lo, e, Ghost((hi - lo) * g), Ghost(0));
        Parts { neg: a.neg, key: k }
    } else if lo > hi {
        let k: u64 = round_exact(f, lo - hi, e, Ghost((lo - hi) * g), Ghost(0));
        Parts { neg: b.neg, key: k }
    } else {
        Parts { neg: false, key: 0 }
    }
}

/// Adds two values.
pub fn add_parts(f: Format, a: Parts, b: Parts) -> (r: Parts)
    ensures
        r == sum(f, a, b),
        a.key < sign_place(f) && b.key < sign_place(f) ==> r.key < sign_place(f),
{
    let top: u64 = f.infinity_key();
    if a.key > top || b.key > top {
        return make_nan(f);
    }
    if a.key == top {
        if b.key == top && a.neg != b.neg {
            return make_nan(f);
        }
        return a;
    }
    if b.key == top {
        return b;
    }
    let x: (u64, u32) = split(f, a.key);
    let y: (u64, u32) = split(f, b.key);
    if x.1 >= y.1 {
        add_finite(f, a, b, x, y)
    } else {
        add_finite(f, b, a, y, x)
    }
}

/// Multiplies two values.
pub fn multiply_parts(f: Format, a: Parts, b: Parts) -> (r: Parts)
    ensures
        r == product(f, a, b),
        r.key < sign_place(f),
{
    let top: u64 = f.infinity_key();
    let neg: bool = a.neg != b.neg;
    if a.key > top || b.key > top {
        return make_nan(f);
    }
    if a.key == top || b.key == top {
        if a.key == 0 || b.key == 0 {
            return make_nan(f);
        }
        return Parts { neg, key: top };
    }
    if a.key == 0 || b.key == 0 {
        return Parts { neg, key: 0 };
    }
    let (m, s): (u64, u32) = split(f, a.key);
    let (n, t): (u64, u32) = split(f, b.key);
    let unit: i32 = f.unit_bits();
    let e: i32 = s as i32 + t as i32 - unit;
    proof {
        vstd::arithmetic::power2::lemma2_to64();
        vstd::arithmetic::power2::lemma2_to64_rest();
        lemma_pow2_adds(54, 54);
        lemma_pow2_strictly_increases(108, 127);
        lemma_pow2_adds(s as nat, t as nat);
        assert(0 < m * n < pow2(108)) by (nonlinear_arith)
            requires
                0 < m < pow2(54),
                0 < n < pow2(54),
                pow2(54) * pow2(54) == pow2(108),
        ;
        let g = pow2(s as nat) as int;
        let h = pow2(t as nat) as int;
        assert((m * g) * (n * h) == (m * n) * (g * h)) by (nonlinear_arith);
        assert(pow2(108) <= u128::MAX) by {
            lemma_pow2_adds(64, 44);
            assert(pow2(64) * pow2(44) <= u128::MAX) by (nonlinear_arith)
                requires
                    pow2(64) == 0x1_0000_0000_0000_0000,
                    pow2(44) == 0x1000_0000_0000,
            ;
        }
    }
    let k: u64 = round_exact(
        f,
        m as u128 * n as u128,
        e,
        Ghost(a.size(f) * b.size(f)),
        Ghost(f.unit()),
    );
    Parts { neg, key: k }
}

/// Shifts a significand until its leading one stands in the highest place.
fn lift(f: Format, m: u64) -> (r: (u64, u32))
    requires
        0 < m < 2 * pow2(f.frac()),
    ensures
        pow2(f.frac()) <= r.0 < 2 * pow2(f.frac()),
        r.0 == m * pow2(r.1 as nat),
        r.1 <= f.frac(),
{
    let p: u32 = f.frac_bits();
    let b: u64 = power(p) as u64;
    proof {
        vstd::arithmetic::power2::lemma2_to64();
        vstd::arithmetic::power2::lemma2_to64_rest();
    }
    let mut n: u64 = m;
    let mut z: u32 = 0;
    proof {
        assert(m * pow2(0) == m) by (nonlinear_arith)
            requires
                pow2(0) == 1,
        ;
    }
    while n < b
        invariant
            b == pow2(p as nat),
            p <= 52,
            b <= 0x10_0000_0000_0000,
            m > 0,
            n < 2 * b,
            n == m * pow2(z as nat),
            z <= p,
        decreases p - z,
    {
        proof {
            lemma_pow2_unfold((z + 1) as nat);
            lemma_pow2_pos(z as nat);
            if z == p {
                assert(m * pow2(z as nat) >= b) by (nonlinear_arith)
                    requires
                        m >= 1,
                        pow2(z as nat) == b,
                ;
            }
            assert(2 * (m * pow2(z as nat)) == m * (2 * pow2(z as nat))) by (nonlinear_arith);
        }
        n = n * 2;
        z = z + 1;
    }
    (n, z)
}

/// A quotient of whole numbers with a remainder tracks the fraction.
proof fn lemma_tracks_quotient(nn: int, dd: int, m: int, r: int, b: int, g: nat, t: nat)
    requires
        b > 0,
        0 <= r < b,
        nn == (m * b + r) * pow2(g),
        dd == b * pow2(t),
    ensures
        tracks(ratio_side(nn, dd), m, g - t, r != 0),
{
    let side = ratio_side(nn, dd);
    let e = g - t;
    let more = r != 0;
    lemma_pow2_pos(g);
    lemma_pow2_pos(t);
    assert forall|w: int| 0 <= w implies {
        let s = #[trigger] side(w);
        if more {
            &&& dyadic_side(m, e, w) >= 0 ==> s > 0
            &&& dyadic_side(m + 1, e, w) <= 0 ==> s < 0
        } else {
            &&& (s > 0 <==> dyadic_side(m, e, w) > 0)
            &&& (s < 0 <==> dyadic_side(m, e, w) < 0)
        }
    } by {
        let z = dyadic_side(m, e, w);
        let z1 = dyadic_side(m + 1, e, w);
        // the side is a positive multiple of `b * z + 2 * (r * h)`
        let (c, h): (int, int) = if e >= 0 {
            (pow2(t) as int, pow2(e as nat) as int)
        } else {
            (pow2(g) as int, 1int)
        };
        if e >= 0 {
            lemma_pow2_adds(e as nat, t);
            lemma_pow2_pos(e as nat);
            assert((m * b + r) * (h * c) == ((b * m) * h) * c + (r * h) * c) by (nonlinear_arith);
            assert(w * (b * c) == (b * w) * c) by (nonlinear_arith);
            assert(b * z == 2 * ((b * m) * h) - b * w) by (nonlinear_arith)
                requires
                    z == 2 * m * h - w,
            ;
            assert((b * z + 2 * (r * h)) * c == 2 * (((b * m) * h) * c) - (b * w) * c + 2 * ((r
                * h) * c)) by (nonlinear_arith)
                requires
                    b * z == 2 * ((b * m) * h) - b * w,
            ;
            assert(z1 == z + 2 * h) by (nonlinear_arith)
                requires
                    z == 2 * m * h - w,
                    z1 == 2 * (m + 1) * h - w,
            ;
        } else {
            lemma_pow2_adds(g, (-e) as nat);
            let y = pow2((-e) as nat) as int;
            assert((m * b + r) * c == (b * m) * c + r * c) by (nonlinear_arith);
            assert(w * (b * (c * y)) == (b * (w * y)) * c) by (nonlinear_arith);
            assert(b * z == 2 * (b * m) - b * (w * y)) by (nonlinear_arith)
                requires
                    z == 2 * m - w * y,
            ;
            assert((b * z + 2 * (r * h)) * c == 2 * ((b * m) * c) - (b * (w * y)) * c + 2 * (r * c))
                by (nonlinear_arith)
                requires
                    b * z == 2 * (b * m) - b * (w * y),
                    h == 1,
            ;
            assert(z1 == z + 2 * h);
        }
        let v = b * z + 2 * (r * h);
        assert(v * c > 0 <==> v > 0) by (nonlinear_arith)
            requires
                c > 0,
        ;
        assert(v * c < 0 <==> v < 0) by (nonlinear_arith)
            requires
                c > 0,
        ;
        if more {
            if z >= 0 {
                assert(v > 0) by (nonlinear_arith)
                    requires
                        v == b * z + 2 * (r * h),
                        b > 0,
                        z >= 0,
                        r > 0,
                        h > 0,
                ;
            }
            if z1 <= 0 {
                assert(v < 0) by (nonlinear_arith)
                    requires
                        v == b * z + 2 * (r * h),
                        z + 2 * h <= 0,
                        0 < r < b,
                        h > 0,
                ;
            }
        } else {
            assert(v == b * z) by (nonlinear_arith)
                requires
                    v == b * z + 2 * (r * h),
                    r == 0,
            ;
            assert(b * z > 0 <==> z > 0) by (nonlinear_arith)
                requires
                    b > 0,
            ;
            assert(b * z < 0 <==> z < 0) by (nonlinear_arith)
                requires
                    b > 0,
            ;
        }
    }
}

/// Divides two values.
pub fn divide_parts(f: Format, a: Parts, b: Parts) -> (r: Parts)
    ensures
        r == quotient(f, a, b),
        r.key < sign_place(f),
{
    let top: u64 = f.infinity_key();
    let neg: bool = a.neg != b.neg;
    if a.key > top || b.key > top {
        return make_nan(f);
    }
    if a.key == top {
        if b.key == top {
            return make_nan(f);
        }
        return Parts { neg, key: top };
    }
    if b.key == top {
        return Parts { neg, key: 0 };
    }
    if b.key == 0 {
        if a.key == 0 {
            return make_nan(f);
        }
        return Parts { neg, key: top };
    }
    if a.key == 0 {
        return Parts { neg, key: 0 };
    }
    let (x, s): (u64, u32) = split(f, a.key);
    let (y, t): (u64, u32) = split(f, b.key);
    let (u, z): (u64, u32) = lift(f, x);
    let p: u32 = f.frac_bits();
    let unit: i32 = f.unit_bits();
    let up: u32 = p + 3;
    let g: i32 = s as i32 - z as i32 - up as i32 + unit;
    let e: i32 = g - t as i32;
    let scale: u128 = power(up);
    proof {
        vstd::arithmetic::power2::lemma2_to64();
        vstd::arithmetic::power2::lemma2_to64_rest();
        lemma_pow2_adds(3, p as nat);
        lemma_pow2_adds(54, 55);
        lemma_pow2_strictly_increases(109, 127);
        lemma_pow2_adds(64, 45);
        assert(pow2(64) * pow2(45) <= u128::MAX) by (nonlinear_arith)
            requires
                pow2(64) == 0x1_0000_0000_0000_0000,
                pow2(45) == 0x2000_0000_0000,
        ;
        assert(0 <= u * scale <= pow2(109)) by (nonlinear_arith)
            requires
                0 <= u <= pow2(54),
                0 <= scale <= pow2(55),
                pow2(54) * pow2(55) == pow2(109),
        ;
    }
    let total: u128 = u as u128 * scale;
    let m: u128 = total / y as u128;
    let r: u128 = total % y as u128;
    let ghost nn = a.size(f) * pow2(f.unit());
    let ghost dd = b.size(f);
    proof {
        let yy = y as int;
        vstd::arithmetic::div_mod::lemma_fundamental_div_mod(total as int, yy);
        assert(total == m * yy + r) by (nonlinear_arith)
            requires
                total == yy * m + r,
        ;
        let b = pow2(p as nat) as int;
        assert(m >= 2 * b) by (nonlinear_arith)
            requires
                total == m * yy + r,
                0 <= r < yy,
                total == u * (8 * b),
                u >= b,
                0 < yy < 2 * b,
        ;
        assert(m <= total) by (nonlinear_arith)
            requires
                total == m * yy + r,
                0 <= r,
                yy >= 1,
                m >= 0,
        ;
        // the numerator is the dividend times a power of two
        let zz = pow2(z as nat) as int;
        lemma_pow2_adds(z as nat, up as nat);
        lemma_pow2_adds((z + up) as nat, g as nat);
        lemma_pow2_adds(s as nat, f.unit());
        assert((m * yy + r) * pow2(g as nat) == x * (pow2(s as nat) * pow2(f.unit())))
            by (nonlinear_arith)
            requires
                total == m * yy + r,
                total == u * scale,
                u == x * zz,
                zz * scale * pow2(g as nat) == pow2(s as nat) * pow2(f.unit()),
        ;
        assert(nn == x * (pow2(s as nat) * pow2(f.unit()))) by (nonlinear_arith)
            requires
                nn == (x * pow2(s as nat)) * pow2(f.unit()),
        ;
        lemma_tracks_quotient(nn, dd, m as int, r as int, yy, g as nat, t as nat);
        lemma_pow2_pos(t as nat);
        assert(dd > 0) by (nonlinear_arith)
            requires
                dd == yy * pow2(t as nat),
                yy > 0,
                pow2(t as nat) > 0,
        ;
        lemma_ratio_falls(nn, dd);
    }
    let k: u64 = round_dyadic(f, m, e, r != 0, Ghost(ratio_side(nn, dd)));
    proof {
        lemma_is_rounded_ratio(f, nn, dd, k as int);
    }
    Parts { neg, key: k }
}

/// The whole part of a square root.
fn whole_root(n: u128) -> (r: u128)
    requires
        n < pow2(110),
    ensures
        r * r <= n < (r + 1) * (r + 1),
        r < pow2(55),
{
    let mut lo: u128 = 0;
    let mut hi: u128 = power(55);
    proof {
        lemma_pow2_adds(55, 55);
        vstd::arithmetic::power2::lemma2_to64();
        vstd::arithmetic::power2::lemma2_to64_rest();
    }
    while hi - lo > 1
        invariant
            lo < hi <= pow2(55),
            pow2(55) == 0x80_0000_0000_0000,
            lo * lo <= n < hi * hi,
        decreases hi - lo,
    {
        let mid: u128 = (lo + hi) / 2;
        assert(mid * mid <= 0x80_0000_0000_0000 * 0x80_0000_0000_0000) by (nonlinear_arith)
            requires
                0 <= mid <= 0x80_0000_0000_0000,
        ;
        if mid * mid <= n {
            lo = mid;
        } else {
            hi = mid;
        }
    }
    lo
}

/// The whole part of a square root tracks it.
proof fn lemma_tracks_root(nn: int, m: int, n: int, e: nat)
    requires
        m >= 0,
        m * m <= n < (m + 1) * (m + 1),
        nn == n * (pow2(e) * pow2(e)),
    ensures
        tracks(root_side(nn), m, e as int, m * m != n),
{
    let side = root_side(nn);
    let more = m * m != n;
    let g = pow2(e) as int;
    lemma_pow2_pos(e);
    assert forall|w: int| 0 <= w implies {
        let s = #[trigger] side(w);
        if more {
            &&& dyadic_side(m, e as int, w) >= 0 ==> s > 0
            &&& dyadic_side(m + 1, e as int, w) <= 0 ==> s < 0
        } else {
            &&& (s > 0 <==> dyadic_side(m, e as int, w) > 0)
            &&& (s < 0 <==> dyadic_side(m, e as int, w) < 0)
        }
    } by {
        let v = 2 * m * g;
        let v1 = 2 * (m + 1) * g;
        assert(v * v == 4 * ((m * m) * (g * g))) by (nonlinear_arith)
            requires
                v == 2 * m * g,
        ;
        assert(v1 * v1 == 4 * (((m + 1) * (m + 1)) * (g * g))) by (nonlinear_arith)
            requires
                v1 == 2 * (m + 1) * g,
        ;
        assert(v >= 0 && v1 >= 0 && g * g > 0) by (nonlinear_arith)
            requires
                v == 2 * m * g,
                v1 == 2 * (m + 1) * g,
                m >= 0,
                g > 0,
        ;
        assert((m * m) * (g * g) <= nn) by (nonlinear_arith)
            requires
                m * m <= n,
                nn == n * (g * g),
                g * g > 0,
        ;
        assert(m * m < n ==> (m * m) * (g * g) < nn) by (nonlinear_arith)
            requires
                nn == n * (g * g),
                g * g > 0,
        ;
        assert(nn < ((m + 1) * (m + 1)) * (g * g)) by (nonlinear_arith)
            requires
                n < (m + 1) * (m + 1),
                nn == n * (g * g),
                g * g > 0,
        ;
        assert(v >= w ==> v * v >= w * w) by (nonlinear_arith)
            requires
                w >= 0,
        ;
        assert(v > w ==> v * v > w * w) by (nonlinear_arith)
            requires
                w >= 0,
        ;
        assert(v < w ==> v * v < w * w) by (nonlinear_arith)
            requires
                v >= 0,
        ;
        assert(v1 <= w ==> v1 * v1 <= w * w) by (nonlinear_arith)
            requires
                v1 >= 0,
        ;
    }
}

/// The square root of a value.
pub fn root_parts(f: Format, a: Parts) -> (r: Parts)
    ensures
        r == square_root(f, a),
        a.key < sign_place(f) ==> r.key < sign_place(f),
{
    let top: u64 = f.infinity_key();
    if a.key > top || (a.neg && a.key > 0) {
        return make_nan(f);
    }
    if a.key == 0 || a.key == top {
        return a;
    }
    let (x, s): (u64, u32) = split(f, a.key);
    let (u, z): (u64, u32) = lift(f, x);
    let p: u32 = f.frac_bits();
    let unit: i32 = f.unit_bits();
    let rest: i32 = s as i32 - z as i32 + unit;
    let up: u32 = if (rest - p as i32) % 2 == 0 {
        p + 2
    } else {
        p + 3
    };
    let e: i32 = (rest - up as i32) / 2;
    let scale: u128 = power(up);
    proof {
        vstd::arithmetic::power2::lemma2_to64();
        vstd::arithmetic::power2::lemma2_to64_rest();
        lemma_pow2_adds(2, p as nat);
        lemma_pow2_adds(3, p as nat);
        lemma_pow2_adds(54, 55);
        lemma_pow2_strictly_increases(109, 110);
        lemma_pow2_adds(64, 45);
        assert(pow2(64) * pow2(45) <= u128::MAX) by (nonlinear_arith)
            requires
                pow2(64) == 0x1_0000_0000_0000_0000,
                pow2(45) == 0x2000_0000_0000,
        ;
        assert(0 <= u * scale <= pow2(109)) by (nonlinear_arith)
            requires
                0 <= u <= pow2(54),
                0 <= scale <= pow2(55),
                pow2(54) * pow2(55) == pow2(109),
        ;
    }
    let n: u128 = u as u128 * scale;
    let m: u128 = whole_root(n);
    proof {
        assert(m * m <= n);
        assert(pow2(55) == 0x80_0000_0000_0000);
        assert(m * m <= 0x80_0000_0000_0000 * 0x80_0000_0000_0000) by (nonlinear_arith)
            requires
                0 <= m <= 0x80_0000_0000_0000,
        ;
    }
    let more: bool = m * m != n;
    let ghost nn = a.size(f) * pow2(f.unit());
    proof {
        let b = pow2(p as nat) as int;
        assert(n >= b * (4 * b)) by (nonlinear_arith)
            requires
                n == u * scale,
                u >= b,
                scale >= 4 * b,
                b >= 0,
        ;
        assert(m >= 2 * b) by (nonlinear_arith)
            requires
                n < (m + 1) * (m + 1),
                n >= b * (4 * b),
                m >= 0,
        {
            if m < 2 * b {
                assert((m + 1) * (m + 1) <= (2 * b) * (2 * b));
            }
        }
        lemma_pow2_strictly_increases(55, 127);
        lemma_pow2_adds(e as nat, e as nat);
        lemma_pow2_adds(z as nat, up as nat);
        lemma_pow2_adds((z + up) as nat, (2 * e) as nat);
        lemma_pow2_adds(s as nat, f.unit());
        let zz = pow2(z as nat) as int;
        let ee = pow2(e as nat) as int;
        assert(n * (ee * ee) == x * (pow2(s as nat) * pow2(f.unit()))) by (nonlinear_arith)
            requires
                n == u * scale,
                u == x * zz,
                zz * scale * (ee * ee) == pow2(s as nat) * pow2(f.unit()),
        ;
        assert(nn == x * (pow2(s as nat) * pow2(f.unit()))) by (nonlinear_arith)
            requires
                nn == (x * pow2(s as nat)) * pow2(f.unit()),
        ;
        lemma_tracks_root(nn, m as int, n as int, e as nat);
        lemma_root_falls(nn);
    }
    let k: u64 = round_dyadic(f, m, e, more, Ghost(root_side(nn)));
    proof {
        lemma_is_rounded_root(f, nn, k as int);
    }
    Parts { neg: false, key: k }
}

/// The value closest to a whole number.
pub fn whole_parts(f: Format, n: u64) -> (r: Parts)
    ensures
        r == whole(f, n as nat),
        r.key < sign_place(f),
{
    if n == 0 {
        return Parts { neg: false, key: 0 };
    }
    let unit: i32 = f.unit_bits();
    proof {
        vstd::arithmetic::power2::lemma2_to64();
        lemma_pow2_strictly_increases(64, 127);
    }
    let k: u64 = round_exact(
        f,
        n as u128,
        unit,
        Ghost((n as nat * pow2(f.unit())) as int),
        Ghost(0),
    );
    Parts { neg: false, key: k }
}

} // verus!
