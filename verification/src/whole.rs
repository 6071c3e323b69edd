//! Whole numbers out of floating-point numbers.
use crate::arith::{power, split};
use crate::double::F64;
use crate::rounding::{gap_exp, lemma_rung_ascends, rung, Format};
use crate::single::F32;
use vstd::arithmetic::div_mod::{lemma_fundamental_div_mod, lemma_fundamental_div_mod_converse};
use vstd::arithmetic::power2::{
    lemma2_to64, lemma2_to64_rest, lemma_pow2_adds, lemma_pow2_pos, lemma_pow2_strictly_increases,
    pow2,
};
use vstd::prelude::*;

verus! {

/// Which whole number is taken.
#[derive(Clone, Copy, Debug, PartialEq, Eq, Structural)]
pub enum Toward {
    /// The next one below, or the number itself.
    Down,
    /// The closest one; of two the upper.
    Nearest,
    /// The next one above, or the number itself.
    Up,
}

/// What is added before the fraction is dropped, in units of the smallest
/// number.
pub open spec fn bias(f: Format, toward: Toward) -> int {
    match toward {
        Toward::Down => 0,
        Toward::Nearest => pow2((f.unit() - 1) as nat) as int,
        Toward::Up => pow2(f.unit()) - 1,
    }
}

/// The whole number taken for a magnitude, which is in units of the smallest
/// number.
pub open spec fn whole_part(f: Format, size: int, toward: Toward) -> int {
    (size + bias(f, toward)) / pow2(f.unit()) as int
}

/// A number, or the largest one that fits.
pub open spec fn capped(n: int, most: int) -> int {
    if n > most {
        most
    } else {
        n
    }
}

proof fn lemma_far_left(m: int, d: nat, unit: nat, b: int)
    requires
        0 <= b < pow2(unit),
    ensures
        (m * pow2(d + unit) + b) / pow2(unit) as int == m * pow2(d),
{
    lemma_pow2_adds(d, unit);
    lemma_pow2_pos(unit);
    let q = m * pow2(d);
    assert(m * pow2(d + unit) == q * pow2(unit)) by (nonlinear_arith)
        requires
            q == m * pow2(d),
            pow2(d + unit) == pow2(d) * pow2(unit),
    ;
    lemma_fundamental_div_mod_converse(m * pow2(d + unit) + b, pow2(unit) as int, q, b);
}

/// Dropping `s + t` places is dropping the `t` lowest and then `s` more.
proof fn lemma_near_right(a: int, rest: int, t: nat, s: nat)
    requires
        0 <= a,
        0 <= rest < pow2(t),
    ensures
        (a * pow2(t) + rest) / pow2(s + t) as int == a / pow2(s) as int,
{
    lemma_pow2_adds(s, t);
    lemma_pow2_pos(s);
    lemma_pow2_pos(t);
    let p = pow2(s) as int;
    let g = pow2(t) as int;
    lemma_fundamental_div_mod(a, p);
    let n = a / p;
    let r = a % p;
    let left = a * g + rest;
    assert(left == n * (p * g) + (r * g + rest)) by (nonlinear_arith)
        requires
            left == a * g + rest,
            a == p * n + r,
    ;
    assert(0 <= r * g + rest < p * g) by (nonlinear_arith)
        requires
            0 <= r < p,
            0 <= rest < g,
            g > 0,
    ;
    lemma_fundamental_div_mod_converse(left, p * g, n, r * g + rest);
}

/// The whole number taken for a finite magnitude, up to the largest that fits.
pub(crate) fn take_whole(f: Format, key: u64, toward: Toward) -> (r: u64)
    requires
        key < f.infinity(),
    ensures
        r == capped(whole_part(f, rung(f.frac(), key as int), toward), u64::MAX as int),
{
    let (m, t): (u64, u32) = split(f, key);
    let unit: u32 = match f {
        Format::Single => 149,
        Format::Double => 1074,
    };
    let ghost size = rung(f.frac(), key as int);
    let ghost b = bias(f, toward);
    proof {
        lemma2_to64();
        lemma2_to64_rest();
        lemma_pow2_pos(f.unit());
        lemma_pow2_strictly_increases((f.unit() - 1) as nat, f.unit());
        assert(pow2(f.frac()) <= 0x10_0000_0000_0000);
        assert(m < 0x20_0000_0000_0000);
    }
    if t >= unit {
        let d: u32 = t - unit;
        proof {
            lemma_far_left(m as int, d as nat, f.unit(), b);
            lemma_pow2_pos(d as nat);
            assert(m >= 1);
        }
        if d >= 64 {
            proof {
                if d > 64 {
                    lemma_pow2_strictly_increases(64, d as nat);
                }
                assert(m * pow2(d as nat) >= pow2(64)) by (nonlinear_arith)
                    requires
                        m >= 1,
                        pow2(d as nat) >= pow2(64),
                ;
            }
            return u64::MAX;
        }
        proof {
            lemma_pow2_strictly_increases(d as nat, 64);
            assert(m * pow2(d as nat) <= 0x20_0000_0000_0000 * 0x1_0000_0000_0000_0000)
                by (nonlinear_arith)
                requires
                    0 <= m <= 0x20_0000_0000_0000,
                    0 <= pow2(d as nat) <= 0x1_0000_0000_0000_0000,
            ;
        }
        let n: u128 = m as u128 * power(d);
        if n > u64::MAX as u128 {
            u64::MAX
        } else {
            n as u64
        }
    } else {
        let s: u32 = unit - t;
        let ghost c = match toward {
            Toward::Down => 0int,
            Toward::Nearest => pow2((s - 1) as nat) as int,
            Toward::Up => pow2(s as nat) - 1,
        };
        let ghost rest = match toward {
            Toward::Up => pow2(t as nat) - 1,
            _ => 0int,
        };
        proof {
            let g = pow2(t as nat) as int;
            lemma_pow2_pos(t as nat);
            lemma_pow2_pos(s as nat);
            lemma_pow2_pos((s - 1) as nat);
            lemma_pow2_adds(s as nat, t as nat);
            lemma_pow2_adds((s - 1) as nat, t as nat);
            assert(b == c * g + rest) by (nonlinear_arith)
                requires
                    toward == Toward::Down ==> b == 0 && c == 0 && rest == 0,
                    toward == Toward::Nearest ==> b == pow2((s - 1) as nat) * g && c == pow2(
                        (s - 1) as nat,
                    ) && rest == 0,
                    toward == Toward::Up ==> b == pow2(s as nat) * g - 1 && c == pow2(s as nat) - 1
                        && rest == g - 1,
            ;
            assert(size + b == (m + c) * g + rest) by (nonlinear_arith)
                requires
                    size == m * g,
                    b == c * g + rest,
            ;
            lemma_near_right(m + c, rest, t as nat, s as nat);
        }
        if s >= 54 {
            proof {
                if s > 54 {
                    lemma_pow2_strictly_increases(54, s as nat);
                    lemma_pow2_strictly_increases(53, (s - 1) as nat);
                }
                let p = pow2(s as nat) as int;
                lemma_pow2_adds(1, (s - 1) as nat);
                match toward {
                    Toward::Down => {
                        lemma_fundamental_div_mod_converse(m as int, p, 0, m as int);
                    },
                    Toward::Nearest => {
                        lemma_fundamental_div_mod_converse(m + c, p, 0, m + c);
                    },
                    Toward::Up => {
                        if m == 0 {
                            lemma_fundamental_div_mod_converse(m + c, p, 0, m + c);
                        } else {
                            lemma_fundamental_div_mod_converse(m + c, p, 1, m - 1);
                        }
                    },
                }
            }
            return match toward {
                Toward::Up => if m == 0 {
                    0
                } else {
                    1
                },
                _ => 0,
            };
        }
        proof {
            if s < 53 {
                lemma_pow2_strictly_increases(s as nat, 53);
            }
            if s - 1 < 53 {
                lemma_pow2_strictly_increases((s - 1) as nat, 53);
            }
        }
        let p: u128 = power(s);
        let a: u128 = match toward {
            Toward::Down => m as u128,
            Toward::Nearest => m as u128 + power(s - 1),
            Toward::Up => m as u128 + (p - 1),
        };
        let n: u128 = a / p;
        proof {
            lemma_fundamental_div_mod(a as int, p as int);
            assert(n <= a) by (nonlinear_arith)
                requires
                    a == p * n + a as int % p as int,
                    a as int % p as int >= 0,
                    p >= 1,
                    n >= 0,
            ;
        }
        n as u64
    }
}

impl F32 {
    /// The whole number before the point, as an unsigned integer: zero for
    /// what is negative or not a number, the largest one for what is too large.
    pub open spec fn before_point(self) -> u32 {
        let x = self.parts();
        if self.nan() || x.neg {
            0
        } else if !self.finite() {
            u32::MAX
        } else {
            capped(whole_part(Format::Single, x.size(Format::Single), Toward::Down), u32::MAX as int)
                as u32
        }
    }

    /// The whole number before the point, as an unsigned integer.
    pub fn truncate_to_u32(self) -> (r: u32)
        ensures
            r == self.before_point(),
    {
        let x = self.open_parts();
        if x.key > 0x7F80_0000 || x.neg {
            return 0;
        }
        if x.key == 0x7F80_0000 {
            return u32::MAX;
        }
        let n: u64 = take_whole(Format::Single, x.key, Toward::Down);
        if n > u32::MAX as u64 {
            u32::MAX
        } else {
            n as u32
        }
    }

    /// The magnitude has no fraction because it is at least two to the power
    /// 24, or infinite, or not a number.
    pub open spec fn coarse(self) -> bool {
        self.parts().key >= 0x4B80_0000
    }

    /// The next whole number below, or the number itself.
    pub open spec fn floored(self) -> F32 {
        let x = self.parts();
        let size = x.size(Format::Single);
        if self.coarse() || x.key == 0 {
            self
        } else if x.neg {
            F32::of_whole(whole_part(Format::Single, size, Toward::Up) as nat).negated()
        } else {
            F32::of_whole(whole_part(Format::Single, size, Toward::Down) as nat)
        }
    }

    /// The closest whole number; halves go away from zero.
    pub open spec fn rounded(self) -> F32 {
        let x = self.parts();
        let n = F32::of_whole(
            whole_part(Format::Single, x.size(Format::Single), Toward::Nearest) as nat,
        );
        if self.coarse() || x.key == 0 {
            self
        } else if x.neg {
            n.negated()
        } else {
            n
        }
    }

    /// The next whole number below, or the number itself.
    pub fn floor(self) -> (r: F32)
        ensures
            r == self.floored(),
    {
        let x = self.open_parts();
        if x.key >= 0x4B80_0000 || x.key == 0 {
            return self;
        }
        proof {
            lemma_fine(x.key, Toward::Up);
            lemma_fine(x.key, Toward::Down);
        }
        if x.neg {
            F32::from_whole(take_whole(Format::Single, x.key, Toward::Up)).neg()
        } else {
            F32::from_whole(take_whole(Format::Single, x.key, Toward::Down))
        }
    }

    /// The closest whole number; halves go away from zero.
    pub fn round(self) -> (r: F32)
        ensures
            r == self.rounded(),
    {
        let x = self.open_parts();
        if x.key >= 0x4B80_0000 || x.key == 0 {
            return self;
        }
        proof {
            lemma_fine(x.key, Toward::Nearest);
        }
        let n = F32::from_whole(take_whole(Format::Single, x.key, Toward::Nearest));
        if x.neg {
            n.neg()
        } else {
            n
        }
    }
}

/// A magnitude below two to the power 24 gives a whole number that fits.
proof fn lemma_fine(key: u64, toward: Toward)
    requires
        key < 0x4B80_0000,
    ensures
        0 <= whole_part(Format::Single, rung(23, key as int), toward) <= 0x100_0000,
{
    lemma_rung_ascends(23, key as int, 0x4B80_0000);
    lemma2_to64();
    lemma2_to64_rest();
    lemma_pow2_pos(149);
    lemma_pow2_strictly_increases(148, 149);
    let u = pow2(149) as int;
    assert(rung(23, 0x4B80_0000) == 0x100_0000 * u) by {
        assert(0x4B80_0000int / 0x80_0000int == 151);
        assert(gap_exp(23, 0x4B80_0000) == 150);
        assert(0x4B80_0000 - 150 * 0x80_0000 == 0x80_0000);
        lemma_pow2_adds(1, 149);
        assert(0x80_0000 * pow2(150) == 0x100_0000 * u) by (nonlinear_arith)
            requires
                pow2(150) == 2 * u,
        ;
    }
    let top = rung(23, key as int) + bias(Format::Single, toward);
    lemma_fundamental_div_mod(top, u);
    let n = top / u;
    assert(0 <= n <= 0x100_0000) by (nonlinear_arith)
        requires
            top == u * n + top % u,
            0 <= top % u < u,
            0 <= top < 0x100_0000 * u + u,
            u > 0,
    ;
}

impl F64 {
    /// The whole number taken, as an unsigned integer: zero for what is
    /// negative or not a number, the largest one for what is too large.
    pub open spec fn as_whole(self, toward: Toward) -> u64 {
        let x = self.parts();
        if self.nan() || x.neg {
            0
        } else if !self.finite() {
            u64::MAX
        } else {
            capped(whole_part(Format::Double, x.size(Format::Double), toward), u64::MAX as int)
                as u64
        }
    }

    /// The whole number before the point, as an unsigned integer.
    pub fn truncate_to_u64(self) -> (r: u64)
        ensures
            r == self.as_whole(Toward::Down),
    {
        self.to_whole(Toward::Down)
    }

    /// The closest whole number, as an unsigned integer; halves go up.
    pub fn round_to_u64(self) -> (r: u64)
        ensures
            r == self.as_whole(Toward::Nearest),
    {
        self.to_whole(Toward::Nearest)
    }

    fn to_whole(self, toward: Toward) -> (r: u64)
        ensures
            r == self.as_whole(toward),
    {
        let x = self.open_parts();
        if x.key > 0x7FF0_0000_0000_0000 || x.neg {
            return 0;
        }
        if x.key == 0x7FF0_0000_0000_0000 {
            return u64::MAX;
        }
        take_whole(Format::Double, x.key, toward)
    }
}

/// Taking the whole number never passes the number by one or more: the lower
/// one is at most it and less than one below, the upper one at least it and
/// less than one above, the closest at most half away.
pub proof fn law_whole_part_is_close(f: Format, size: int)
    requires
        size >= 0,
    ensures
        ({
            let one = pow2(f.unit()) as int;
            let down = whole_part(f, size, Toward::Down) * one;
            let up = whole_part(f, size, Toward::Up) * one;
            let close = whole_part(f, size, Toward::Nearest) * one;
            &&& down <= size < down + one
            &&& up - one < size <= up
            &&& -one <= 2 * (close - size) <= one
        }),
{
    let one = pow2(f.unit()) as int;
    lemma_pow2_pos(f.unit());
    lemma_pow2_adds(1, (f.unit() - 1) as nat);
    lemma2_to64();
    let half = pow2((f.unit() - 1) as nat) as int;
    assert(one == 2 * half);
    lemma_fundamental_div_mod(size, one);
    lemma_fundamental_div_mod(size + (one - 1), one);
    lemma_fundamental_div_mod(size + half, one);
    let a = size / one;
    let b = (size + (one - 1)) / one;
    let c = (size + half) / one;
    assert(a * one == one * a && b * one == one * b && c * one == one * c) by (nonlinear_arith);
}

} // verus!
