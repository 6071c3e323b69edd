//! 32-bit binary floating point, held as its bit pattern.
use crate::arith::{
    add_parts, divide_parts, multiply_parts, power, product, quotient, root_parts, split,
    square_root, sum, whole, whole_parts, Parts,
};
use crate::rounding::Format;
use vstd::arithmetic::div_mod::{lemma_fundamental_div_mod, lemma_fundamental_div_mod_converse};
use vstd::arithmetic::power2::{
    lemma2_to64, lemma2_to64_rest, lemma_pow2_adds, lemma_pow2_pos, lemma_pow2_strictly_increases,
    lemma_pow2_unfold, pow2,
};
use vstd::prelude::*;

verus! {

/// A 32-bit floating-point number: its bit pattern.
#[derive(Clone, Copy, Debug, PartialEq, Eq, Structural)]
pub struct F32 {
    pub bits: u32,
}

/// The number with the given sign and magnitude.
pub open spec fn single(x: Parts) -> F32 {
    F32 {
        bits: if x.neg {
            (x.key + 0x8000_0000) as u32
        } else {
            x.key as u32
        },
    }
}

impl F32 {
    /// Sign and magnitude.
    pub open spec fn parts(self) -> Parts {
        if self.bits >= 0x8000_0000 {
            Parts { neg: true, key: (self.bits - 0x8000_0000) as u64 }
        } else {
            Parts { neg: false, key: self.bits as u64 }
        }
    }

    /// Not a number.
    pub open spec fn nan(self) -> bool {
        self.parts().nan(Format::Single)
    }

    /// Neither infinite nor not a number.
    pub open spec fn finite(self) -> bool {
        self.parts().finite(Format::Single)
    }

    /// The position in the order of all numbers; both zeros stand at zero.
    pub open spec fn place(self) -> int {
        self.parts().place()
    }

    /// The rounded sum.
    #[verifier::opaque]
    pub open spec fn plus(self, other: F32) -> F32 {
        single(sum(Format::Single, self.parts(), other.parts()))
    }

    /// The number with the other sign.
    pub open spec fn negated(self) -> F32 {
        single(Parts { neg: !self.parts().neg, key: self.parts().key })
    }

    /// The rounded difference.
    pub open spec fn minus(self, other: F32) -> F32 {
        self.plus(other.negated())
    }

    /// The rounded product.
    #[verifier::opaque]
    pub open spec fn times(self, other: F32) -> F32 {
        single(product(Format::Single, self.parts(), other.parts()))
    }

    /// The rounded quotient.
    #[verifier::opaque]
    pub open spec fn over(self, other: F32) -> F32 {
        single(quotient(Format::Single, self.parts(), other.parts()))
    }

    /// The rounded square root.
    #[verifier::opaque]
    pub open spec fn root(self) -> F32 {
        single(square_root(Format::Single, self.parts()))
    }

    /// The number without its sign.
    pub open spec fn magnitude(self) -> F32 {
        single(Parts { neg: false, key: self.parts().key })
    }

    /// Strictly less; never of what is not a number.
    pub open spec fn below(self, other: F32) -> bool {
        !self.nan() && !other.nan() && self.place() < other.place()
    }

    /// Less or equal; never of what is not a number.
    pub open spec fn at_most(self, other: F32) -> bool {
        !self.nan() && !other.nan() && self.place() <= other.place()
    }

    /// Equal as numbers; never of what is not a number.
    pub open spec fn same(self, other: F32) -> bool {
        !self.nan() && !other.nan() && self.place() == other.place()
    }

    /// The lesser of two, passing over what is not a number.
    pub open spec fn lesser(self, other: F32) -> F32 {
        if self.nan() || other.below(self) {
            other
        } else {
            self
        }
    }

    /// The greater of two, passing over what is not a number.
    pub open spec fn greater(self, other: F32) -> F32 {
        if self.nan() || self.below(other) {
            other
        } else {
            self
        }
    }

    /// The closest number within `lo ..= hi`; what is not a number stays.
    pub open spec fn clamped(self, lo: F32, hi: F32) -> F32 {
        if self.below(lo) {
            lo
        } else if hi.below(self) {
            hi
        } else {
            self
        }
    }

    /// Radians to degrees.
    pub open spec fn degrees(self) -> F32 {
        self.times(F32 { bits: 0x4265_2EE1 })
    }

    /// Degrees to radians.
    pub open spec fn radians(self) -> F32 {
        self.times(F32 { bits: 0x3C8E_FA35 })
    }

    /// The number closest to a whole number.
    #[verifier::opaque]
    pub open spec fn of_whole(n: nat) -> F32 {
        single(whole(Format::Single, n))
    }

    /// The closest whole number, halves going up, as an unsigned integer:
    /// zero for what is negative or not a number, the largest one for what is
    /// too large.
    pub open spec fn to_nearest(self) -> usize {
        let x = self.parts();
        if self.nan() || x.neg {
            0
        } else if !self.finite() {
            usize::MAX
        } else {
            let n = (2 * x.size(Format::Single) + pow2(149)) / (pow2(150) as int);
            if n > usize::MAX {
                usize::MAX
            } else {
                n as usize
            }
        }
    }

    /// Sign and magnitude.
    pub(crate) fn open_parts(self) -> (r: Parts)
        ensures
            r == self.parts(),
    {
        if self.bits >= 0x8000_0000 {
            Parts { neg: true, key: (self.bits - 0x8000_0000) as u64 }
        } else {
            Parts { neg: false, key: self.bits as u64 }
        }
    }

    pub(crate) fn close_parts(x: Parts) -> (r: F32)
        requires
            x.key < 0x8000_0000,
        ensures
            r == single(x),
            r.parts() == x,
    {
        if x.neg {
            F32 { bits: x.key as u32 + 0x8000_0000 }
        } else {
            F32 { bits: x.key as u32 }
        }
    }

    /// The number with the given bit pattern.
    pub fn from_bits(bits: u32) -> (r: F32)
        ensures
            r.bits == bits,
    {
        F32 { bits }
    }

    /// The bit pattern.
    pub fn to_bits(self) -> (r: u32)
        ensures
            r == self.bits,
    {
        self.bits
    }

    /// Whether this is not a number.
    pub fn is_nan(self) -> (r: bool)
        ensures
            r == self.nan(),
    {
        self.open_parts().key > 0x7F80_0000
    }

    /// Whether this is neither infinite nor not a number.
    pub fn is_finite(self) -> (r: bool)
        ensures
            r == self.finite(),
    {
        self.open_parts().key < 0x7F80_0000
    }

    /// Adds.
    pub fn add(self, other: F32) -> (r: F32)
        ensures
            r == self.plus(other),
    {
        proof {
            reveal(F32::plus);
        }
        let x: Parts = add_parts(Format::Single, self.open_parts(), other.open_parts());
        F32::close_parts(x)
    }

    /// Flips the sign.
    pub fn neg(self) -> (r: F32)
        ensures
            r == self.negated(),
    {
        let x: Parts = self.open_parts();
        F32::close_parts(Parts { neg: !x.neg, key: x.key })
    }

    /// Subtracts.
    pub fn sub(self, other: F32) -> (r: F32)
        ensures
            r == self.minus(other),
    {
        self.add(other.neg())
    }

    /// Multiplies.
    pub fn mul(self, other: F32) -> (r: F32)
        ensures
            r == self.times(other),
    {
        proof {
            reveal(F32::times);
        }
        let x: Parts = multiply_parts(Format::Single, self.open_parts(), other.open_parts());
        F32::close_parts(x)
    }

    /// Divides.
    pub fn div(self, other: F32) -> (r: F32)
        ensures
            r == self.over(other),
    {
        proof {
            reveal(F32::over);
        }
        let x: Parts = divide_parts(Format::Single, self.open_parts(), other.open_parts());
        F32::close_parts(x)
    }

    /// Takes the square root.
    pub fn sqrt(self) -> (r: F32)
        ensures
            r == self.root(),
    {
        proof {
            reveal(F32::root);
        }
        let x: Parts = root_parts(Format::Single, self.open_parts());
        F32::close_parts(x)
    }

    /// Drops the sign.
    pub fn abs(self) -> (r: F32)
        ensures
            r == self.magnitude(),
    {
        let x: Parts = self.open_parts();
        F32::close_parts(Parts { neg: false, key: x.key })
    }

    fn signed_key(self) -> (r: i64)
        ensures
            r == self.place(),
            -0x8000_0000 < r < 0x8000_0000,
    {
        let x: Parts = self.open_parts();
        if x.neg {
            -(x.key as i64)
        } else {
            x.key as i64
        }
    }

    /// Whether this is strictly less.
    pub fn lt(self, other: F32) -> (r: bool)
        ensures
            r == self.below(other),
    {
        !self.is_nan() && !other.is_nan() && self.signed_key() < other.signed_key()
    }

    /// Whether this is less or equal.
    pub fn le(self, other: F32) -> (r: bool)
        ensures
            r == self.at_most(other),
    {
        !self.is_nan() && !other.is_nan() && self.signed_key() <= other.signed_key()
    }

    /// The lesser of two.
    pub fn min(self, other: F32) -> (r: F32)
        ensures
            r == self.lesser(other),
    {
        if self.is_nan() || other.lt(self) {
            other
        } else {
            self
        }
    }

    /// The greater of two.
    pub fn max(self, other: F32) -> (r: F32)
        ensures
            r == self.greater(other),
    {
        if self.is_nan() || self.lt(other) {
            other
        } else {
            self
        }
    }

    /// The closest number within `lo ..= hi`.
    pub fn clamp(self, lo: F32, hi: F32) -> (r: F32)
        requires
            lo.at_most(hi),
        ensures
            r == self.clamped(lo, hi),
    {
        if self.lt(lo) {
            lo
        } else if hi.lt(self) {
            hi
        } else {
            self
        }
    }

    /// Radians to degrees.
    pub fn to_degrees(self) -> (r: F32)
        ensures
            r == self.degrees(),
    {
        self.mul(F32 { bits: 0x4265_2EE1 })
    }

    /// Degrees to radians.
    pub fn to_radians(self) -> (r: F32)
        ensures
            r == self.radians(),
    {
        self.mul(F32 { bits: 0x3C8E_FA35 })
    }

    /// The number closest to a whole number.
    pub fn from_whole(n: u64) -> (r: F32)
        ensures
            r == F32::of_whole(n as nat),
    {
        proof {
            reveal(F32::of_whole);
        }
        let x: Parts = whole_parts(Format::Single, n);
        F32::close_parts(x)
    }

    /// Rounds to the closest whole number, halves going up.
    pub fn round_to_usize(self) -> (r: usize)
        ensures
            r == self.to_nearest(),
    {
        let x: Parts = self.open_parts();
        if x.key > 0x7F80_0000 || x.neg {
            return 0;
        }
        if x.key == 0x7F80_0000 {
            return usize::MAX;
        }
        let (m, t): (u64, u32) = split(Format::Single, x.key);
        let ghost g = pow2(t as nat) as int;
        let ghost top = 2 * (m * g) + pow2(149);
        proof {
            lemma2_to64();
            lemma2_to64_rest();
            lemma_pow2_unfold(150);
            lemma_pow2_pos(t as nat);
            lemma_pow2_pos(149);
        }
        if t >= 149 {
            let d: u32 = t - 149;
            proof {
                lemma_pow2_adds(d as nat, 149);
                let q = m * pow2(d as nat);
                assert(top == q * pow2(150) + pow2(149)) by (nonlinear_arith)
                    requires
                        top == 2 * (m * g) + pow2(149),
                        g == pow2(d as nat) * pow2(149),
                        q == m * pow2(d as nat),
                        pow2(150) == 2 * pow2(149),
                ;
                lemma_fundamental_div_mod_converse(top, pow2(150) as int, q, pow2(149) as int);
            }
            if d >= 64 {
                proof {
                    if d > 64 {
                        lemma_pow2_strictly_increases(64, d as nat);
                    }
                    assert(m * pow2(d as nat) >= pow2(64)) by (nonlinear_arith)
                        requires
                            m >= 1,
                            pow2(d as nat) >= pow2(64),
                    ;
                }
                return usize::MAX;
            }
            proof {
                lemma_pow2_adds(24, 64);
                lemma_pow2_strictly_increases(d as nat, 64);
                assert(m * pow2(d as nat) <= 0x100_0000 * 0x1_0000_0000_0000_0000)
                    by (nonlinear_arith)
                    requires
                        0 <= m <= 0x100_0000,
                        0 <= pow2(d as nat) <= 0x1_0000_0000_0000_0000,
                ;
            }
            let n: u128 = m as u128 * power(d);
            if n > usize::MAX as u128 {
                usize::MAX
            } else {
                n as usize
            }
        } else {
            let s: u32 = 149 - t;
            proof {
                lemma_pow2_adds(s as nat, t as nat);
                lemma_pow2_adds((s + 1) as nat, t as nat);
            }
            if s >= 25 {
                proof {
                    if s > 25 {
                        lemma_pow2_strictly_increases(25, s as nat);
                    }
                    assert(0 <= 2 * (m * g) < pow2(149)) by (nonlinear_arith)
                        requires
                            0 <= m,
                            2 * m < pow2(s as nat),
                            pow2(149) == pow2(s as nat) * g,
                            g > 0,
                    ;
                    lemma_fundamental_div_mod_converse(top, pow2(150) as int, 0, top);
                }
                return 0;
            }
            proof {
                if s < 24 {
                    lemma_pow2_strictly_increases(s as nat, 24);
                }
                if s < 24 {
                    lemma_pow2_strictly_increases((s + 1) as nat, 25);
                }
            }
            let a: u128 = m as u128 * 2 + power(s);
            let b: u128 = power(s + 1);
            let n: u128 = a / b;
            proof {
                lemma_fundamental_div_mod(a as int, b as int);
                let r = a as int % b as int;
                assert(top == n * pow2(150) + r * g) by (nonlinear_arith)
                    requires
                        top == 2 * (m * g) + pow2(149),
                        pow2(149) == pow2(s as nat) * g,
                        pow2(150) == b * g,
                        a == m * 2 + pow2(s as nat),
                        a == b * n + r,
                ;
                assert(0 <= r * g < pow2(150)) by (nonlinear_arith)
                    requires
                        0 <= r < b,
                        pow2(150) == b * g,
                        g > 0,
                ;
                lemma_fundamental_div_mod_converse(top, pow2(150) as int, n as int, r * g);
                assert(n <= a) by (nonlinear_arith)
                    requires
                        a == b * n + r,
                        r >= 0,
                        b >= 1,
                        n >= 0,
                ;
            }
            n as usize
        }
    }
}

} // verus!
