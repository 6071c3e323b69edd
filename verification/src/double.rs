//! 64-bit binary floating point, held as its bit pattern.
use crate::arith::{
    add_parts, divide_parts, multiply_parts, product, quotient, root_parts, square_root, sum,
    whole, whole_parts, Parts,
};
use crate::rounding::Format;
use vstd::prelude::*;

verus! {

/// A 64-bit floating-point number: its bit pattern.
#[derive(Clone, Copy, Debug, PartialEq, Eq, Structural)]
pub struct F64 {
    pub bits: u64,
}

/// The number with the given sign and magnitude.
pub open spec fn double(x: Parts) -> F64 {
    F64 {
        bits: if x.neg {
            (x.key + 0x8000_0000_0000_0000) as u64
        } else {
            x.key as u64
        },
    }
}

impl F64 {
    /// Sign and magnitude.
    pub open spec fn parts(self) -> Parts {
        if self.bits >= 0x8000_0000_0000_0000 {
            Parts { neg: true, key: (self.bits - 0x8000_0000_0000_0000) as u64 }
        } else {
            Parts { neg: false, key: self.bits as u64 }
        }
    }

    /// Not a number.
    pub open spec fn nan(self) -> bool {
        self.parts().nan(Format::Double)
    }

    /// Neither infinite nor not a number.
    pub open spec fn finite(self) -> bool {
        self.parts().finite(Format::Double)
    }

    /// The position in the order of all numbers; both zeros stand at zero.
    pub open spec fn place(self) -> int {
        self.parts().place()
    }

    /// The rounded sum.
    #[verifier::opaque]
    pub open spec fn plus(self, other: F64) -> F64 {
        double(sum(Format::Double, self.parts(), other.parts()))
    }

    /// The number with the other sign.
    pub open spec fn negated(self) -> F64 {
        double(Parts { neg: !self.parts().neg, key: self.parts().key })
    }

    /// The rounded difference.
    pub open spec fn minus(self, other: F64) -> F64 {
        self.plus(other.negated())
    }

    /// The rounded product.
    #[verifier::opaque]
    pub open spec fn times(self, other: F64) -> F64 {
        double(product(Format::Double, self.parts(), other.parts()))
    }

    /// The rounded quotient.
    #[verifier::opaque]
    pub open spec fn over(self, other: F64) -> F64 {
        double(quotient(Format::Double, self.parts(), other.parts()))
    }

    /// The rounded square root.
    #[verifier::opaque]
    pub open spec fn root(self) -> F64 {
        double(square_root(Format::Double, self.parts()))
    }

    /// The number without its sign.
    pub open spec fn magnitude(self) -> F64 {
        double(Parts { neg: false, key: self.parts().key })
    }

    /// Strictly less; never of what is not a number.
    pub open spec fn below(self, other: F64) -> bool {
        !self.nan() && !other.nan() && self.place() < other.place()
    }

    /// Less or equal; never of what is not a number.
    pub open spec fn at_most(self, other: F64) -> bool {
        !self.nan() && !other.nan() && self.place() <= other.place()
    }

    /// Equal as numbers; never of what is not a number.
    pub open spec fn same(self, other: F64) -> bool {
        !self.nan() && !other.nan() && self.place() == other.place()
    }

    /// The lesser of two, passing over what is not a number.
    pub open spec fn lesser(self, other: F64) -> F64 {
        if self.nan() || other.below(self) {
            other
        } else {
            self
        }
    }

    /// The greater of two, passing over what is not a number.
    pub open spec fn greater(self, other: F64) -> F64 {
        if self.nan() || self.below(other) {
            other
        } else {
            self
        }
    }

    /// The closest number within `lo ..= hi`; what is not a number stays.
    pub open spec fn clamped(self, lo: F64, hi: F64) -> F64 {
        if self.below(lo) {
            lo
        } else if hi.below(self) {
            hi
        } else {
            self
        }
    }

    /// Radians to degrees.
    pub open spec fn degrees(self) -> F64 {
        self.times(F64 { bits: 0x404C_A5DC_1A63_C1F8 })
    }

    /// Degrees to radians.
    pub open spec fn radians(self) -> F64 {
        self.times(F64 { bits: 0x3F91_DF46_A252_9D39 })
    }

    /// The number closest to a whole number.
    #[verifier::opaque]
    pub open spec fn of_whole(n: nat) -> F64 {
        double(whole(Format::Double, n))
    }

    /// Sign and magnitude.
    pub(crate) fn open_parts(self) -> (r: Parts)
        ensures
            r == self.parts(),
    {
        if self.bits >= 0x8000_0000_0000_0000 {
            Parts { neg: true, key: (self.bits - 0x8000_0000_0000_0000) as u64 }
        } else {
            Parts { neg: false, key: self.bits as u64 }
        }
    }

    pub(crate) fn close_parts(x: Parts) -> (r: F64)
        requires
            x.key < 0x8000_0000_0000_0000,
        ensures
            r == double(x),
            r.parts() == x,
    {
        if x.neg {
            F64 { bits: x.key as u64 + 0x8000_0000_0000_0000 }
        } else {
            F64 { bits: x.key as u64 }
        }
    }

    /// The number with the given bit pattern.
    pub fn from_bits(bits: u64) -> (r: F64)
        ensures
            r.bits == bits,
    {
        F64 { bits }
    }

    /// The bit pattern.
    pub fn to_bits(self) -> (r: u64)
        ensures
            r == self.bits,
    {
        self.bits
    }

    /// Whether this is not a number.
    pub fn is_nan(self) -> (r: bool)
        ensures
            r == self.nan(),
    {
        self.open_parts().key > 0x7FF0_0000_0000_0000
    }

    /// Whether this is neither infinite nor not a number.
    pub fn is_finite(self) -> (r: bool)
        ensures
            r == self.finite(),
    {
        self.open_parts().key < 0x7FF0_0000_0000_0000
    }

    /// Adds.
    pub fn add(self, other: F64) -> (r: F64)
        ensures
            r == self.plus(other),
    {
        proof {
            reveal(F64::plus);
        }
        let x: Parts = add_parts(Format::Double, self.open_parts(), other.open_parts());
        F64::close_parts(x)
    }

    /// Flips the sign.
    pub fn neg(self) -> (r: F64)
        ensures
            r == self.negated(),
    {
        let x: Parts = self.open_parts();
        F64::close_parts(Parts { neg: !x.neg, key: x.key })
    }

    /// Subtracts.
    pub fn sub(self, other: F64) -> (r: F64)
        ensures
            r == self.minus(other),
    {
        self.add(other.neg())
    }

    /// Multiplies.
    pub fn mul(self, other: F64) -> (r: F64)
        ensures
            r == self.times(other),
    {
        proof {
            reveal(F64::times);
        }
        let x: Parts = multiply_parts(Format::Double, self.open_parts(), other.open_parts());
        F64::close_parts(x)
    }

    /// Divides.
    pub fn div(self, other: F64) -> (r: F64)
        ensures
            r == self.over(other),
    {
        proof {
            reveal(F64::over);
        }
        let x: Parts = divide_parts(Format::Double, self.open_parts(), other.open_parts());
        F64::close_parts(x)
    }

    /// Takes the square root.
    pub fn sqrt(self) -> (r: F64)
        ensures
            r == self.root(),
    {
        proof {
            reveal(F64::root);
        }
        let x: Parts = root_parts(Format::Double, self.open_parts());
        F64::close_parts(x)
    }

    /// Drops the sign.
    pub fn abs(self) -> (r: F64)
        ensures
            r == self.magnitude(),
    {
        let x: Parts = self.open_parts();
        F64::close_parts(Parts { neg: false, key: x.key })
    }

    fn signed_key(self) -> (r: i128)
        ensures
            r == self.place(),
            -0x8000_0000_0000_0000 < r < 0x8000_0000_0000_0000,
    {
        let x: Parts = self.open_parts();
        if x.neg {
            -(x.key as i128)
        } else {
            x.key as i128
        }
    }

    /// Whether this is strictly less.
    pub fn lt(self, other: F64) -> (r: bool)
        ensures
            r == self.below(other),
    {
        !self.is_nan() && !other.is_nan() && self.signed_key() < other.signed_key()
    }

    /// Whether this is less or equal.
    pub fn le(self, other: F64) -> (r: bool)
        ensures
            r == self.at_most(other),
    {
        !self.is_nan() && !other.is_nan() && self.signed_key() <= other.signed_key()
    }

    /// The lesser of two.
    pub fn min(self, other: F64) -> (r: F64)
        ensures
            r == self.lesser(other),
    {
        if self.is_nan() || other.lt(self) {
            other
        } else {
            self
        }
    }

    /// The greater of two.
    pub fn max(self, other: F64) -> (r: F64)
        ensures
            r == self.greater(other),
    {
        if self.is_nan() || self.lt(other) {
            other
        } else {
            self
        }
    }

    /// The closest number within `lo ..= hi`.
    pub fn clamp(self, lo: F64, hi: F64) -> (r: F64)
        requires
            lo.at_most(hi),
        ensures
            r == self.clamped(lo, hi),
    {
        if self.lt(lo) {
            lo
        } else if hi.lt(self) {
            hi
        } else {
            self
        }
    }

    /// Radians to degrees.
    pub fn to_degrees(self) -> (r: F64)
        ensures
            r == self.degrees(),
    {
        self.mul(F64 { bits: 0x404C_A5DC_1A63_C1F8 })
    }

    /// Degrees to radians.
    pub fn to_radians(self) -> (r: F64)
        ensures
            r == self.radians(),
    {
        self.mul(F64 { bits: 0x3F91_DF46_A252_9D39 })
    }

    /// The number closest to a whole number.
    pub fn from_whole(n: u64) -> (r: F64)
        ensures
            r == F64::of_whole(n as nat),
    {
        proof {
            reveal(F64::of_whole);
        }
        let x: Parts = whole_parts(Format::Double, n);
        F64::close_parts(x)
    }
}

} // verus!
