//! Conversions between the two widths and from fractions to integers.
use crate::arith::{make_nan, quiet_nan, round_exact, split, Parts};
use crate::double::{double, F64};
use crate::rounding::{rounded_ratio, Format};
use crate::single::{single, F32};
use vstd::arithmetic::power2::{
    lemma2_to64, lemma2_to64_rest, lemma_pow2_adds, lemma_pow2_strictly_increases, pow2,
};
use vstd::prelude::*;

verus! {

/// The 64-bit sign and magnitude closest to a 32-bit one, which is always the
/// same number.
pub open spec fn widened(x: Parts) -> Parts {
    if x.nan(Format::Single) {
        quiet_nan(Format::Double)
    } else if !x.finite(Format::Single) {
        Parts { neg: x.neg, key: Format::Double.infinity() as u64 }
    } else if x.key == 0 {
        x
    } else {
        Parts {
            neg: x.neg,
            key: rounded_ratio(Format::Double, x.size(Format::Single) * pow2(925), 1) as u64,
        }
    }
}

/// The 32-bit sign and magnitude closest to a 64-bit one.
pub open spec fn narrowed(x: Parts) -> Parts {
    if x.nan(Format::Double) {
        quiet_nan(Format::Single)
    } else if !x.finite(Format::Double) {
        Parts { neg: x.neg, key: Format::Single.infinity() as u64 }
    } else if x.key == 0 {
        x
    } else {
        Parts {
            neg: x.neg,
            key: rounded_ratio(Format::Single, x.size(Format::Double), pow2(925) as int) as u64,
        }
    }
}

impl F32 {
    /// The same number in 64 bits.
    #[verifier::opaque]
    pub open spec fn wide(self) -> F64 {
        double(widened(self.parts()))
    }

    /// The same number in 64 bits.
    pub fn to_double(self) -> (r: F64)
        ensures
            r == self.wide(),
    {
        proof {
            reveal(F32::wide);
            lemma2_to64();
            lemma2_to64_rest();
            lemma_pow2_strictly_increases(64, 127);
        }
        let x: Parts = self.open_parts();
        if x.key > 0x7F80_0000 {
            return F64::close_parts(make_nan(Format::Double));
        }
        if x.key == 0x7F80_0000 {
            return F64::close_parts(Parts { neg: x.neg, key: 0x7FF0_0000_0000_0000 });
        }
        if x.key == 0 {
            return F64::close_parts(x);
        }
        let (m, t): (u64, u32) = split(Format::Single, x.key);
        proof {
            lemma_pow2_adds(t as nat, 925);
            let g = pow2(t as nat) as int;
            let h = pow2(925) as int;
            assert((m * g) * h == m * (g * h)) by (nonlinear_arith);
        }
        let k: u64 = round_exact(
            Format::Double,
            m as u128,
            t as i32 + 925,
            Ghost(x.size(Format::Single) * pow2(925)),
            Ghost(0),
        );
        F64::close_parts(Parts { neg: x.neg, key: k })
    }
}

impl F64 {
    /// The closest number in 32 bits.
    #[verifier::opaque]
    pub open spec fn narrow(self) -> F32 {
        single(narrowed(self.parts()))
    }

    /// The closest number in 32 bits.
    pub fn to_single(self) -> (r: F32)
        ensures
            r == self.narrow(),
    {
        proof {
            reveal(F64::narrow);
            lemma2_to64();
            lemma2_to64_rest();
            lemma_pow2_strictly_increases(64, 127);
        }
        let x: Parts = self.open_parts();
        if x.key > 0x7FF0_0000_0000_0000 {
            return F32::close_parts(make_nan(Format::Single));
        }
        if x.key == 0x7FF0_0000_0000_0000 {
            return F32::close_parts(Parts { neg: x.neg, key: 0x7F80_0000 });
        }
        if x.key == 0 {
            return F32::close_parts(x);
        }
        let (m, t): (u64, u32) = split(Format::Double, x.key);
        let k: u64 = round_exact(
            Format::Single,
            m as u128,
            t as i32 - 925,
            Ghost(x.size(Format::Double)),
            Ghost(925),
        );
        F32::close_parts(Parts { neg: x.neg, key: k })
    }
}

} // verus!
