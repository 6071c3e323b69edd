//! The lens model of Kannala and Brandt: how far from the middle of the picture a
//! ray is shown, as a polynomial of its angle to the optical axis.
use crate::double::F64;
use crate::rounding::{
    law_ratio_rounds, law_rounding_keeps_order, lemma_rung_in_binade, lemma_rung_zero, Format,
};
use vstd::arithmetic::power2::{
    lemma2_to64, lemma2_to64_rest, lemma_pow2_adds, lemma_pow2_pos, pow2,
};
use vstd::prelude::*;

verus! {

/// The bit pattern of one.
pub const ONE: u64 = 0x3FF0_0000_0000_0000;

/// The bit patterns of three, five, seven and nine.
pub const ODD: [u64; 4] = [
    0x4008_0000_0000_0000,
    0x4014_0000_0000_0000,
    0x401C_0000_0000_0000,
    0x4022_0000_0000_0000,
];

/// The second, fourth, sixth and eighth power of a number.
pub open spec fn even_powers(theta: F64) -> Seq<F64> {
    let t2 = theta.times(theta);
    let t4 = t2.times(t2);
    seq![t2, t4, t4.times(t2), t4.times(t4)]
}

/// One, and the first `n` of the terms, each a factor times a power.
pub open spec fn one_and_terms(factors: Seq<F64>, powers: Seq<F64>, n: nat) -> F64
    decreases n,
{
    if n == 0 {
        F64 { bits: ONE }
    } else {
        one_and_terms(factors, powers, (n - 1) as nat).plus(factors[n - 1].times(powers[n - 1]))
    }
}

/// The distance from the middle at which a ray is shown.
pub open spec fn shown_at(theta: F64, k: Seq<F64>) -> F64 {
    theta.times(one_and_terms(k, even_powers(theta), 4))
}

/// How fast that distance grows with the angle.
pub open spec fn growth_at(theta: F64, k: Seq<F64>) -> F64 {
    one_and_terms(
        Seq::new(4, |i: int| (F64 { bits: ODD[i] }).times(k[i])),
        even_powers(theta),
        4,
    )
}

fn powers_of(theta: F64) -> (r: [F64; 4])
    ensures
        r@ =~= even_powers(theta),
{
    let t2 = theta.mul(theta);
    let t4 = t2.mul(t2);
    [t2, t4, t4.mul(t2), t4.mul(t4)]
}

fn sum_terms(factors: &[F64; 4], powers: &[F64; 4]) -> (r: F64)
    ensures
        r == one_and_terms(factors@, powers@, 4),
{
    let mut total = F64::from_bits(ONE);
    let mut i: usize = 0;
    while i < 4
        invariant
            i <= 4,
            total == one_and_terms(factors@, powers@, i as nat),
        decreases 4 - i,
    {
        total = total.add(factors[i].mul(powers[i]));
        i += 1;
    }
    total
}

/// The distance from the middle, in focal lengths, at which a ray under the
/// given angle to the optical axis is shown.
pub fn theta_d(theta: F64, k: &[F64; 4]) -> (r: F64)
    ensures
        r == shown_at(theta, k@),
{
    let powers = powers_of(theta);
    assert(powers@ == even_powers(theta));
    theta.mul(sum_terms(k, &powers))
}

/// How fast that distance grows with the angle.
pub fn theta_d_prime(theta: F64, k: &[F64; 4]) -> (r: F64)
    ensures
        r == growth_at(theta, k@),
{
    let powers = powers_of(theta);
    assert(powers@ == even_powers(theta));
    let factors = [
        F64::from_bits(ODD[0]).mul(k[0]),
        F64::from_bits(ODD[1]).mul(k[1]),
        F64::from_bits(ODD[2]).mul(k[2]),
        F64::from_bits(ODD[3]).mul(k[3]),
    ];
    assert(factors@ =~= Seq::new(4, |i: int| (F64 { bits: ODD[i] }).times(k@[i])));
    sum_terms(&factors, &powers)
}

/// Nothing times a finite number is nothing.
proof fn lemma_zero_times(x: F64)
    requires
        x.finite(),
    ensures
        (F64 { bits: 0 }).times(x).parts().key == 0,
{
    reveal(F64::times);
}

/// The value of one, in units of the smallest number.
proof fn lemma_one()
    ensures
        (F64 { bits: ONE }).parts().size(Format::Double) == pow2(1074),
{
    lemma2_to64();
    lemma2_to64_rest();
    lemma_rung_in_binade(52, 1022, 0x10_0000_0000_0000);
    lemma_pow2_adds(52, 1022);
}

/// One and nothing is one.
proof fn lemma_one_plus_zero(z: F64)
    requires
        z.parts().key == 0,
    ensures
        (F64 { bits: ONE }).plus(z) == (F64 { bits: ONE }),
{
    reveal(F64::plus);
    lemma_one();
    lemma_rung_zero(52);
    lemma_pow2_pos(1074);
    let u = pow2(1074) as int;
    law_ratio_rounds(Format::Double, u, 1);
    law_rounding_keeps_order(Format::Double, u, 1, ONE as int);
}

/// A finite number times one is itself.
proof fn lemma_times_one(x: F64)
    requires
        x.finite(),
    ensures
        x.times(F64 { bits: ONE }) == x,
{
    reveal(F64::times);
    lemma_one();
    lemma_pow2_pos(1074);
    let u = pow2(1074) as int;
    let n = x.parts().size(Format::Double);
    law_ratio_rounds(Format::Double, n * u, u);
    law_rounding_keeps_order(Format::Double, n * u, u, x.parts().key as int);
}

/// A lens without distortion shows every ray at its angle.
pub proof fn law_no_distortion(theta: F64, k: Seq<F64>)
    requires
        theta.finite(),
        forall|i: int| 0 <= i < 4 ==> (#[trigger] even_powers(theta)[i]).finite(),
        forall|i: int| 0 <= i < 4 ==> #[trigger] k[i] == (F64 { bits: 0 }),
    ensures
        shown_at(theta, k) == theta,
{
    let powers = even_powers(theta);
    reveal_with_fuel(one_and_terms, 5);
    assert forall|i: int| 0 <= i < 4 implies (F64 { bits: ONE }).plus(
        #[trigger] k[i].times(powers[i]),
    ) == (F64 { bits: ONE }) by {
        assert(powers[i].finite());
        assert(k[i] == (F64 { bits: 0 }));
        lemma_zero_times(powers[i]);
        lemma_one_plus_zero(k[i].times(powers[i]));
    }
    assert(one_and_terms(k, powers, 4) == (F64 { bits: ONE }));
    lemma_times_one(theta);
}

} // verus!
