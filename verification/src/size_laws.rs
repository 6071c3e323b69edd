//! How large the results of sums, products and easing can get.
use crate::field_panner::eased;
use crate::panner_config::ONE;
use crate::rounding::{
    gap_exp, law_ratio_rounds, law_rounding_keeps_order, lemma_rung_ascends, lemma_rung_in_binade,
    lemma_rung_step, lemma_rung_zero, rounded_ratio, rung, Format,
};
use crate::single::F32;
use crate::speed_laws::{far, lemma_sum_close, magnitude, value};
use vstd::arithmetic::power2::{
    lemma2_to64, lemma2_to64_rest, lemma_pow2_adds, lemma_pow2_pos, lemma_pow2_strictly_increases,
    pow2,
};
use vstd::prelude::*;

verus! {

/// The number of the value two to the power `e`.
pub open spec fn power_key(e: int) -> int {
    (127 + e) * 0x80_0000
}

/// A number is at most two to the power `e` in magnitude, if it is finite.
pub open spec fn within(x: F32, e: int) -> bool {
    x.finite() ==> x.parts().key <= power_key(e)
}

/// The value two to the power `e`, in units of the smallest one.
pub proof fn lemma_power_rung(e: int)
    requires
        -126 <= e <= 127,
    ensures
        rung(23, power_key(e)) == pow2((149 + e) as nat),
        gap_exp(23, power_key(e)) == 126 + e,
        0 < power_key(e) < Format::Single.infinity(),
{
    lemma2_to64();
    lemma_rung_in_binade(23, (126 + e) as nat, 0x80_0000);
    lemma_pow2_adds(23, (126 + e) as nat);
}

/// A finite number at most two to the power `e` has a value that is.
pub proof fn lemma_within_value(x: F32, e: int)
    requires
        x.finite(),
        -126 <= e <= 127,
    ensures
        within(x, e) <==> magnitude(value(x)) <= pow2((149 + e) as nat),
        magnitude(value(x)) == x.parts().size(Format::Single),
        0 <= x.parts().size(Format::Single),
        x.parts().key == 0 <==> x.parts().size(Format::Single) == 0,
{
    lemma_power_rung(e);
    lemma_rung_zero(23);
    let k = x.parts().key as int;
    if k > 0 {
        lemma_rung_ascends(23, 0, k);
    }
    if k < power_key(e) {
        lemma_rung_ascends(23, k, power_key(e));
    }
    if k > power_key(e) {
        lemma_rung_ascends(23, power_key(e), k);
    }
}

/// Powers of two double.
pub proof fn lemma_doubles(e: int)
    requires
        -149 <= e,
    ensures
        pow2((150 + e) as nat) == 2 * pow2((149 + e) as nat),
        pow2((149 + e) as nat) > 0,
{
    lemma2_to64();
    lemma_pow2_adds(1, (149 + e) as nat);
    lemma_pow2_pos((149 + e) as nat);
}

/// What is not finite stays so in sums, products and quotients.
pub proof fn lemma_not_finite(a: F32, b: F32)
    ensures
        !a.finite() ==> !a.plus(b).finite() && !b.plus(a).finite(),
        !a.finite() ==> !a.times(b).finite() && !b.times(a).finite(),
        !a.finite() ==> !a.over(b).finite(),
{
    reveal(F32::plus);
    reveal(F32::times);
    reveal(F32::over);
}

/// A sum is at most twice the larger summand.
pub proof fn lemma_sum_within(a: F32, b: F32, e: int)
    requires
        within(a, e),
        within(b, e),
        -126 <= e < 127,
    ensures
        within(a.plus(b), e + 1),
        within(a.minus(b), e + 1),
        a.finite() && b.finite() ==> a.plus(b).finite() && a.minus(b).finite(),
{
    lemma_plus_within(a, b, e);
    lemma_plus_within(a, b.negated(), e);
}

/// A sum is at most twice the bound of its summands.
proof fn lemma_plus_within(a: F32, b: F32, e: int)
    requires
        within(a, e),
        within(b, e),
        -126 <= e < 127,
    ensures
        within(a.plus(b), e + 1),
        a.finite() && b.finite() ==> a.plus(b).finite(),
{
    lemma_not_finite(a, b);
    lemma_not_finite(b, a);
    if a.finite() && b.finite() {
        reveal(F32::plus);
        lemma_within_value(a, e);
        lemma_within_value(b, e);
        lemma_power_rung(e + 1);
        lemma_doubles(e);
        let n = value(a) + value(b);
        law_ratio_rounds(Format::Single, magnitude(n), 1);
        law_rounding_keeps_order(Format::Single, magnitude(n), 1, power_key(e + 1));
    }
}

/// A product is at most the product of the bounds.
pub proof fn lemma_product_within(a: F32, b: F32, i: int, j: int)
    requires
        within(a, i),
        within(b, j),
        -126 <= i <= 127,
        -126 <= j <= 127,
        -126 <= i + j <= 127,
    ensures
        within(a.times(b), i + j),
        a.finite() && b.finite() ==> a.times(b).finite(),
{
    lemma_not_finite(a, b);
    lemma_not_finite(b, a);
    if a.finite() && b.finite() {
        reveal(F32::times);
        lemma_within_value(a, i);
        lemma_within_value(b, j);
        lemma_power_rung(i + j);
        lemma_pow2_adds((149 + i) as nat, (149 + j) as nat);
        lemma_pow2_adds((149 + i + j) as nat, 149);
        lemma_pow2_pos(149);
        let (x, y) = (a.parts().size(Format::Single), b.parts().size(Format::Single));
        let (p, q) = (pow2((149 + i) as nat) as int, pow2((149 + j) as nat) as int);
        assert(0 <= x * y <= p * q) by (nonlinear_arith)
            requires
                0 <= x <= p,
                0 <= y <= q,
        ;
        law_ratio_rounds(Format::Single, x * y, pow2(149) as int);
        law_rounding_keeps_order(Format::Single, x * y, pow2(149) as int, power_key(i + j));
    }
}

/// What is added does not carry a number past a power of two that is far larger
/// than it.
pub proof fn lemma_stuck(y: F32, v: F32, e: int)
    requires
        y.finite(),
        v.finite(),
        within(y, e),
        within(v, e - 25),
        -100 <= e < 127,
    ensures
        y.plus(v).finite(),
        within(y.plus(v), e),
{
    reveal(F32::plus);
    lemma_within_value(y, e);
    lemma_within_value(v, e - 25);
    lemma_power_rung(e);
    let k = power_key(e);
    let size = magnitude(value(y) + value(v));
    law_ratio_rounds(Format::Single, size, 1);
    lemma_rung_step(23, k);
    lemma_pow2_adds(1, (125 + e) as nat);
    lemma_pow2_adds(1, (124 + e) as nat);
    lemma2_to64();
    lemma_pow2_pos((124 + e) as nat);
    let r = rounded_ratio(Format::Single, size, 1);
    if r > k {
        // the value is closer to the power than to what lies above
        lemma_rung_step(23, r - 1);
        if r - 1 > k {
            lemma_rung_ascends(23, k, r - 1);
            lemma_rung_ascends(23, k + 1, r);
        }
        let w = rung(23, r - 1) + rung(23, r);
        assert(crate::rounding::ratio_side(size, 1)(w) >= 0);
    }
}

/// The number one, in units of the smallest one.
pub proof fn lemma_one()
    ensures
        value(F32 { bits: ONE }) == pow2(149),
        power_key(0) == ONE,
{
    lemma_power_rung(0);
}

/// What is added moves a number to its own side, or not at all.
proof fn lemma_sum_side(a: F32, b: F32)
    requires
        a.finite(),
        b.finite(),
        within(a, 125),
        within(b, 125),
    ensures
        a.plus(b).finite(),
        value(b) >= 0 ==> value(a.plus(b)) >= value(a),
        value(b) <= 0 ==> value(a.plus(b)) <= value(a),
{
    lemma_plus_within(a, b, 125);
    reveal(F32::plus);
    lemma_within_value(a, 125);
    lemma_within_value(b, 125);
    let s = a.plus(b);
    lemma_within_value(s, 126);
    let n = value(a) + value(b);
    law_ratio_rounds(Format::Single, magnitude(n), 1);
    let k = a.parts().key as int;
    law_rounding_keeps_order(Format::Single, magnitude(n), 1, k);
    let j = s.parts().key as int;
    lemma_rung_zero(23);
    if j < k {
        lemma_rung_ascends(23, j, k);
    }
    if k < j {
        lemma_rung_ascends(23, k, j);
    }
}

/// A difference has the sign of the exact one.
proof fn lemma_difference_side(g: F32, x: F32)
    requires
        g.finite(),
        x.finite(),
        within(g, 125),
        within(x, 125),
    ensures
        g.minus(x).finite(),
        value(g) >= value(x) ==> value(g.minus(x)) >= 0,
        value(g) <= value(x) ==> value(g.minus(x)) <= 0,
{
    lemma_sum_within(g, x, 125);
    reveal(F32::plus);
    let d = g.minus(x);
    lemma_within_value(d, 126);
    lemma_rung_zero(23);
    assert(value(x.negated()) == -value(x));
    law_ratio_rounds(Format::Single, magnitude(value(g) - value(x)), 1);
}

/// A fraction from zero to one.
pub open spec fn share_of_one(a: F32) -> bool {
    a.finite() && 0 <= value(a) <= pow2(149)
}

/// A part of a number is on its side, and no larger.
pub proof fn lemma_part_side(alpha: F32, d: F32)
    requires
        share_of_one(alpha),
        d.finite(),
        within(d, 126),
    ensures
        ({
            let m = alpha.times(d);
            &&& m.finite()
            &&& value(d) >= 0 ==> 0 <= value(m) <= value(d)
            &&& value(d) <= 0 ==> value(d) <= value(m) <= 0
        }),
{
    lemma_one();
    lemma_within_value(alpha, 0);
    lemma_product_within(alpha, d, 0, 126);
    reveal(F32::times);
    lemma_within_value(d, 126);
    lemma_pow2_pos(149);
    lemma_rung_zero(23);
    let (x, y, u) = (
        alpha.parts().size(Format::Single),
        d.parts().size(Format::Single),
        pow2(149) as int,
    );
    assert(x * y <= y * u) by (nonlinear_arith)
        requires
            0 <= x <= u,
            0 <= y,
    ;
    let k = d.parts().key as int;
    law_ratio_rounds(Format::Single, x * y, u);
    law_rounding_keeps_order(Format::Single, x * y, u, k);
    let m = alpha.times(d);
    lemma_within_value(m, 126);
    let j = m.parts().key as int;
    if j < k {
        lemma_rung_ascends(23, j, k);
    }
}

/// Easing moves a number towards its goal and past it by no more than what is
/// lost to rounding.
pub proof fn lemma_eased_between(x: F32, g: F32, alpha: F32)
    requires
        x.finite(),
        g.finite(),
        within(x, 120),
        within(g, 120),
        share_of_one(alpha),
    ensures
        ({
            let (d, y) = (value(g.minus(x)), value(eased(x, g, alpha)));
            let lost = magnitude(d) + magnitude(y) + 0x100_0000;
            &&& eased(x, g, alpha).finite()
            &&& within(g.minus(x), 121)
            &&& within(eased(x, g, alpha), 122)
            &&& value(g) >= value(x) ==> value(x) <= y && 0x100_0000 * (y - value(g)) <= lost
            &&& value(g) <= value(x) ==> y <= value(x) && 0x100_0000 * (value(g) - y) <= lost
        }),
{
    lemma_sum_within(g, x, 120);
    lemma_difference_side(g, x);
    let d = g.minus(x);
    lemma_part_side(alpha, d);
    let m = alpha.times(d);
    lemma_within_value(d, 121);
    lemma_within_value(m, 121);
    lemma_plus_within(x, m, 121);
    lemma_sum_side(x, m);
    lemma_power_rung(127);
    assert(power_key(127) == far());
    lemma_within_value(x, 120);
    lemma_within_value(g, 120);
    lemma_pow2_strictly_increases(269, 276);
    lemma_pow2_strictly_increases(270, 276);
    lemma_doubles(120);
    lemma_doubles(121);
    lemma_doubles(122);
    lemma_pow2_strictly_increases(272, 276);
    assert(value(x.negated()) == -value(x));
    lemma_sum_close(g, x.negated());
    lemma_sum_close(x, m);
}

/// A number eased towards goals of at most half a bound stays within it.
pub proof fn lemma_eased_within(x: F32, g: F32, alpha: F32, e: int)
    requires
        within(x, e),
        within(g, e - 1),
        alpha.finite() ==> share_of_one(alpha),
        -100 <= e <= 119,
    ensures
        within(eased(x, g, alpha), e),
        x.finite() && g.finite() && alpha.finite() ==> eased(x, g, alpha).finite(),
{
    let d = g.minus(x);
    lemma_not_finite(g, x.negated());
    lemma_not_finite(x.negated(), g);
    lemma_not_finite(x, alpha.times(d));
    lemma_not_finite(alpha, d);
    lemma_not_finite(d, alpha);
    lemma_not_finite(alpha.times(d), x);
    if x.finite() && g.finite() && alpha.finite() {
        lemma_eased_between(x, g, alpha);
        let y = eased(x, g, alpha);
        lemma_within_value(x, e);
        lemma_within_value(g, e - 1);
        lemma_doubles(e - 1);
        lemma_doubles(e);
        lemma_doubles(e + 1);
        lemma_sum_within(g, x, e);
        lemma_within_value(d, e + 1);
        lemma_within_value(y, e);
        lemma2_to64();
        lemma2_to64_rest();
        lemma_pow2_adds(48, (101 + e) as nat);
        lemma_pow2_pos((101 + e) as nat);
        assert(pow2((149 + e) as nat) >= 0x1_0000_0000_0000) by (nonlinear_arith)
            requires
                pow2((149 + e) as nat) == 0x1_0000_0000_0000 * pow2((101 + e) as nat),
                pow2((101 + e) as nat) >= 1,
        ;
    }
}

} // verus!
