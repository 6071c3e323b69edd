//! That leaving the bounds of the search costs something.
use crate::double::F64;
use crate::mono_optimizer::{overstep, penalty, PENALTY_SCALE, ZERO};
use crate::rounding::{
    law_ratio_rounds, law_rounding_keeps_order, lemma_rung_ascends, lemma_rung_in_binade,
    lemma_rung_zero, ratio_side, rounded_ratio, rung, Format,
};
use vstd::arithmetic::power2::{lemma2_to64, lemma2_to64_rest, lemma_pow2_pos, pow2};
use vstd::prelude::*;

verus! {

/// A number that is not negative.
pub open spec fn at_least_zero(x: F64) -> bool {
    !x.nan() && !x.parts().neg
}

/// The difference of two numbers in order is positive.
proof fn lemma_difference_positive(a: F64, b: F64)
    requires
        a.below(b),
    ensures
        at_least_zero(b.minus(a)),
        b.minus(a).parts().key > 0,
{
    reveal(F64::plus);
    let (x, y) = (a.parts(), b.parts());
    assert(a.negated().parts().neg == !x.neg && a.negated().parts().key == x.key);
    if a.finite() && b.finite() {
        lemma_rung_zero(52);
        if x.key > 0 {
            lemma_rung_ascends(52, 0, x.key as int);
        }
        if y.key > 0 {
            lemma_rung_ascends(52, 0, y.key as int);
        }
        if x.key < y.key {
            lemma_rung_ascends(52, x.key as int, y.key as int);
        }
        if y.key < x.key {
            lemma_rung_ascends(52, y.key as int, x.key as int);
        }
        let n = y.value(Format::Double) - x.value(Format::Double);
        assert(n > 0);
        lemma2_to64();
        lemma2_to64_rest();
        lemma_rung_in_binade(52, 0, 1);
        law_ratio_rounds(Format::Double, n, 1);
        law_rounding_keeps_order(Format::Double, n, 1, 1);
    }
}

/// The product of positive numbers is not negative, and not zero unless the
/// exact one is at most half the smallest number.
proof fn lemma_product_positive(a: F64, b: F64)
    requires
        at_least_zero(a),
        at_least_zero(b),
        a.parts().key > 0 || b.finite(),
        b.parts().key > 0 || a.finite(),
    ensures
        at_least_zero(a.times(b)),
        !(a.finite() && b.finite()) ==> a.times(b).parts().key > 0,
        a.finite() && b.finite() && 2 * (a.parts().size(Format::Double) * b.parts().size(
            Format::Double,
        )) > pow2(1074) ==> a.times(b).parts().key > 0,
{
    reveal(F64::times);
    lemma_pow2_pos(1074);
    lemma_rung_zero(52);
    let u = pow2(1074) as int;
    let n = a.parts().size(Format::Double) * b.parts().size(Format::Double);
    law_ratio_rounds(Format::Double, n, u);
    if a.finite() && b.finite() && 2 * n > u {
        if a.parts().key == 0 || b.parts().key == 0 {
            assert(n == 0) by (nonlinear_arith)
                requires
                    n == a.parts().size(Format::Double) * b.parts().size(Format::Double),
                    a.parts().size(Format::Double) == 0 || b.parts().size(Format::Double) == 0,
            ;
        } else {
            lemma2_to64();
            lemma2_to64_rest();
            lemma_rung_in_binade(52, 0, 1);
            let k = rounded_ratio(Format::Double, n, u);
            let w = rung(52, 0) + rung(52, 1);
            assert(w == 1);
            assert(ratio_side(n, u)(w) == 2 * n - u);
            assert(k != 0);
        }
    }
}

/// What one parameter out of its bounds costs is not negative.
proof fn lemma_overstep_costs(x: F64, lo: F64, hi: F64)
    ensures
        overstep(x, lo, hi) matches Some(c) ==> at_least_zero(c),
{
    let scale = F64 { bits: PENALTY_SCALE };
    if x.below(lo) {
        lemma_difference_positive(x, lo);
        let d = lo.minus(x);
        lemma_product_positive(scale, d);
        lemma_product_positive(scale.times(d), d);
    } else if hi.below(x) {
        lemma_difference_positive(hi, x);
        let d = x.minus(hi);
        lemma_product_positive(scale, d);
        lemma_product_positive(scale.times(d), d);
    }
}

/// A sum of numbers that are not negative is at least either of them.
proof fn lemma_sum_at_least(a: F64, b: F64)
    requires
        at_least_zero(a),
        at_least_zero(b),
    ensures
        at_least_zero(a.plus(b)),
        a.at_most(a.plus(b)),
        b.at_most(a.plus(b)),
{
    reveal(F64::plus);
    if a.finite() && b.finite() {
        lemma_rung_zero(52);
        if a.parts().key > 0 {
            lemma_rung_ascends(52, 0, a.parts().key as int);
        }
        if b.parts().key > 0 {
            lemma_rung_ascends(52, 0, b.parts().key as int);
        }
        let n = a.parts().size(Format::Double) + b.parts().size(Format::Double);
        law_ratio_rounds(Format::Double, n, 1);
        law_rounding_keeps_order(Format::Double, n, 1, a.parts().key as int);
        law_rounding_keeps_order(Format::Double, n, 1, b.parts().key as int);
    }
}

/// The penalty is a number, never negative, and at least what each parameter
/// out of its bounds costs.
pub proof fn law_penalty_counts_each(p: Seq<F64>, bounds: Seq<(F64, F64)>, n: nat, i: int)
    requires
        0 <= i < n,
    ensures
        at_least_zero(penalty(p, bounds, n)),
        overstep(p[i], bounds[i].0, bounds[i].1) matches Some(c) ==> c.at_most(
            penalty(p, bounds, n),
        ),
    decreases n,
{
    let rest = penalty(p, bounds, (n - 1) as nat);
    if n > 1 {
        let j = if i < n - 1 {
            i
        } else {
            0
        };
        law_penalty_counts_each(p, bounds, (n - 1) as nat, j);
    }
    lemma_overstep_costs(p[n - 1], bounds[n - 1].0, bounds[n - 1].1);
    if let Some(c) = overstep(p[n - 1], bounds[n - 1].0, bounds[n - 1].1) {
        lemma_sum_at_least(rest, c);
    }
}

/// Whether leaving a bound by `d` shows at all: the square of a distance that
/// is too small is lost.
pub open spec fn shows(d: F64) -> bool {
    let step = (F64 { bits: PENALTY_SCALE }).times(d);
    !(d.finite() && step.finite()) || 2 * (step.parts().size(Format::Double) * d.parts().size(
        Format::Double,
    )) > pow2(1074)
}

/// A parameter out of its bounds costs something, unless it is out by so little
/// that the square is lost.
pub proof fn law_penalty_outside(p: Seq<F64>, bounds: Seq<(F64, F64)>, n: nat, i: int)
    requires
        0 <= i < n,
        ({
            let (lo, hi) = bounds[i];
            ||| p[i].below(lo) && shows(lo.minus(p[i]))
            ||| hi.below(p[i]) && !p[i].below(lo) && shows(p[i].minus(hi))
        }),
    ensures
        (F64 { bits: ZERO }).below(penalty(p, bounds, n)),
{
    reveal(F64::times);
    let (lo, hi) = bounds[i];
    let scale = F64 { bits: PENALTY_SCALE };
    let d = if p[i].below(lo) {
        lemma_difference_positive(p[i], lo);
        lo.minus(p[i])
    } else {
        lemma_difference_positive(hi, p[i]);
        p[i].minus(hi)
    };
    let c = scale.times(d).times(d);
    lemma_product_positive(scale, d);
    lemma_product_positive(scale.times(d), d);
    law_penalty_counts_each(p, bounds, n, i);
    assert(overstep(p[i], lo, hi) == Some(c));
}

} // verus!
