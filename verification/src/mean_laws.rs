//! That the mean of places lies among them, as far as it can be told apart.
use crate::cluster::{added, share, weight, Column, Point};
use crate::rounding::{
    gap_exp, law_ratio_rounds, law_rounding_keeps_order, law_rounding_monotone, lemma_rung_ascends,
    lemma_rung_in_binade, lemma_rung_step, lemma_rung_zero, lemma_split, ratio_side,
    rounded_ratio, rung, Format,
};
use crate::single::F32;
use crate::size_laws::{
    lemma_not_finite, lemma_one, lemma_power_rung, lemma_product_within, lemma_stuck,
    lemma_within_value, power_key, share_of_one, within,
};
use crate::speed_laws::{magnitude, value};
use vstd::arithmetic::power2::{lemma2_to64, lemma_pow2_adds, lemma_pow2_pos, pow2};
use vstd::prelude::*;

verus! {

/// The number of the value sixteen times as large.
spec fn sixteenfold(k: int) -> int {
    if k < 0x10_0000 {
        16 * k
    } else if k < 0x20_0000 {
        0x80_0000 + 8 * k
    } else if k < 0x40_0000 {
        2 * 0x80_0000 + 4 * k
    } else if k < 0x80_0000 {
        3 * 0x80_0000 + 2 * k
    } else {
        k + 4 * 0x80_0000
    }
}

/// A number sixteen times as large, and the one after it.
proof fn lemma_sixteenfold(k: int)
    requires
        0 <= k <= power_key(110),
    ensures
        rung(23, sixteenfold(k)) == 16 * rung(23, k),
        k >= 0x80_0000 ==> rung(23, sixteenfold(k) + 1) == 16 * rung(23, k + 1),
        0 <= sixteenfold(k) < Format::Single.infinity(),
{
    lemma2_to64();
    let t = gap_exp(23, k);
    let q = k - t * pow2(23);
    lemma_split(23, k);
    lemma_rung_in_binade(23, t, q);
    if k < 0x80_0000 {
        assert(t == 0);
        lemma_rung_in_binade(23, 0, k);
        assert(0 * pow2(23) == 0 && k * 1 == k);
        if k < 0x10_0000 {
            lemma_rung_in_binade(23, 0, 16 * k);
        } else if k < 0x20_0000 {
            lemma_rung_in_binade(23, 1, 8 * k);
        } else if k < 0x40_0000 {
            lemma_rung_in_binade(23, 2, 4 * k);
        } else {
            lemma_rung_in_binade(23, 3, 2 * k);
        }
    } else {
        lemma_rung_in_binade(23, t + 4, q);
        lemma_pow2_adds(4, t);
        let g = pow2(t) as int;
        assert((t + 4) * pow2(23) + q == k + 4 * 0x80_0000) by (nonlinear_arith)
            requires
                q == k - t * pow2(23),
                pow2(23) == 0x80_0000,
        ;
        assert(q * (16 * g) == 16 * (q * g) && (q + 1) * (16 * g) == 16 * ((q + 1) * g))
            by (nonlinear_arith);
        assert(t * pow2(23) + q == k);
    }
}

/// What is sixteen times as large is rounded to no more than sixteen times as
/// much.
proof fn lemma_scaled(n: int)
    requires
        0 <= n,
        rounded_ratio(Format::Single, n, 1) <= power_key(110),
    ensures
        rung(23, rounded_ratio(Format::Single, 16 * n, 1)) <= 16 * rung(
            23,
            rounded_ratio(Format::Single, n, 1),
        ),
{
    let k = rounded_ratio(Format::Single, n, 1);
    law_ratio_rounds(Format::Single, n, 1);
    law_ratio_rounds(Format::Single, 16 * n, 1);
    lemma_sixteenfold(k);
    let j = sixteenfold(k);
    let r = rounded_ratio(Format::Single, 16 * n, 1);
    if rung(23, k) >= n {
        law_rounding_keeps_order(Format::Single, 16 * n, 1, j);
        if r < j {
            lemma_rung_ascends(23, r, j);
        }
    } else {
        lemma2_to64();
        lemma_rung_step(23, k);
        let above = ratio_side(n, 1)(rung(23, k) + rung(23, k + 1));
        assert(above <= 0);
        if k < 0x80_0000 {
            lemma_split(23, k);
            let q = k - gap_exp(23, k) * pow2(23);
            assert(gap_exp(23, k) == 0);
        }
        if r > j {
            lemma_rung_step(23, r - 1);
            if r - 1 > j {
                lemma_rung_ascends(23, j, r - 1);
                lemma_rung_ascends(23, j + 1, r);
            }
            let w = rung(23, r - 1) + rung(23, r);
            assert(ratio_side(16 * n, 1)(w) >= 0);
        } else if r < j {
            lemma_rung_ascends(23, r, j);
        }
    }
}

/// A player whose angles are finite or not at all, and at most sixteen, and whose
/// confidence is from zero to one.
pub open spec fn fair(p: Point) -> bool {
    within(p.0, 4) && within(p.1, 4) && share_of_one(p.2)
}

/// A share of one column is at most sixteen times that of the weights.
proof fn lemma_share(x: F32, w: F32)
    requires
        within(x, 4),
        share_of_one(w),
    ensures
        within(x.times(w), 4),
        x.times(w).finite() ==> magnitude(value(x.times(w))) <= 16 * value(w),
        x.finite() ==> x.times(w).finite(),
{
    lemma_one();
    lemma_within_value(w, 0);
    lemma_product_within(x, w, 4, 0);
    lemma_not_finite(x, w);
    if x.finite() {
        reveal(F32::times);
        let t = x.times(w);
        lemma_within_value(x, 4);
        lemma_within_value(t, 4);
        lemma2_to64();
        lemma_pow2_adds(4, 149);
        lemma_pow2_pos(149);
        let u = pow2(149) as int;
        let (a, b) = (x.parts().size(Format::Single), w.parts().size(Format::Single));
        let k = w.parts().key as int;
        lemma_sixteenfold(k);
        let j = sixteenfold(k);
        assert(0 <= a * b <= (16 * b) * u) by (nonlinear_arith)
            requires
                0 <= a <= 16 * u,
                0 <= b,
        ;
        law_ratio_rounds(Format::Single, a * b, u);
        law_rounding_keeps_order(Format::Single, a * b, u, j);
        let i = t.parts().key as int;
        if i < j {
            lemma_rung_ascends(23, i, j);
        }
    }
}

/// The sums of a column and of the weights, after another share of each.
proof fn lemma_added_step(a: F32, t: F32, b: F32, w: F32)
    requires
        a.finite() ==> magnitude(value(a)) <= 16 * value(b),
        t.finite() ==> magnitude(value(t)) <= 16 * value(w),
        b.finite(),
        value(b) >= 0,
        within(b, 25),
        share_of_one(w),
    ensures
        b.plus(w).finite(),
        value(b.plus(w)) >= 0,
        within(b.plus(w), 25),
        a.plus(t).finite() ==> magnitude(value(a.plus(t))) <= 16 * value(b.plus(w)),
{
    lemma_one();
    lemma_within_value(w, 0);
    lemma_stuck(b, w, 25);
    lemma_not_finite(a, t);
    lemma_not_finite(t, a);
    reveal(F32::plus);
    lemma_rung_zero(23);
    let n = value(b) + value(w);
    law_ratio_rounds(Format::Single, n, 1);
    law_rounding_keeps_order(Format::Single, n, 1, 0);
    let s = b.plus(w);
    lemma_within_value(s, 25);
    lemma_within_value(b, 25);
    if a.plus(t).finite() {
        lemma_within_value(a.plus(t), 127);
        let m = magnitude(value(a) + value(t));
        law_ratio_rounds(Format::Single, m, 1);
        assert(a.plus(t).parts().key == 0 || a.plus(t).parts().key == rounded_ratio(
            Format::Single,
            m,
            1,
        ));
        law_rounding_monotone(Format::Single, m, 16 * n, 1);
        lemma_scaled(n);
        law_ratio_rounds(Format::Single, 16 * n, 1);
        let (i, j) = (
            rounded_ratio(Format::Single, m, 1),
            rounded_ratio(Format::Single, 16 * n, 1),
        );
        if i < j {
            lemma_rung_ascends(23, i, j);
        }
    }
}

/// A sum over fair players is at most sixteen times that of their weights, if it
/// is finite.
proof fn lemma_added(weighted: bool, points: Seq<Point>, column: Column, start: F32)
    requires
        forall|i: int| 0 <= i < points.len() ==> fair(#[trigger] points[i]),
        column != Column::Weight,
        start.parts().key == 0,
    ensures
        ({
            let a = added(weighted, points, column, start);
            let b = added(weighted, points, Column::Weight, start);
            &&& b.finite()
            &&& value(b) >= 0
            &&& within(b, 25)
            &&& a.finite() ==> magnitude(value(a)) <= 16 * value(b)
        }),
    decreases points.len(),
{
    lemma_rung_zero(23);
    if points.len() > 0 {
        let rest = points.drop_last();
        let p = points.last();
        assert(p == points[points.len() - 1]);
        assert forall|i: int| 0 <= i < rest.len() implies fair(#[trigger] rest[i]) by {
            assert(rest[i] == points[i]);
        }
        lemma_added(weighted, rest, column, start);
        let w = weight(weighted, p);
        lemma_one();
        lemma_pow2_pos(149);
        lemma_share(p.0, w);
        lemma_share(p.1, w);
        lemma_added_step(
            added(weighted, rest, column, start),
            share(weighted, p, column),
            added(weighted, rest, Column::Weight, start),
            w,
        );
    }
}

/// A quotient of at most sixteen.
proof fn lemma_ratio_within(a: F32, b: F32)
    requires
        b.finite(),
        value(b) >= 0,
        within(b, 25),
        a.finite() ==> magnitude(value(a)) <= 16 * value(b),
    ensures
        within(a.over(b), 4),
{
    lemma_not_finite(a, b);
    reveal(F32::over);
    if a.finite() && b.parts().key > 0 {
        lemma_within_value(a, 127);
        lemma_within_value(b, 25);
        lemma_power_rung(4);
        lemma2_to64();
        lemma_pow2_adds(4, 149);
        lemma_pow2_pos(149);
        let u = pow2(149) as int;
        let (x, y) = (a.parts().size(Format::Single), b.parts().size(Format::Single));
        assert(0 <= x * u <= (16 * u) * y) by (nonlinear_arith)
            requires
                0 <= x <= 16 * y,
                u > 0,
        ;
        law_ratio_rounds(Format::Single, x * u, y);
        law_rounding_keeps_order(Format::Single, x * u, y, power_key(4));
    }
}

/// The mean of fair players is at most sixteen on both axes, where it is finite.
pub proof fn lemma_mean_within(weighted: bool, points: Seq<Point>, start: F32)
    requires
        forall|i: int| 0 <= i < points.len() ==> fair(#[trigger] points[i]),
        start.parts().key == 0,
    ensures
        ({
            let total = added(weighted, points, Column::Weight, start);
            &&& within(added(weighted, points, Column::Yaw, start).over(total), 4)
            &&& within(added(weighted, points, Column::Pitch, start).over(total), 4)
        }),
{
    let total = added(weighted, points, Column::Weight, start);
    lemma_added(weighted, points, Column::Yaw, start);
    lemma_added(weighted, points, Column::Pitch, start);
    lemma_ratio_within(added(weighted, points, Column::Yaw, start), total);
    lemma_ratio_within(added(weighted, points, Column::Pitch, start), total);
}

} // verus!
