//! What lies inside a polygon.
use crate::algebra::{lemma_nothing, lemma_spread_out, lemma_ulp};
use crate::double::F64;
use crate::lens_laws::lemma_relative;
use crate::plane_laws::value_d;
use crate::radius_laws::lemma_scaled;
use crate::real_laws::{
    lemma_minus, lemma_over, lemma_speck, lemma_times, lemma_val, lemma_val_ordered, rounds, size,
    speck, ulp, val,
};
use crate::rounding::{law_rounding_keeps_order, lemma_rung_ascends, lemma_rung_zero, Format};
use crate::viewport::{crosses, crossings, inside};
use vstd::prelude::*;

verus! {

/// What rounds to a number from nothing is nothing.
proof fn lemma_rounds_nothing(r: F64)
    requires
        r.finite(),
        rounds(val(r), 0 as real),
    ensures
        val(r) == 0 as real,
{
    lemma_speck();
    lemma_val(r);
    lemma_ulp(size(val(r)));
    let n = r.parts().size(Format::Double);
    if n >= 1 {
        lemma_scaled(1 as real, n as real, speck());
        lemma_nothing(speck());
    } else {
        lemma_nothing(speck());
    }
}

/// A coordinate of ordinary size.
pub open spec fn ordinary_coordinate(x: F64) -> bool {
    x.finite() && size(val(x)) <= 0x1_0000_0000_0000_0000 as real
}

/// Nothing added to a number leaves it where it is.
proof fn lemma_nothing_added(z: F64, a: F64)
    requires
        z.finite(),
        val(z) == 0 as real,
        a.finite(),
    ensures
        z.plus(a).same(a),
{
    reveal(F64::plus);
    lemma_val(z);
    lemma_rung_zero(52);
    let k = a.parts().key as int;
    if k > 0 {
        lemma_rung_ascends(52, 0, k);
        law_rounding_keeps_order(Format::Double, a.parts().size(Format::Double), 1, k);
    }
}

/// A difference of two numbers that differ is not nothing.
proof fn lemma_difference(a: F64, b: F64)
    requires
        ordinary_coordinate(a) && ordinary_coordinate(b),
        !a.same(b),
    ensures
        a.minus(b).finite(),
        val(a.minus(b)) != 0 as real,
        size(val(a.minus(b))) <= 0x4_0000_0000_0000_0000 as real,
{
    lemma_speck();
    lemma_val(a);
    lemma_val(b);
    lemma_val_ordered(a, b);
    lemma_val_ordered(b, a);
    lemma_minus(a, b);
    let (m, n, k) = (
        value_d(a),
        value_d(b),
        speck(),
    );
    lemma_spread_out(m as real, n as real, k);
    let d = m - n;
    assert(val(a) - val(b) == d as real * k);
    if d >= 1 {
        lemma_scaled(1 as real, d as real, k);
    } else if d <= -1 {
        lemma_scaled(d as real, -1 as real, k);
    }
    lemma_nothing(k);
    assert(-1 as real * k == -k) by (nonlinear_arith);
    lemma_relative(val(a.minus(b)), val(a) - val(b));
    lemma_ulp(size(val(a) - val(b)));
    lemma_nothing(ulp());
}

/// An upright edge is crossed exactly by what is at its height and to its left.
proof fn lemma_upright_edge(p: [F64; 2], a: [F64; 2], b: [F64; 2])
    requires
        ordinary_coordinate(p[0]) && ordinary_coordinate(p[1]),
        ordinary_coordinate(a[0]) && ordinary_coordinate(a[1]),
        ordinary_coordinate(b[1]),
        b[0] == a[0],
    ensures
        crosses(p, a, b) <==> p[1].below(a[1]) != p[1].below(b[1]) && p[0].below(a[0]),
{
    if p[1].below(a[1]) != p[1].below(b[1]) {
        let (x, h) = (a[0], p[1].minus(a[1]));
        lemma_minus(x, x);
        let z = x.minus(x);
        lemma_rounds_nothing(z);
        lemma_minus(p[1], a[1]);
        lemma_nothing(val(h));
        lemma_times(z, h);
        let y = z.times(h);
        lemma_rounds_nothing(y);
        lemma_difference(b[1], a[1]);
        let d = b[1].minus(a[1]);
        lemma_over(y, d);
        let v = val(d);
        assert(0 as real / v == 0 as real) by (nonlinear_arith)
            requires
                v != 0 as real,
        ;
        lemma_rounds_nothing(y.over(d));
        lemma_nothing_added(y.over(d), x);
    }
}

/// Inside an upright rectangle lies what is not left of it, not right of it, not
/// above it and not below it; its first sides belong to it and its last do not.
pub proof fn law_inside_a_rectangle(p: [F64; 2], x0: F64, y0: F64, x1: F64, y1: F64)
    requires
        ordinary_coordinate(p[0]) && ordinary_coordinate(p[1]),
        ordinary_coordinate(x0) && ordinary_coordinate(y0),
        ordinary_coordinate(x1) && ordinary_coordinate(y1),
        x0.at_most(x1) && y0.at_most(y1),
    ensures
        inside(p, seq![[x0, y0], [x1, y0], [x1, y1], [x0, y1]]) <==> x0.at_most(p[0])
            && p[0].below(x1) && y0.at_most(p[1]) && p[1].below(y1),
{
    let (a, b, c, d): ([F64; 2], [F64; 2], [F64; 2], [F64; 2]) = (
        [x0, y0],
        [x1, y0],
        [x1, y1],
        [x0, y1],
    );
    let polygon = seq![a, b, c, d];
    assert(a[0] == x0 && a[1] == y0 && b[0] == x1 && b[1] == y0);
    assert(c[0] == x1 && c[1] == y1 && d[0] == x0 && d[1] == y1);
    lemma_upright_edge(p, a, d);
    lemma_upright_edge(p, c, b);
    assert(!crosses(p, b, a));
    assert(!crosses(p, d, c));
    reveal_with_fuel(crossings, 5);
    assert(polygon.last() == d);
    assert(crossings(p, polygon, 4) == (if crosses(p, a, d) {
        1nat
    } else {
        0nat
    }) + (if crosses(p, c, b) {
        1nat
    } else {
        0nat
    }));
}

} // verus!
