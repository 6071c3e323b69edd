//! The marks of a basketball court, in metres from its middle.
use crate::double::F64;
use vstd::prelude::*;

verus! {

/// A labelled mark on the floor, in metres: across, and along the court.
#[derive(Clone, Copy, Debug)]
pub struct CourtPoint {
    pub label: &'static str,
    pub x_m: F64,
    pub y_m: F64,
}

/// The content of a mark.
pub type Mark = (Seq<char>, F64, F64);

/// The bit pattern of half the length of the court, 14.0 m.
pub const HALF_LENGTH: u64 = 0x402C_0000_0000_0000;

/// The bit pattern of half its width, 7.5 m.
pub const HALF_WIDTH: u64 = 0x401E_0000_0000_0000;

/// The bit pattern of the radius of the center circle, 1.8 m.
pub const CENTER_CIRCLE_R: u64 = 0x3FFC_CCCC_CCCC_CCCD;

/// The bit pattern of the distance of the free-throw line from the baseline,
/// 5.8 m.
pub const FREE_THROW_DIST: u64 = 0x4017_3333_3333_3333;

/// The bit pattern of half the width of the key, 2.45 m.
pub const KEY_HALF_WIDTH: u64 = 0x4003_9999_9999_999A;

/// The bit pattern of the radius of the three-point arc, 6.75 m.
pub const THREE_POINT_R: u64 = 0x401B_0000_0000_0000;

/// The bit pattern of the distance of the basket from the baseline, 1.575 m.
pub const BASKET_OFFSET: u64 = 0x3FF9_3333_3333_3333;

/// The bit pattern of one.
pub const PLUS_ONE: u64 = 0x3FF0_0000_0000_0000;

/// The bit pattern of minus one.
pub const MINUS_ONE: u64 = 0xBFF0_0000_0000_0000;

/// The bit patterns of the cosines of the multiples of a quarter of pi, as
/// products in 64 bits.
pub const CIRCLE_COS: [u64; 8] = [
    0x3FF0_0000_0000_0000,  // 1.0
    0x3FE6_A09E_667F_3BCD,  // 0.7071067811865476
    0x3C91_A626_3314_5C07,  // 6.123233995736766e-17
    0xBFE6_A09E_667F_3BCC,  // -0.7071067811865475
    0xBFF0_0000_0000_0000,  // -1.0
    0xBFE6_A09E_667F_3BCE,  // -0.7071067811865477
    0xBCAA_7939_4C9E_8A0A,  // -1.8369701987210297e-16
    0x3FE6_A09E_667F_3BCB,  // 0.7071067811865474
];

/// The bit patterns of the sines of the same angles.
pub const CIRCLE_SIN: [u64; 8] = [
    0x0000_0000_0000_0000,  // 0.0
    0x3FE6_A09E_667F_3BCC,  // 0.7071067811865475
    0x3FF0_0000_0000_0000,  // 1.0
    0x3FE6_A09E_667F_3BCD,  // 0.7071067811865476
    0x3CA1_A626_3314_5C07,  // 1.2246467991473532e-16
    0xBFE6_A09E_667F_3BCC,  // -0.7071067811865475
    0xBFF0_0000_0000_0000,  // -1.0
    0xBFE6_A09E_667F_3BCE,  // -0.7071067811865477
];

/// The bit patterns of the cosines of minus sixty, zero and sixty degrees.
pub const ARC_COS: [u64; 3] = [
    0x3FE0_0000_0000_0001,  // 0.5000000000000001
    0x3FF0_0000_0000_0000,  // 1.0
    0x3FE0_0000_0000_0001,  // 0.5000000000000001
];

/// The bit patterns of the sines of the same angles.
pub const ARC_SIN: [u64; 3] = [
    0xBFEB_B67A_E858_4CAA,  // -0.8660254037844386
    0x0000_0000_0000_0000,  // 0.0
    0x3FEB_B67A_E858_4CAA,  // 0.8660254037844386
];

/// A mark on the center circle.
pub open spec fn circle_mark(label: Seq<char>, i: int) -> Mark {
    let r = F64 { bits: CENTER_CIRCLE_R };
    (
        label,
        r.times(F64 { bits: CIRCLE_COS[i] }),
        r.times(F64 { bits: CIRCLE_SIN[i] }),
    )
}

/// The end of the court with the given sign along it.
pub open spec fn end_sign(far: bool) -> F64 {
    F64 {
        bits: if far {
            PLUS_ONE
        } else {
            MINUS_ONE
        },
    }
}

/// The distance along the court of the baseline of one end.
pub open spec fn baseline_y(far: bool) -> F64 {
    end_sign(far).times(F64 { bits: HALF_LENGTH })
}

/// The distance along the court of the free-throw line of one end.
pub open spec fn free_throw_y(far: bool) -> F64 {
    end_sign(far).times(
        (F64 { bits: HALF_LENGTH }).minus(F64 { bits: FREE_THROW_DIST }),
    )
}

/// The distance along the court of the basket of one end.
pub open spec fn basket_y(far: bool) -> F64 {
    end_sign(far).times((F64 { bits: HALF_LENGTH }).minus(F64 { bits: BASKET_OFFSET }))
}

/// A mark on the three-point arc of one end.
pub open spec fn arc_mark(label: Seq<char>, far: bool, i: int) -> Mark {
    let r = F64 { bits: THREE_POINT_R };
    (
        label,
        r.times(F64 { bits: ARC_SIN[i] }),
        basket_y(far).minus(end_sign(far).times(r).times(F64 { bits: ARC_COS[i] })),
    )
}

/// The marks of the center circle.
pub open spec fn circle_marks() -> Seq<Mark> {
    seq![
        circle_mark("center-circle-0"@, 0),
        circle_mark("center-circle-45"@, 1),
        circle_mark("center-circle-90"@, 2),
        circle_mark("center-circle-135"@, 3),
        circle_mark("center-circle-180"@, 4),
        circle_mark("center-circle-225"@, 5),
        circle_mark("center-circle-270"@, 6),
        circle_mark("center-circle-315"@, 7),
    ]
}

/// The marks of the far end: corners, key and basket.
pub open spec fn far_end_marks() -> Seq<Mark> {
    seq![
        ("far-corner-left"@, (F64 { bits: HALF_WIDTH }).negated(), baseline_y(true)),
        ("far-corner-right"@, F64 { bits: HALF_WIDTH }, baseline_y(true)),
        ("far-key-baseline-left"@, (F64 { bits: KEY_HALF_WIDTH }).negated(), baseline_y(true)),
        ("far-key-baseline-right"@, F64 { bits: KEY_HALF_WIDTH }, baseline_y(true)),
        ("far-key-freethrow-left"@, (F64 { bits: KEY_HALF_WIDTH }).negated(), free_throw_y(true)),
        ("far-key-freethrow-right"@, F64 { bits: KEY_HALF_WIDTH }, free_throw_y(true)),
        ("far-basket"@, F64 { bits: 0 }, basket_y(true)),
    ]
}

/// The marks of the far three-point arc.
pub open spec fn far_arc_marks() -> Seq<Mark> {
    seq![
        arc_mark("far-3pt-a"@, true, 0),
        arc_mark("far-3pt-mid"@, true, 1),
        arc_mark("far-3pt-b"@, true, 2),
    ]
}

/// The marks of the near end: corners, key and basket.
pub open spec fn near_end_marks() -> Seq<Mark> {
    seq![
        ("near-corner-left"@, (F64 { bits: HALF_WIDTH }).negated(), baseline_y(false)),
        ("near-corner-right"@, F64 { bits: HALF_WIDTH }, baseline_y(false)),
        ("near-key-baseline-left"@, (F64 { bits: KEY_HALF_WIDTH }).negated(), baseline_y(false)),
        ("near-key-baseline-right"@, F64 { bits: KEY_HALF_WIDTH }, baseline_y(false)),
        ("near-key-freethrow-left"@, (F64 { bits: KEY_HALF_WIDTH }).negated(), free_throw_y(false)),
        ("near-key-freethrow-right"@, F64 { bits: KEY_HALF_WIDTH }, free_throw_y(false)),
        ("near-basket"@, F64 { bits: 0 }, basket_y(false)),
    ]
}

/// The marks of the near three-point arc.
pub open spec fn near_arc_marks() -> Seq<Mark> {
    seq![
        arc_mark("near-3pt-a"@, false, 0),
        arc_mark("near-3pt-mid"@, false, 1),
        arc_mark("near-3pt-b"@, false, 2),
    ]
}

/// All marks: the halfway line, the center circle, the two ends, the two arcs.
pub open spec fn all_marks() -> Seq<Mark> {
    seq![
        ("halfway-left"@, (F64 { bits: HALF_WIDTH }).negated(), F64 { bits: 0 }),
        ("halfway-right"@, F64 { bits: HALF_WIDTH }, F64 { bits: 0 }),
    ] + circle_marks() + far_end_marks() + near_end_marks() + far_arc_marks() + near_arc_marks()
}

/// The contents of marks.
pub open spec fn marks(points: Seq<CourtPoint>) -> Seq<Mark> {
    points.map_values(|p: CourtPoint| (p.label@, p.x_m, p.y_m))
}

fn circle_point(label: &'static str, i: usize) -> (r: CourtPoint)
    requires
        i < 8,
    ensures
        (r.label@, r.x_m, r.y_m) == circle_mark(label@, i as int),
{
    let radius: F64 = F64::from_bits(CENTER_CIRCLE_R);
    CourtPoint {
        label,
        x_m: radius.mul(F64::from_bits(CIRCLE_COS[i])),
        y_m: radius.mul(F64::from_bits(CIRCLE_SIN[i])),
    }
}

/// The marks of the center circle.
pub fn center_circle_points() -> (r: Vec<CourtPoint>)
    ensures
        marks(r@) == circle_marks(),
{
    let v: Vec<CourtPoint> = vec![
        circle_point("center-circle-0", 0),
        circle_point("center-circle-45", 1),
        circle_point("center-circle-90", 2),
        circle_point("center-circle-135", 3),
        circle_point("center-circle-180", 4),
        circle_point("center-circle-225", 5),
        circle_point("center-circle-270", 6),
        circle_point("center-circle-315", 7),
    ];
    assert(marks(v@) =~= circle_marks());
    v
}

fn sign_of(far: bool) -> (r: F64)
    ensures
        r == end_sign(far),
{
    if far {
        F64::from_bits(PLUS_ONE)
    } else {
        F64::from_bits(MINUS_ONE)
    }
}

fn basket_at(far: bool) -> (r: F64)
    ensures
        r == basket_y(far),
{
    sign_of(far).mul(F64::from_bits(HALF_LENGTH).sub(F64::from_bits(BASKET_OFFSET)))
}

/// The marks of the three-point arc of one end.
pub fn three_point_arc_points(far: bool) -> (r: Vec<CourtPoint>)
    ensures
        marks(r@) == if far {
            far_arc_marks()
        } else {
            near_arc_marks()
        },
{
    let names: [&'static str; 3] = if far {
        ["far-3pt-a", "far-3pt-mid", "far-3pt-b"]
    } else {
        ["near-3pt-a", "near-3pt-mid", "near-3pt-b"]
    };
    let basket: F64 = basket_at(far);
    let radius: F64 = F64::from_bits(THREE_POINT_R);
    let reach: F64 = sign_of(far).mul(radius);
    let mut v: Vec<CourtPoint> = Vec::new();
    for i in 0usize..3
        invariant
            v@.len() == i,
            basket == basket_y(far),
            radius == (F64 { bits: THREE_POINT_R }),
            reach == end_sign(far).times(radius),
            forall|j: int|
                0 <= j < i ==> ((#[trigger] v@[j]).label@, v@[j].x_m, v@[j].y_m) == arc_mark(
                    names@[j]@,
                    far,
                    j,
                ),
    {
        v.push(
            CourtPoint {
                label: names[i],
                x_m: radius.mul(F64::from_bits(ARC_SIN[i])),
                y_m: basket.sub(reach.mul(F64::from_bits(ARC_COS[i]))),
            },
        );
    }
    assert(marks(v@) =~= if far {
        far_arc_marks()
    } else {
        near_arc_marks()
    });
    v
}

/// The corners, the key and the basket of one end.
pub fn end_points(far: bool) -> (r: Vec<CourtPoint>)
    ensures
        marks(r@) == if far {
            far_end_marks()
        } else {
            near_end_marks()
        },
{
    let names: [&'static str; 7] = if far {
        [
            "far-corner-left",
            "far-corner-right",
            "far-key-baseline-left",
            "far-key-baseline-right",
            "far-key-freethrow-left",
            "far-key-freethrow-right",
            "far-basket",
        ]
    } else {
        [
            "near-corner-left",
            "near-corner-right",
            "near-key-baseline-left",
            "near-key-baseline-right",
            "near-key-freethrow-left",
            "near-key-freethrow-right",
            "near-basket",
        ]
    };
    let sign: F64 = sign_of(far);
    let half: F64 = F64::from_bits(HALF_LENGTH);
    let line: F64 = sign.mul(half);
    let throw: F64 = sign.mul(half.sub(F64::from_bits(FREE_THROW_DIST)));
    let wide: F64 = F64::from_bits(HALF_WIDTH);
    let key: F64 = F64::from_bits(KEY_HALF_WIDTH);
    let v: Vec<CourtPoint> = vec![
        CourtPoint { label: names[0], x_m: wide.neg(), y_m: line },
        CourtPoint { label: names[1], x_m: wide, y_m: line },
        CourtPoint { label: names[2], x_m: key.neg(), y_m: line },
        CourtPoint { label: names[3], x_m: key, y_m: line },
        CourtPoint { label: names[4], x_m: key.neg(), y_m: throw },
        CourtPoint { label: names[5], x_m: key, y_m: throw },
        CourtPoint { label: names[6], x_m: F64::from_bits(0), y_m: basket_at(far) },
    ];
    assert(marks(v@) =~= if far {
        far_end_marks()
    } else {
        near_end_marks()
    });
    v
}

fn extend(v: &mut Vec<CourtPoint>, more: &Vec<CourtPoint>)
    ensures
        marks(final(v)@) == marks(old(v)@) + marks(more@),
{
    let ghost before = v@;
    assert(more@.take(0) =~= Seq::empty());
    for i in 0..more.len()
        invariant
            v@ == before + more@.take(i as int),
    {
        v.push(more[i]);
        assert(v@ =~= before + more@.take(i + 1));
    }
    assert(more@.take(more@.len() as int) =~= more@);
    assert(marks(v@) =~= marks(before) + marks(more@));
}

/// All marks of the court.
pub fn default_points() -> (r: Vec<CourtPoint>)
    ensures
        marks(r@) == all_marks(),
        r@.len() == 30,
{
    let wide: F64 = F64::from_bits(HALF_WIDTH);
    let zero: F64 = F64::from_bits(0);
    let mut v: Vec<CourtPoint> = vec![
        CourtPoint { label: "halfway-left", x_m: wide.neg(), y_m: zero },
        CourtPoint { label: "halfway-right", x_m: wide, y_m: zero },
    ];
    assert(marks(v@) =~= seq![
        ("halfway-left"@, (F64 { bits: HALF_WIDTH }).negated(), F64 { bits: 0 }),
        ("halfway-right"@, F64 { bits: HALF_WIDTH }, F64 { bits: 0 }),
    ]);
    let circle: Vec<CourtPoint> = center_circle_points();
    extend(&mut v, &circle);
    let far: Vec<CourtPoint> = end_points(true);
    extend(&mut v, &far);
    let near: Vec<CourtPoint> = end_points(false);
    extend(&mut v, &near);
    let far_arc: Vec<CourtPoint> = three_point_arc_points(true);
    extend(&mut v, &far_arc);
    let near_arc: Vec<CourtPoint> = three_point_arc_points(false);
    extend(&mut v, &near_arc);
    assert(marks(v@).len() == 30);
    v
}

/// A number that tells the labels apart: the length and three characters.
spec fn label_tag(s: Seq<char>) -> int {
    let n = s.len() as int;
    ((n * 128 + s[n - 9] as int) * 128 + s[n - 3] as int) * 128 + s[n - 1] as int
}

/// The numbers of the labels, in order.
spec fn label_tags() -> Seq<int> {
    seq![
        26850036,
        29225972,
        32207536,
        35182261,
        35182256,
        37378229,
        37378224,
        37378357,
        37378352,
        37378485,
        33338100,
        35369972,
        45822708,
        47870964,
        47854324,
        50115572,
        22574580,
        35435252,
        37467124,
        47919860,
        49968116,
        49951476,
        52212724,
        24671732,
        20560481,
        24950500,
        20560482,
        22641249,
        27047652,
        22641250,
    ]
}

proof fn lemma_label_tags(i: int)
    requires
        0 <= i < 30,
    ensures
        label_tag(all_marks()[i].0) == label_tags()[i],
{
    reveal_strlit("halfway-left");
    reveal_strlit("halfway-right");
    reveal_strlit("center-circle-0");
    reveal_strlit("center-circle-45");
    reveal_strlit("center-circle-90");
    reveal_strlit("center-circle-135");
    reveal_strlit("center-circle-180");
    reveal_strlit("center-circle-225");
    reveal_strlit("center-circle-270");
    reveal_strlit("center-circle-315");
    reveal_strlit("far-corner-left");
    reveal_strlit("far-corner-right");
    reveal_strlit("far-key-baseline-left");
    reveal_strlit("far-key-baseline-right");
    reveal_strlit("far-key-freethrow-left");
    reveal_strlit("far-key-freethrow-right");
    reveal_strlit("far-basket");
    reveal_strlit("near-corner-left");
    reveal_strlit("near-corner-right");
    reveal_strlit("near-key-baseline-left");
    reveal_strlit("near-key-baseline-right");
    reveal_strlit("near-key-freethrow-left");
    reveal_strlit("near-key-freethrow-right");
    reveal_strlit("near-basket");
    reveal_strlit("far-3pt-a");
    reveal_strlit("far-3pt-mid");
    reveal_strlit("far-3pt-b");
    reveal_strlit("near-3pt-a");
    reveal_strlit("near-3pt-mid");
    reveal_strlit("near-3pt-b");
    assert(label_tag("halfway-left"@) == 26850036);
    assert(label_tag("halfway-right"@) == 29225972);
    assert(label_tag("center-circle-0"@) == 32207536);
    assert(label_tag("center-circle-45"@) == 35182261);
    assert(label_tag("center-circle-90"@) == 35182256);
    assert(label_tag("center-circle-135"@) == 37378229);
    assert(label_tag("center-circle-180"@) == 37378224);
    assert(label_tag("center-circle-225"@) == 37378357);
    assert(label_tag("center-circle-270"@) == 37378352);
    assert(label_tag("center-circle-315"@) == 37378485);
    assert(label_tag("far-corner-left"@) == 33338100);
    assert(label_tag("far-corner-right"@) == 35369972);
    assert(label_tag("far-key-baseline-left"@) == 45822708);
    assert(label_tag("far-key-baseline-right"@) == 47870964);
    assert(label_tag("far-key-freethrow-left"@) == 47854324);
    assert(label_tag("far-key-freethrow-right"@) == 50115572);
    assert(label_tag("far-basket"@) == 22574580);
    assert(label_tag("near-corner-left"@) == 35435252);
    assert(label_tag("near-corner-right"@) == 37467124);
    assert(label_tag("near-key-baseline-left"@) == 47919860);
    assert(label_tag("near-key-baseline-right"@) == 49968116);
    assert(label_tag("near-key-freethrow-left"@) == 49951476);
    assert(label_tag("near-key-freethrow-right"@) == 52212724);
    assert(label_tag("near-basket"@) == 24671732);
    assert(label_tag("far-3pt-a"@) == 20560481);
    assert(label_tag("far-3pt-mid"@) == 24950500);
    assert(label_tag("far-3pt-b"@) == 20560482);
    assert(label_tag("near-3pt-a"@) == 22641249);
    assert(label_tag("near-3pt-mid"@) == 27047652);
    assert(label_tag("near-3pt-b"@) == 22641250);
}

/// No two marks have the same label.
pub proof fn law_labels_distinct(i: int, j: int)
    requires
        0 <= i < j < all_marks().len(),
    ensures
        all_marks()[i].0 != all_marks()[j].0,
{
    lemma_label_tags(i);
    lemma_label_tags(j);
    assert(label_tags()[i] != label_tags()[j]);
}

} // verus!
