//! Which players belong together.
use crate::panner_config::{ClusterMode, FieldPannerConfig, ONE, THOUSANDTH, ZERO};
use crate::single::F32;
use crate::world::TrackedEntity;
use vstd::prelude::*;

verus! {

/// A player: yaw, pitch and confidence.
pub type Point = (F32, F32, F32);

/// A quantity that is added up over players.
#[derive(Clone, Copy, PartialEq, Eq, Structural)]
pub enum Column {
    Yaw,
    Pitch,
    Weight,
}

/// The live players, in order.
pub open spec fn points_of(players: Seq<TrackedEntity>) -> Seq<Point>
    decreases players.len(),
{
    if players.len() == 0 {
        Seq::empty()
    } else {
        let rest = points_of(players.drop_last());
        let p = players.last();
        if p.live() {
            rest.push((p.yaw, p.pitch, p.confidence))
        } else {
            rest
        }
    }
}

/// The weight of a player in a mean.
pub open spec fn weight(weighted: bool, p: Point) -> F32 {
    if weighted {
        p.2
    } else {
        F32 { bits: ONE }
    }
}

/// What one player adds to a column.
pub open spec fn share(weighted: bool, p: Point, column: Column) -> F32 {
    match column {
        Column::Yaw => p.0.times(weight(weighted, p)),
        Column::Pitch => p.1.times(weight(weighted, p)),
        Column::Weight => weight(weighted, p),
    }
}

/// A column added up from the first player on, starting at `start`.
pub open spec fn added(weighted: bool, points: Seq<Point>, column: Column, start: F32) -> F32
    decreases points.len(),
{
    if points.len() == 0 {
        start
    } else {
        added(weighted, points.drop_last(), column, start).plus(
            share(weighted, points.last(), column),
        )
    }
}

/// The bit pattern of the negative zero that an empty sum has.
pub const EMPTY_SUM: u32 = 0x8000_0000;

/// The mean of a column, `None` where the weights add up to nothing.
pub open spec fn mean(weighted: bool, points: Seq<Point>, start: F32) -> Option<(F32, F32)> {
    let total = added(weighted, points, Column::Weight, start);
    if total.at_most(F32 { bits: ZERO }) {
        None
    } else {
        Some(
            (
                added(weighted, points, Column::Yaw, start).over(total),
                added(weighted, points, Column::Pitch, start).over(total),
            ),
        )
    }
}

/// The square of the distance of a player from a place.
pub open spec fn distance_sq(p: Point, yaw: F32, pitch: F32) -> F32 {
    let dy = p.0.minus(yaw);
    let dp = p.1.minus(pitch);
    dy.times(dy).plus(dp.times(dp))
}

/// Puts a player behind all that are no farther away.
pub open spec fn inserted(sorted: Seq<Point>, p: Point, yaw: F32, pitch: F32) -> Seq<Point>
    decreases sorted.len(),
{
    if sorted.len() > 0 && distance_sq(p, yaw, pitch).below(
        distance_sq(sorted.last(), yaw, pitch),
    ) {
        inserted(sorted.drop_last(), p, yaw, pitch).push(sorted.last())
    } else {
        sorted.push(p)
    }
}

/// The players by distance from a place, in their order among equals.
pub open spec fn by_distance(points: Seq<Point>, yaw: F32, pitch: F32) -> Seq<Point>
    decreases points.len(),
{
    if points.len() == 0 {
        Seq::empty()
    } else {
        inserted(by_distance(points.drop_last(), yaw, pitch), points.last(), yaw, pitch)
    }
}

/// How many of `n` players are kept.
pub open spec fn keep_count(c: FieldPannerConfig, n: nat) -> int {
    let share = c.keep_fraction.clamped(F32 { bits: ZERO }, F32 { bits: ONE });
    let k = F32::of_whole(n).times(share).to_nearest() as int;
    if k < c.min_cluster {
        c.min_cluster as int
    } else if k > n {
        n as int
    } else {
        k
    }
}

/// The players closest to the mean of all, or none without a usable mean.
pub open spec fn trimmed(c: FieldPannerConfig, points: Seq<Point>) -> Seq<Point> {
    if points.len() < c.min_cluster {
        Seq::empty()
    } else {
        match mean(c.confidence_weighted, points, F32 { bits: EMPTY_SUM }) {
            None => Seq::empty(),
            Some(m) => if m.0.finite() && m.1.finite() {
                by_distance(points, m.0, m.1).take(keep_count(c, points.len()))
            } else {
                Seq::empty()
            },
        }
    }
}

/// The square of the radius within which players are neighbours.
pub open spec fn radius_sq(c: FieldPannerConfig) -> F32 {
    let r = c.cluster_bandwidth_rad.greater(F32 { bits: THOUSANDTH });
    r.times(r)
}

/// The players within a radius of one of them, in order.
pub open spec fn neighbours(points: Seq<Point>, center: Point, r_sq: F32) -> Seq<Point>
    decreases points.len(),
{
    if points.len() == 0 {
        Seq::empty()
    } else {
        let rest = neighbours(points.drop_last(), center, r_sq);
        let p = points.last();
        if distance_sq(center, p.0, p.1).at_most(r_sq) {
            rest.push(p)
        } else {
            rest
        }
    }
}

/// Both angles are finite.
pub open spec fn placed(p: Point) -> bool {
    p.0.finite() && p.1.finite()
}

/// Among the first `n` players, the last of those with the most neighbours.
pub open spec fn center_index(points: Seq<Point>, r_sq: F32, n: nat) -> Option<int>
    decreases n,
{
    if n == 0 {
        None
    } else {
        let best = center_index(points, r_sq, (n - 1) as nat);
        let p = points[n - 1];
        if !placed(p) {
            best
        } else {
            match best {
                None => Some(n - 1),
                Some(b) => if neighbours(points, p, r_sq).len() >= neighbours(
                    points,
                    points[b],
                    r_sq,
                ).len() {
                    Some(n - 1)
                } else {
                    best
                },
            }
        }
    }
}

/// The densest group of players, or none where it is too small.
pub open spec fn densest(c: FieldPannerConfig, points: Seq<Point>) -> Seq<Point> {
    if points.len() < c.min_cluster {
        Seq::empty()
    } else {
        match center_index(points, radius_sq(c), points.len()) {
            None => Seq::empty(),
            Some(i) => {
                let core = neighbours(points, points[i], radius_sq(c));
                if core.len() < c.min_cluster {
                    Seq::empty()
                } else {
                    core
                }
            },
        }
    }
}

/// The players of the cluster.
pub open spec fn core_of(c: FieldPannerConfig, points: Seq<Point>) -> Seq<Point> {
    match c.cluster_mode {
        ClusterMode::TrimmedMean => trimmed(c, points),
        ClusterMode::Density => densest(c, points),
    }
}

/// The bit pattern of one half.
pub const HALF: u32 = 0x3F00_0000;

/// The bit pattern of infinity.
pub const INFINITE: u32 = 0x7F80_0000;

/// The bit pattern of negative infinity.
pub const MINUS_INFINITE: u32 = 0xFF80_0000;

/// The least and the greatest yaw, then pitch, of the placed players.
pub open spec fn extremes(points: Seq<Point>) -> (F32, F32, F32, F32)
    decreases points.len(),
{
    if points.len() == 0 {
        let lo = F32 { bits: INFINITE };
        let hi = F32 { bits: MINUS_INFINITE };
        (lo, hi, lo, hi)
    } else {
        let e = extremes(points.drop_last());
        let p = points.last();
        if placed(p) {
            (e.0.lesser(p.0), e.1.greater(p.0), e.2.lesser(p.1), e.3.greater(p.1))
        } else {
            e
        }
    }
}

/// The middle of the box around the placed players and half its two sides, or
/// `None` where no player is placed.
pub open spec fn box_of(points: Seq<Point>) -> Option<(F32, F32, F32, F32)> {
    let e = extremes(points);
    let half = F32 { bits: HALF };
    if e.0.finite() && e.1.finite() {
        Some(
            (
                half.times(e.0.plus(e.1)),
                half.times(e.2.plus(e.3)),
                half.times(e.1.minus(e.0)),
                half.times(e.3.minus(e.2)),
            ),
        )
    } else {
        None
    }
}

/// The live players, in order.
pub fn to_points(players: &Vec<TrackedEntity>) -> (r: Vec<Point>)
    ensures
        r@ == points_of(players@),
{
    let mut out: Vec<Point> = Vec::new();
    assert(players@.take(0) =~= Seq::empty());
    for i in 0..players.len()
        invariant
            out@ == points_of(players@.take(i as int)),
    {
        proof {
            assert(players@.take(i + 1).drop_last() =~= players@.take(i as int));
        }
        let p: TrackedEntity = players[i];
        if p.is_live() {
            out.push((p.yaw, p.pitch, p.confidence));
        }
    }
    assert(players@.take(players@.len() as int) =~= players@);
    out
}

fn share_of(weighted: bool, p: Point, column: Column) -> (r: F32)
    ensures
        r == share(weighted, p, column),
{
    let w: F32 = if weighted {
        p.2
    } else {
        F32::from_bits(ONE)
    };
    match column {
        Column::Yaw => p.0.mul(w),
        Column::Pitch => p.1.mul(w),
        Column::Weight => w,
    }
}

/// Adds a column up.
pub fn add_up(weighted: bool, points: &Vec<Point>, column: Column, start: F32) -> (r: F32)
    ensures
        r == added(weighted, points@, column, start),
{
    let mut total: F32 = start;
    assert(points@.take(0) =~= Seq::empty());
    for i in 0..points.len()
        invariant
            total == added(weighted, points@.take(i as int), column, start),
    {
        proof {
            assert(points@.take(i + 1).drop_last() =~= points@.take(i as int));
        }
        total = total.add(share_of(weighted, points[i], column));
    }
    assert(points@.take(points@.len() as int) =~= points@);
    total
}

/// The mean angles, `None` where the weights add up to nothing.
pub fn mean_of(weighted: bool, points: &Vec<Point>, start: F32) -> (r: Option<(F32, F32)>)
    ensures
        r == mean(weighted, points@, start),
{
    let total: F32 = add_up(weighted, points, Column::Weight, start);
    if total.le(F32::from_bits(ZERO)) {
        return None;
    }
    Some(
        (
            add_up(weighted, points, Column::Yaw, start).div(total),
            add_up(weighted, points, Column::Pitch, start).div(total),
        ),
    )
}

/// The square of the distance of a player from a place.
pub fn measure_sq(p: Point, yaw: F32, pitch: F32) -> (r: F32)
    ensures
        r == distance_sq(p, yaw, pitch),
{
    let dy: F32 = p.0.sub(yaw);
    let dp: F32 = p.1.sub(pitch);
    dy.mul(dy).add(dp.mul(dp))
}

/// Where a player belongs: behind the last that is no farther away.
proof fn lemma_inserted_at(sorted: Seq<Point>, p: Point, yaw: F32, pitch: F32, k: int)
    requires
        0 <= k <= sorted.len(),
        forall|j: int|
            k <= j < sorted.len() ==> distance_sq(p, yaw, pitch).below(
                distance_sq(#[trigger] sorted[j], yaw, pitch),
            ),
        k > 0 ==> !distance_sq(p, yaw, pitch).below(distance_sq(sorted[k - 1], yaw, pitch)),
    ensures
        inserted(sorted, p, yaw, pitch) == sorted.insert(k, p),
    decreases sorted.len(),
{
    if k < sorted.len() {
        lemma_inserted_at(sorted.drop_last(), p, yaw, pitch, k);
        assert(sorted.drop_last().insert(k, p).push(sorted.last()) =~= sorted.insert(k, p));
    } else {
        assert(sorted.push(p) =~= sorted.insert(k, p));
        if sorted.len() > 0 {
            assert(sorted.last() == sorted[k - 1]);
        }
    }
}

/// Orders the players by distance from a place.
pub fn sort_by_distance(points: &Vec<Point>, yaw: F32, pitch: F32) -> (r: Vec<Point>)
    ensures
        r@ == by_distance(points@, yaw, pitch),
        r@.len() == points@.len(),
{
    let mut out: Vec<Point> = Vec::new();
    assert(points@.take(0) =~= Seq::empty());
    for i in 0..points.len()
        invariant
            out@ == by_distance(points@.take(i as int), yaw, pitch),
            out@.len() == i,
    {
        let p: Point = points[i];
        let d: F32 = measure_sq(p, yaw, pitch);
        let mut k: usize = out.len();
        while k > 0 && d.lt(measure_sq(out[k - 1], yaw, pitch))
            invariant
                k <= out@.len(),
                d == distance_sq(p, yaw, pitch),
                forall|j: int|
                    k <= j < out@.len() ==> d.below(distance_sq(#[trigger] out@[j], yaw, pitch)),
            decreases k,
        {
            k = k - 1;
        }
        proof {
            lemma_inserted_at(out@, p, yaw, pitch, k as int);
            assert(points@.take(i + 1).drop_last() =~= points@.take(i as int));
        }
        out.insert(k, p);
    }
    assert(points@.take(points@.len() as int) =~= points@);
    out
}

/// The players closest to the mean of all.
pub fn trim(c: &FieldPannerConfig, points: &Vec<Point>) -> (r: Vec<Point>)
    ensures
        r@ == trimmed(*c, points@),
{
    if points.len() < c.min_cluster {
        return Vec::new();
    }
    match mean_of(c.confidence_weighted, points, F32::from_bits(EMPTY_SUM)) {
        None => Vec::new(),
        Some(m) => {
            if !m.0.is_finite() || !m.1.is_finite() {
                return Vec::new();
            }
            let share: F32 = c.keep_fraction.clamp(F32::from_bits(ZERO), F32::from_bits(ONE));
            let n: usize = points.len();
            let close: usize = F32::from_whole(n as u64).mul(share).round_to_usize();
            let k: usize = if close < c.min_cluster {
                c.min_cluster
            } else if close > n {
                n
            } else {
                close
            };
            let mut sorted: Vec<Point> = sort_by_distance(points, m.0, m.1);
            sorted.truncate(k);
            sorted
        },
    }
}

/// The players within a radius of one of them, in order.
pub fn collect_neighbours(points: &Vec<Point>, center: Point, r_sq: F32) -> (r: Vec<Point>)
    ensures
        r@ == neighbours(points@, center, r_sq),
{
    let mut out: Vec<Point> = Vec::new();
    assert(points@.take(0) =~= Seq::empty());
    for i in 0..points.len()
        invariant
            out@ == neighbours(points@.take(i as int), center, r_sq),
    {
        proof {
            assert(points@.take(i + 1).drop_last() =~= points@.take(i as int));
        }
        let p: Point = points[i];
        if measure_sq(center, p.0, p.1).le(r_sq) {
            out.push(p);
        }
    }
    assert(points@.take(points@.len() as int) =~= points@);
    out
}

/// The densest group of players.
pub fn find_densest(c: &FieldPannerConfig, points: &Vec<Point>) -> (r: Vec<Point>)
    ensures
        r@ == densest(*c, points@),
{
    if points.len() < c.min_cluster {
        return Vec::new();
    }
    let reach: F32 = c.cluster_bandwidth_rad.max(F32::from_bits(THOUSANDTH));
    let r_sq: F32 = reach.mul(reach);
    let mut best: Vec<Point> = Vec::new();
    let mut found: bool = false;
    for i in 0..points.len()
        invariant
            match center_index(points@, r_sq, i as nat) {
                None => !found,
                Some(b) => found && 0 <= b < i && best@ == neighbours(points@, points@[b], r_sq),
            },
    {
        let p: Point = points[i];
        if p.0.is_finite() && p.1.is_finite() {
            let near: Vec<Point> = collect_neighbours(points, p, r_sq);
            if !found || near.len() >= best.len() {
                best = near;
                found = true;
            }
        }
    }
    if !found || best.len() < c.min_cluster {
        return Vec::new();
    }
    best
}

/// The players of the cluster.
pub fn select_core(c: &FieldPannerConfig, points: &Vec<Point>) -> (r: Vec<Point>)
    ensures
        r@ == core_of(*c, points@),
{
    match c.cluster_mode {
        ClusterMode::TrimmedMean => trim(c, points),
        ClusterMode::Density => find_densest(c, points),
    }
}

/// The middle of the box around the placed players and half its two sides.
pub fn bounding_box(points: &Vec<Point>) -> (r: Option<(F32, F32, F32, F32)>)
    ensures
        r == box_of(points@),
{
    let mut e: (F32, F32, F32, F32) = (
        F32::from_bits(INFINITE),
        F32::from_bits(MINUS_INFINITE),
        F32::from_bits(INFINITE),
        F32::from_bits(MINUS_INFINITE),
    );
    assert(points@.take(0) =~= Seq::empty());
    for i in 0..points.len()
        invariant
            e == extremes(points@.take(i as int)),
    {
        proof {
            assert(points@.take(i + 1).drop_last() =~= points@.take(i as int));
        }
        let p: Point = points[i];
        if p.0.is_finite() && p.1.is_finite() {
            e = (e.0.min(p.0), e.1.max(p.0), e.2.min(p.1), e.3.max(p.1));
        }
    }
    assert(points@.take(points@.len() as int) =~= points@);
    let half: F32 = F32::from_bits(HALF);
    if e.0.is_finite() && e.1.is_finite() {
        Some(
            (
                half.mul(e.0.add(e.1)),
                half.mul(e.2.add(e.3)),
                half.mul(e.1.sub(e.0)),
                half.mul(e.3.sub(e.2)),
            ),
        )
    } else {
        None
    }
}

} // verus!
