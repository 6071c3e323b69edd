//! Calibrating one camera from marks of known position: where the search
//! starts, what a candidate costs, and which candidate wins.
use crate::calibration::CameraParams;
use crate::court_points::CourtPoint;
use crate::double::F64;
use crate::stereo::CalibrateError;
use vstd::prelude::*;

verus! {

/// The bit pattern of zero.
pub const ZERO: u64 = 0x0000_0000_0000_0000;

/// The bit pattern of one half.
pub const HALF: u64 = 0x3FE0_0000_0000_0000;

/// The bit pattern of two.
pub const TWO: u64 = 0x4000_0000_0000_0000;

/// The bit pattern of one tenth: the size of the first simplex.
pub const TENTH: u64 = 0x3FB9_9999_9999_999A;

/// The bit pattern of ten thousand: the weight of what lies out of bounds.
pub const PENALTY_SCALE: u64 = 0x40C3_8800_0000_0000;

/// The bit pattern of ten: what a mark that cannot be seen costs.
pub const MISSING_POINT_PENALTY: u64 = 0x4024_0000_0000_0000;

/// The bit pattern of pi.
pub const PI: u64 = 0x4009_21FB_5444_2D18;

/// The bit pattern of minus pi.
pub const MINUS_PI: u64 = 0xC009_21FB_5444_2D18;

/// The bit pattern of the least lens coefficient, -0.5.
pub const K_LOW: u64 = 0xBFE0_0000_0000_0000;

/// The bit pattern of the greatest lens coefficient, 0.5.
pub const K_HIGH: u64 = 0x3FE0_0000_0000_0000;

/// The bit pattern of the least place off the middle, -25 m.
pub const LATERAL_LOW: u64 = 0xC039_0000_0000_0000;

/// The bit pattern of the greatest place off the middle, 25 m.
pub const LATERAL_HIGH: u64 = 0x4039_0000_0000_0000;

/// The bit pattern of the least height, 1 m.
pub const HEIGHT_LOW: u64 = 0x3FF0_0000_0000_0000;

/// The bit pattern of the greatest height, 40 m.
pub const HEIGHT_HIGH: u64 = 0x4044_0000_0000_0000;

/// The bit pattern of the widest diagonal view, in degrees.
pub const WIDEST_DEG: u64 = 0x406C_C000_0000_0000;

/// The bit pattern of the narrowest diagonal view, in degrees.
pub const NARROWEST_DEG: u64 = 0x4054_0000_0000_0000;

/// The bit pattern of infinity.
pub const INFINITE: u64 = 0x7FF0_0000_0000_0000;

/// The bit patterns of the diagonal views, in degrees, from which the search
/// starts.
pub const FOV_SEEDS_DEG: [u64; 6] = [
    0x4056_8000_0000_0000,  // 90.0
    0x405E_0000_0000_0000,  // 120.0
    0x4062_C000_0000_0000,  // 150.0
    0x4065_E000_0000_0000,  // 175.0
    0x4069_0000_0000_0000,  // 200.0
    0x406B_8000_0000_0000,  // 220.0
];

/// The bit patterns of the heights, in metres, from which it starts.
pub const HEIGHT_SEEDS_M: [u64; 3] = [
    0x4018_0000_0000_0000,  // 6.0
    0x4022_0000_0000_0000,  // 9.0
    0x4028_0000_0000_0000,  // 12.0
];

/// The bit patterns of the tilts, in degrees, that are tried to both sides of
/// straight down.
pub const TILT_SEEDS_DEG: [u64; 2] = [
    0x402E_0000_0000_0000,  // 15.0
    0x403E_0000_0000_0000,  // 30.0
];

/// The bit patterns of the places along the court, in metres, from which it
/// starts.
pub const LATERAL_SEEDS_M: [u64; 2] = [
    0x0000_0000_0000_0000,  // 0.0
    0x4020_0000_0000_0000,  // 8.0
];

/// The number of starts.
pub const STARTS: usize = 180;

/// The bit patterns of the corners of the court, in metres, in the order to
/// which clicked corners are assigned.
pub const CORNERS_WORLD_M: [[u64; 2]; 4] = [
    [0xC01E_0000_0000_0000, 0xC02C_0000_0000_0000],
    [0x401E_0000_0000_0000, 0xC02C_0000_0000_0000],
    [0x401E_0000_0000_0000, 0x402C_0000_0000_0000],
    [0xC01E_0000_0000_0000, 0x402C_0000_0000_0000],
];

/// The bit pattern of the widest angle to the optical axis at which a mark is
/// taken to be seen, in radians.
pub const SOLVE_MAX_THETA_RAD: u64 = 0x4002_D97C_7F33_21D2;

/// The bit pattern of the radius of the center circle, in metres.
pub const CENTER_CIRCLE_RADIUS_M: u64 = 0x3FFC_CCCC_CCCC_CCCD;

/// The bit pattern of a whole turn.
pub const TAU: u64 = 0x4019_21FB_5444_2D18;

/// The number of points by which the center circle is drawn.
pub const CIRCLE_SAMPLE_COUNT: usize = 180;

/// Every order of four things.
pub const CORNER_PERMUTATIONS: [[usize; 4]; 24] = [
    [0, 1, 2, 3],
    [0, 1, 3, 2],
    [0, 2, 1, 3],
    [0, 2, 3, 1],
    [0, 3, 1, 2],
    [0, 3, 2, 1],
    [1, 0, 2, 3],
    [1, 0, 3, 2],
    [1, 2, 0, 3],
    [1, 2, 3, 0],
    [1, 3, 0, 2],
    [1, 3, 2, 0],
    [2, 0, 1, 3],
    [2, 0, 3, 1],
    [2, 1, 0, 3],
    [2, 1, 3, 0],
    [2, 3, 0, 1],
    [2, 3, 1, 0],
    [3, 0, 1, 2],
    [3, 0, 2, 1],
    [3, 1, 0, 2],
    [3, 1, 2, 0],
    [3, 2, 0, 1],
    [3, 2, 1, 0],
];

/// A clicked mark: which one, and where in the frame, from zero to one.
#[derive(Clone, Copy, Debug)]
pub struct PointCorrespondence {
    pub court_point: CourtPoint,
    pub pixel: [F64; 2],
}

/// A solved camera.
#[derive(Clone, Copy, Debug)]
pub struct MonoCalibrationResult {
    pub camera: CameraParams,
    /// Rotation from the court to the camera, as an axis of this length in
    /// radians.
    pub rotation_axis_angle: [F64; 3],
    /// Place of the camera on the court, in metres.
    pub camera_position_m: [F64; 3],
    pub mean_reprojection_error_px: F64,
}

/// The length of the diagonal of a frame, in pixels.
pub open spec fn diagonal_of(width: u32, height: u32) -> F64 {
    F64::of_whole((width * width + height * height) as nat).root()
}

/// The focal length at which a diagonal spans an angle.
pub open spec fn focal_seed(diagonal: F64, fov_deg: F64) -> F64 {
    diagonal.times(F64 { bits: HALF }).over(fov_deg.radians().times(F64 { bits: HALF }))
}

/// The bounds of the nine parameters: focal length, two lens coefficients,
/// rotation, place, height.
pub open spec fn bounds_of(diagonal: F64) -> Seq<(F64, F64)> {
    let f = (
        focal_seed(diagonal, F64 { bits: WIDEST_DEG }).times(F64 { bits: HALF }),
        focal_seed(diagonal, F64 { bits: NARROWEST_DEG }).times(F64 { bits: TWO }),
    );
    let k = (F64 { bits: K_LOW }, F64 { bits: K_HIGH });
    let turn = (F64 { bits: MINUS_PI }, F64 { bits: PI });
    let lateral = (F64 { bits: LATERAL_LOW }, F64 { bits: LATERAL_HIGH });
    let height = (F64 { bits: HEIGHT_LOW }, F64 { bits: HEIGHT_HIGH });
    seq![f, k, k, turn, turn, turn, lateral, lateral, height]
}

/// What one parameter out of its bounds costs.
pub open spec fn overstep(x: F64, lo: F64, hi: F64) -> Option<F64> {
    let scale = F64 { bits: PENALTY_SCALE };
    if x.below(lo) {
        let d = lo.minus(x);
        Some(scale.times(d).times(d))
    } else if hi.below(x) {
        let d = x.minus(hi);
        Some(scale.times(d).times(d))
    } else {
        None
    }
}

/// What the first `n` parameters out of their bounds cost.
pub open spec fn penalty(p: Seq<F64>, bounds: Seq<(F64, F64)>, n: nat) -> F64
    decreases n,
{
    if n == 0 {
        F64 { bits: ZERO }
    } else {
        let rest = penalty(p, bounds, (n - 1) as nat);
        match overstep(p[n - 1], bounds[n - 1].0, bounds[n - 1].1) {
            Some(d) => rest.plus(d),
            None => rest,
        }
    }
}

/// The lesser of two lengths.
pub open spec fn shorter(a: nat, b: nat) -> nat {
    if a < b {
        a
    } else {
        b
    }
}

/// A parameter moved by a tenth of its range, up where that stays within.
pub open spec fn nudged(x: F64, lo: F64, hi: F64) -> F64 {
    let delta = (F64 { bits: TENTH }).times(hi.minus(lo));
    if x.plus(delta).at_most(hi) {
        x.plus(delta)
    } else {
        x.minus(delta)
    }
}

/// A corner of the first simplex: the start, or the start with one parameter
/// moved.
pub open spec fn simplex_vertex(start: Seq<F64>, bounds: Seq<(F64, F64)>, i: int) -> Seq<F64> {
    if i == 0 {
        start
    } else {
        start.update(i - 1, nudged(start[i - 1], bounds[i - 1].0, bounds[i - 1].1))
    }
}

/// The turns about the first axis from which the search starts: straight down,
/// then each tilt to both sides.
pub open spec fn turn_seeds() -> Seq<F64> {
    let pi = F64 { bits: PI };
    let a = (F64 { bits: TILT_SEEDS_DEG[0] }).radians();
    let b = (F64 { bits: TILT_SEEDS_DEG[1] }).radians();
    seq![pi, pi.minus(a), pi.plus(a), pi.minus(b), pi.plus(b)]
}

/// Start number `i`: every view with every turn with every height with every
/// place.
pub open spec fn start_at(diagonal: F64, i: int) -> Seq<F64> {
    let zero = F64 { bits: ZERO };
    seq![
        focal_seed(diagonal, F64 { bits: FOV_SEEDS_DEG[i / 30] }),
        zero,
        zero,
        turn_seeds()[(i / 6) % 5],
        zero,
        zero,
        zero,
        F64 { bits: LATERAL_SEEDS_M[i % 2] },
        F64 { bits: HEIGHT_SEEDS_M[(i / 2) % 3] },
    ]
}

/// What a search run found: parameters and their cost.
pub type Run = Option<(Vec<F64>, F64)>;

/// Among the first `n` runs, the number of the first that costs least.
pub open spec fn winner(runs: Seq<Run>, n: nat) -> Option<int>
    decreases n,
{
    if n == 0 {
        None
    } else {
        let best = winner(runs, (n - 1) as nat);
        match runs[n - 1] {
            None => best,
            Some(r) => match best {
                None => Some(n - 1),
                Some(b) => if r.1.below((runs[b]->0).1) {
                    Some(n - 1)
                } else {
                    best
                },
            },
        }
    }
}

/// The camera that parameters describe: the principal point in the middle, two
/// lens coefficients.
pub open spec fn camera_of(p: Seq<F64>, width: u32, height: u32) -> CameraParams {
    CameraParams {
        width,
        height,
        fx: p[0],
        fy: p[0],
        cx: F64::of_whole(width as nat).times(F64 { bits: HALF }),
        cy: F64::of_whole(height as nat).times(F64 { bits: HALF }),
        d: [p[1], p[2], F64 { bits: ZERO }, F64 { bits: ZERO }],
    }
}

/// Where a mark appears, from zero to one, or `None` where it cannot be seen.
pub type Seen = Option<(F64, F64)>;

/// The square of the distance between where a mark appears and where it was
/// clicked.
pub open spec fn miss_sq(seen: (F64, F64), pixel: [F64; 2]) -> F64 {
    let dx = seen.0.minus(pixel@[0]);
    let dy = seen.1.minus(pixel@[1]);
    dx.times(dx).plus(dy.times(dy))
}

/// The same distance in pixels.
pub open spec fn miss_px(seen: (F64, F64), pixel: [F64; 2], width: u32, height: u32) -> F64 {
    let dx = seen.0.minus(pixel@[0]).times(F64::of_whole(width as nat));
    let dy = seen.1.minus(pixel@[1]).times(F64::of_whole(height as nat));
    dx.times(dx).plus(dy.times(dy)).root()
}

/// What the first `n` marks cost, starting at `start`.
pub open spec fn miss_total(seen: Seq<Seen>, pixels: Seq<[F64; 2]>, n: nat, start: F64) -> F64
    decreases n,
{
    if n == 0 {
        start
    } else {
        let rest = miss_total(seen, pixels, (n - 1) as nat, start);
        match seen[n - 1] {
            Some(s) => rest.plus(miss_sq(s, pixels[n - 1])),
            None => rest.plus(F64 { bits: MISSING_POINT_PENALTY }),
        }
    }
}

/// How many of the first `n` marks can be seen, and the sum of their distances
/// in pixels.
pub open spec fn miss_sum(seen: Seq<Seen>, pixels: Seq<[F64; 2]>, n: nat, width: u32, height: u32) -> (
    nat,
    F64,
)
    decreases n,
{
    if n == 0 {
        (0, F64 { bits: ZERO })
    } else {
        let rest = miss_sum(seen, pixels, (n - 1) as nat, width, height);
        match seen[n - 1] {
            Some(s) => (rest.0 + 1, rest.1.plus(miss_px(s, pixels[n - 1], width, height))),
            None => rest,
        }
    }
}

/// A mean, infinite of nothing.
pub open spec fn mean_or_infinite(count: nat, total: F64) -> F64 {
    if count == 0 {
        F64 { bits: INFINITE }
    } else {
        total.over(F64::of_whole(count))
    }
}

/// The square of the distance from a click to the closest of the first `n`
/// points of a curve.
pub open spec fn curve_miss_sq(curve: Seq<(F64, F64)>, pixel: [F64; 2], n: nat) -> F64
    decreases n,
{
    if n == 0 {
        F64 { bits: INFINITE }
    } else {
        curve_miss_sq(curve, pixel, (n - 1) as nat).lesser(miss_sq(curve[n - 1], pixel))
    }
}

/// The distance in pixels from a click to the closest of the first `n` points
/// of a curve.
pub open spec fn curve_miss_px(
    curve: Seq<(F64, F64)>,
    pixel: [F64; 2],
    n: nat,
    width: u32,
    height: u32,
) -> F64
    decreases n,
{
    if n <= 1 {
        miss_px(curve[0], pixel, width, height)
    } else {
        let rest = curve_miss_px(curve, pixel, (n - 1) as nat, width, height);
        let d = miss_px(curve[n - 1], pixel, width, height);
        if d.below(rest) {
            d
        } else {
            rest
        }
    }
}

/// What the first `n` clicks on a circle cost, starting at `start`.
pub open spec fn circle_total(
    curve: Seq<(F64, F64)>,
    clicks: Seq<[F64; 2]>,
    n: nat,
    start: F64,
) -> F64
    decreases n,
{
    if n == 0 {
        start
    } else {
        circle_total(curve, clicks, (n - 1) as nat, start).plus(
            if curve.len() == 0 {
                F64 { bits: MISSING_POINT_PENALTY }
            } else {
                curve_miss_sq(curve, clicks[n - 1], curve.len())
            },
        )
    }
}

/// The count and sum of `start` with the pixel distances of the first `n`
/// clicks on a circle added.
pub open spec fn circle_sum(
    curve: Seq<(F64, F64)>,
    clicks: Seq<[F64; 2]>,
    n: nat,
    start: (nat, F64),
    width: u32,
    height: u32,
) -> (nat, F64)
    decreases n,
{
    if n == 0 || curve.len() == 0 {
        start
    } else {
        let rest = circle_sum(curve, clicks, (n - 1) as nat, start, width, height);
        (
            rest.0 + 1,
            rest.1.plus(curve_miss_px(curve, clicks[n - 1], curve.len(), width, height)),
        )
    }
}

/// The length of the diagonal of a frame, in pixels.
pub fn frame_diagonal(width: u32, height: u32) -> (r: F64)
    requires
        width * width + height * height <= u32::MAX,
    ensures
        r == diagonal_of(width, height),
{
    proof {
        assert(0 <= width * width && 0 <= height * height) by (nonlinear_arith);
    }
    F64::from_whole((width * width + height * height) as u64).sqrt()
}

/// The focal length at which a diagonal spans an angle.
pub fn f_seed_for_diagonal_fov_deg(diagonal_px: F64, fov_deg: F64) -> (r: F64)
    ensures
        r == focal_seed(diagonal_px, fov_deg),
{
    let half: F64 = F64::from_bits(HALF);
    let theta_half: F64 = fov_deg.to_radians().mul(half);
    diagonal_px.mul(half).div(theta_half)
}

/// The bounds of the nine parameters.
pub fn bounds_for(diagonal_px: F64) -> (r: Vec<(F64, F64)>)
    ensures
        r@ == bounds_of(diagonal_px),
{
    let f: (F64, F64) = (
        f_seed_for_diagonal_fov_deg(diagonal_px, F64::from_bits(WIDEST_DEG)).mul(
            F64::from_bits(HALF),
        ),
        f_seed_for_diagonal_fov_deg(diagonal_px, F64::from_bits(NARROWEST_DEG)).mul(
            F64::from_bits(TWO),
        ),
    );
    let k: (F64, F64) = (F64::from_bits(K_LOW), F64::from_bits(K_HIGH));
    let turn: (F64, F64) = (F64::from_bits(MINUS_PI), F64::from_bits(PI));
    let lateral: (F64, F64) = (F64::from_bits(LATERAL_LOW), F64::from_bits(LATERAL_HIGH));
    let height: (F64, F64) = (F64::from_bits(HEIGHT_LOW), F64::from_bits(HEIGHT_HIGH));
    let v: Vec<(F64, F64)> = vec![f, k, k, turn, turn, turn, lateral, lateral, height];
    assert(v@ =~= bounds_of(diagonal_px));
    v
}

/// What parameters out of their bounds cost.
pub fn bounds_penalty(p: &Vec<F64>, bounds: &Vec<(F64, F64)>) -> (r: F64)
    ensures
        r == penalty(p@, bounds@, shorter(p@.len(), bounds@.len())),
{
    let n: usize = if p.len() < bounds.len() {
        p.len()
    } else {
        bounds.len()
    };
    let scale: F64 = F64::from_bits(PENALTY_SCALE);
    let mut total: F64 = F64::from_bits(ZERO);
    for i in 0..n
        invariant
            n <= p@.len(),
            n <= bounds@.len(),
            scale == (F64 { bits: PENALTY_SCALE }),
            total == penalty(p@, bounds@, i as nat),
    {
        let x: F64 = p[i];
        let (lo, hi): (F64, F64) = bounds[i];
        if x.lt(lo) {
            let d: F64 = lo.sub(x);
            total = total.add(scale.mul(d).mul(d));
        } else if hi.lt(x) {
            let d: F64 = x.sub(hi);
            total = total.add(scale.mul(d).mul(d));
        }
    }
    total
}

/// Parameters within their bounds cost nothing extra.
pub proof fn law_no_penalty_within(p: Seq<F64>, bounds: Seq<(F64, F64)>, n: nat)
    requires
        n <= p.len(),
        n <= bounds.len(),
        forall|i: int|
            0 <= i < n ==> bounds[i].0.at_most(#[trigger] p[i]) && p[i].at_most(bounds[i].1),
    ensures
        penalty(p, bounds, n) == (F64 { bits: ZERO }),
    decreases n,
{
    if n > 0 {
        law_no_penalty_within(p, bounds, (n - 1) as nat);
        assert(p[n - 1].at_most(bounds[n - 1].1));
    }
}

fn copy_of(v: &Vec<F64>) -> (r: Vec<F64>)
    ensures
        r@ == v@,
{
    let mut out: Vec<F64> = Vec::new();
    for i in 0..v.len()
        invariant
            out@ == v@.take(i as int),
    {
        out.push(v[i]);
        assert(v@.take(i + 1) =~= v@.take(i as int).push(v@[i as int]));
    }
    assert(v@.take(v@.len() as int) =~= v@);
    out
}

/// The first simplex around a start.
pub fn build_simplex(start: &Vec<F64>, bounds: &Vec<(F64, F64)>) -> (r: Vec<Vec<F64>>)
    requires
        start@.len() <= bounds@.len(),
        start@.len() < usize::MAX,
    ensures
        r@.len() == start@.len() + 1,
        forall|i: int|
            0 <= i <= start@.len() ==> (#[trigger] r@[i])@ == simplex_vertex(start@, bounds@, i),
{
    let mut out: Vec<Vec<F64>> = Vec::new();
    out.push(copy_of(start));
    for i in 0..start.len()
        invariant
            start@.len() <= bounds@.len(),
            out@.len() == i + 1,
            forall|j: int|
                0 <= j <= i ==> (#[trigger] out@[j])@ == simplex_vertex(start@, bounds@, j),
    {
        let mut vertex: Vec<F64> = copy_of(start);
        let (lo, hi): (F64, F64) = bounds[i];
        let delta: F64 = F64::from_bits(TENTH).mul(hi.sub(lo));
        let x: F64 = start[i];
        let up: F64 = x.add(delta);
        if up.le(hi) {
            vertex.set(i, up);
        } else {
            vertex.set(i, x.sub(delta));
        }
        out.push(vertex);
    }
    out
}

/// The turns from which the search starts.
pub fn rotation_seeds() -> (r: Vec<F64>)
    ensures
        r@ == turn_seeds(),
{
    let pi: F64 = F64::from_bits(PI);
    let a: F64 = F64::from_bits(TILT_SEEDS_DEG[0]).to_radians();
    let b: F64 = F64::from_bits(TILT_SEEDS_DEG[1]).to_radians();
    let v: Vec<F64> = vec![pi, pi.sub(a), pi.add(a), pi.sub(b), pi.add(b)];
    assert(v@ =~= turn_seeds());
    v
}

/// All the starts of the search.
pub fn start_grid(diagonal_px: F64) -> (r: Vec<Vec<F64>>)
    ensures
        r@.len() == STARTS,
        forall|i: int| 0 <= i < STARTS ==> (#[trigger] r@[i])@ == start_at(diagonal_px, i),
{
    let zero: F64 = F64::from_bits(ZERO);
    let turns: Vec<F64> = rotation_seeds();
    let mut out: Vec<Vec<F64>> = Vec::new();
    for i in 0..STARTS
        invariant
            zero == (F64 { bits: ZERO }),
            turns@ == turn_seeds(),
            out@.len() == i,
            forall|j: int| 0 <= j < i ==> (#[trigger] out@[j])@ == start_at(diagonal_px, j),
    {
        let f: F64 = f_seed_for_diagonal_fov_deg(
            diagonal_px,
            F64::from_bits(FOV_SEEDS_DEG[i / 30]),
        );
        let start: Vec<F64> = vec![
            f,
            zero,
            zero,
            turns[(i / 6) % 5],
            zero,
            zero,
            zero,
            F64::from_bits(LATERAL_SEEDS_M[i % 2]),
            F64::from_bits(HEIGHT_SEEDS_M[(i / 2) % 3]),
        ];
        assert(start@ =~= start_at(diagonal_px, i as int));
        out.push(start);
    }
    out
}

/// Clicked corners in one of the orders of four.
pub fn reorder(corners_px: &[[F64; 2]; 4], permutation: usize) -> (r: [[F64; 2]; 4])
    requires
        permutation < 24,
    ensures
        forall|i: int|
            0 <= i < 4 ==> #[trigger] r@[i] == corners_px@[CORNER_PERMUTATIONS[permutation as int][i] as int],
{
    let perm: [usize; 4] = CORNER_PERMUTATIONS[permutation];
    proof {
        law_permutation_in_range(permutation as int, 0);
        law_permutation_in_range(permutation as int, 1);
        law_permutation_in_range(permutation as int, 2);
        law_permutation_in_range(permutation as int, 3);
    }
    [corners_px[perm[0]], corners_px[perm[1]], corners_px[perm[2]], corners_px[perm[3]]]
}

/// Every entry of an order is one of the four things.
pub proof fn law_permutation_in_range(p: int, i: int)
    requires
        0 <= p < 24,
        0 <= i < 4,
    ensures
        CORNER_PERMUTATIONS[p][i] < 4,
{
}

/// Every order names each of the four things once.
pub proof fn law_permutations_are_orders(p: int, i: int, j: int)
    requires
        0 <= p < 24,
        0 <= i < j < 4,
    ensures
        CORNER_PERMUTATIONS[p][i] != CORNER_PERMUTATIONS[p][j],
{
}

/// Every order of four things is in the table.
pub proof fn law_every_order_is_tried(a: usize, b: usize, c: usize, d: usize)
    requires
        a < 4,
        b < 4,
        c < 4,
        d < 4,
        a != b,
        a != c,
        a != d,
        b != c,
        b != d,
        c != d,
    ensures
        exists|p: int|
            0 <= p < 24 && #[trigger] CORNER_PERMUTATIONS[p][0] == a && CORNER_PERMUTATIONS[p][1]
                == b && CORNER_PERMUTATIONS[p][2] == c && CORNER_PERMUTATIONS[p][3] == d,
{
    // the table is in the order of dictionaries
    let q = if b < a {
        b as int
    } else {
        b - 1
    };
    let r = c - (if a < c {
        1int
    } else {
        0int
    }) - (if b < c {
        1int
    } else {
        0int
    });
    let p = a * 6 + q * 2 + r;
    assert(CORNER_PERMUTATIONS[p][0] == a);
}

/// The number of the run that won, or why there is none.
pub fn best_run(runs: &Vec<Run>, max_iters: u64) -> (r: Result<usize, CalibrateError>)
    ensures
        match winner(runs@, runs@.len()) {
            Some(w) => r matches Ok(x) && x == w && 0 <= w < runs@.len(),
            None => r == Err::<usize, CalibrateError>(
                CalibrateError::OptimizerFailed { max_evals: max_iters as usize },
            ),
        },
{
    let mut best: Option<usize> = None;
    let mut least: F64 = F64::from_bits(ZERO);
    for i in 0..runs.len()
        invariant
            match best {
                Some(b) => winner(runs@, i as nat) == Some(b as int) && b < i && runs@[b as int]
                    is Some && least == (runs@[b as int]->0).1,
                None => winner(runs@, i as nat) is None,
            },
    {
        match &runs[i] {
            Some(run) => {
                let cost: F64 = run.1;
                let wins: bool = match best {
                    Some(_) => cost.lt(least),
                    None => true,
                };
                if wins {
                    best = Some(i);
                    least = cost;
                }
            },
            None => {},
        }
    }
    match best {
        Some(b) => Ok(b),
        None => Err(CalibrateError::OptimizerFailed { max_evals: max_iters as usize }),
    }
}

/// No run costs less than the one that won, and none before it costs as
/// little, as far as costs are numbers.
pub proof fn law_winner_costs_least(runs: Seq<Run>, n: nat, i: int)
    requires
        n <= runs.len(),
        0 <= i < n,
        runs[i] is Some,
        forall|k: int| 0 <= k < n && runs[k] is Some ==> !((#[trigger] runs[k])->0).1.nan(),
    ensures
        winner(runs, n) matches Some(w) && 0 <= w < n && runs[w] is Some
            && (runs[w]->0).1.at_most((runs[i]->0).1) && (i < w ==> (runs[w]->0).1.below(
            (runs[i]->0).1,
        )),
    decreases n,
{
    if i < n - 1 {
        law_winner_costs_least(runs, (n - 1) as nat, i);
    } else {
        lemma_winner_in_range(runs, (n - 1) as nat);
    }
}

proof fn lemma_winner_in_range(runs: Seq<Run>, n: nat)
    requires
        n <= runs.len(),
    ensures
        winner(runs, n) matches Some(w) ==> 0 <= w < n && runs[w] is Some,
    decreases n,
{
    if n > 0 {
        lemma_winner_in_range(runs, (n - 1) as nat);
    }
}

/// The camera that parameters describe.
pub fn unpack(p: &Vec<F64>, width: u32, height: u32) -> (r: CameraParams)
    requires
        p@.len() >= 9,
    ensures
        r == camera_of(p@, width, height),
{
    let half: F64 = F64::from_bits(HALF);
    let zero: F64 = F64::from_bits(ZERO);
    CameraParams {
        width,
        height,
        fx: p[0],
        fy: p[0],
        cx: F64::from_whole(width as u64).mul(half),
        cy: F64::from_whole(height as u64).mul(half),
        d: [p[1], p[2], zero, zero],
    }
}

/// The angle at which a point of the center circle stands.
pub open spec fn circle_angle(s: nat) -> F64 {
    F64::of_whole(s).times(F64 { bits: TAU }).over(F64::of_whole(CIRCLE_SAMPLE_COUNT as nat))
}

/// The angles of the points by which the center circle is drawn.
pub fn circle_angles() -> (r: Vec<F64>)
    ensures
        r@.len() == CIRCLE_SAMPLE_COUNT,
        forall|s: int| 0 <= s < CIRCLE_SAMPLE_COUNT ==> #[trigger] r@[s] == circle_angle(s as nat),
{
    let mut out: Vec<F64> = Vec::new();
    for s in 0..CIRCLE_SAMPLE_COUNT
        invariant
            out@.len() == s,
            forall|j: int| 0 <= j < s ==> #[trigger] out@[j] == circle_angle(j as nat),
    {
        let turn: F64 = F64::from_whole(s as u64).mul(F64::from_bits(TAU));
        out.push(turn.div(F64::from_whole(CIRCLE_SAMPLE_COUNT as u64)));
    }
    out
}

/// The place of a point of the center circle, in metres, given the cosine and
/// the sine of its angle.
pub fn circle_mark(cos: F64, sin: F64) -> (r: (F64, F64))
    ensures
        r.0 == (F64 { bits: CENTER_CIRCLE_RADIUS_M }).times(cos),
        r.1 == (F64 { bits: CENTER_CIRCLE_RADIUS_M }).times(sin),
{
    let radius: F64 = F64::from_bits(CENTER_CIRCLE_RADIUS_M);
    (radius.mul(cos), radius.mul(sin))
}

/// The places of what can be seen, in order.
pub open spec fn in_sight(seen: Seq<Seen>) -> Seq<(F64, F64)>
    decreases seen.len(),
{
    if seen.len() == 0 {
        seq![]
    } else {
        match seen.last() {
            Some(s) => in_sight(seen.drop_last()).push(s),
            None => in_sight(seen.drop_last()),
        }
    }
}

/// The curve through the places of what can be seen: the rest is left out.
pub fn curve_of(seen: &Vec<Seen>) -> (r: Vec<(F64, F64)>)
    ensures
        r@ == in_sight(seen@),
{
    let mut out: Vec<(F64, F64)> = Vec::new();
    assert(seen@.take(0) =~= seq![]);
    for i in 0..seen.len()
        invariant
            out@ == in_sight(seen@.take(i as int)),
    {
        assert(seen@.take(i + 1).drop_last() =~= seen@.take(i as int));
        match seen[i] {
            Some(s) => {
                out.push(s);
            },
            None => {},
        }
    }
    assert(seen@.take(seen@.len() as int) =~= seen@);
    out
}

fn square_miss(seen: (F64, F64), pixel: [F64; 2]) -> (r: F64)
    ensures
        r == miss_sq(seen, pixel),
{
    let dx: F64 = seen.0.sub(pixel[0]);
    let dy: F64 = seen.1.sub(pixel[1]);
    dx.mul(dx).add(dy.mul(dy))
}

fn pixel_miss(seen: (F64, F64), pixel: [F64; 2], width: u32, height: u32) -> (r: F64)
    ensures
        r == miss_px(seen, pixel, width, height),
{
    let dx: F64 = seen.0.sub(pixel[0]).mul(F64::from_whole(width as u64));
    let dy: F64 = seen.1.sub(pixel[1]).mul(F64::from_whole(height as u64));
    dx.mul(dx).add(dy.mul(dy)).sqrt()
}

fn total_miss(seen: &Vec<Seen>, pixels: &Vec<[F64; 2]>, start: F64) -> (r: F64)
    requires
        seen@.len() == pixels@.len(),
    ensures
        r == miss_total(seen@, pixels@, seen@.len(), start),
{
    let mut total: F64 = start;
    for i in 0..seen.len()
        invariant
            seen@.len() == pixels@.len(),
            total == miss_total(seen@, pixels@, i as nat, start),
    {
        match seen[i] {
            Some(s) => {
                total = total.add(square_miss(s, pixels[i]));
            },
            None => {
                total = total.add(F64::from_bits(MISSING_POINT_PENALTY));
            },
        }
    }
    total
}

fn sum_miss(seen: &Vec<Seen>, pixels: &Vec<[F64; 2]>, width: u32, height: u32) -> (r: (usize, F64))
    requires
        seen@.len() == pixels@.len(),
    ensures
        (r.0 as nat, r.1) == miss_sum(seen@, pixels@, seen@.len(), width, height),
        r.0 <= seen@.len(),
{
    let mut n: usize = 0;
    let mut total: F64 = F64::from_bits(ZERO);
    for i in 0..seen.len()
        invariant
            seen@.len() == pixels@.len(),
            n <= i,
            (n as nat, total) == miss_sum(seen@, pixels@, i as nat, width, height),
    {
        match seen[i] {
            Some(s) => {
                total = total.add(pixel_miss(s, pixels[i], width, height));
                n = n + 1;
            },
            None => {},
        }
    }
    (n, total)
}

fn mean_of(count: usize, total: F64) -> (r: F64)
    ensures
        r == mean_or_infinite(count as nat, total),
{
    if count == 0 {
        F64::from_bits(INFINITE)
    } else {
        total.div(F64::from_whole(count as u64))
    }
}

/// The clicks of correspondences.
pub open spec fn clicks_of(points: Seq<PointCorrespondence>) -> Seq<[F64; 2]> {
    points.map_values(|p: PointCorrespondence| p.pixel)
}

/// The clicks of correspondences.
pub fn clicks(points: &Vec<PointCorrespondence>) -> (r: Vec<[F64; 2]>)
    ensures
        r@ == clicks_of(points@),
{
    let mut out: Vec<[F64; 2]> = Vec::new();
    for i in 0..points.len()
        invariant
            out@.len() == i,
            forall|j: int| 0 <= j < i ==> #[trigger] out@[j] == points@[j].pixel,
    {
        out.push(points[i].pixel);
    }
    assert(out@ =~= clicks_of(points@));
    out
}

/// What candidate parameters cost, given where they make the marks appear.
pub fn correspondence_cost(
    seen: &Vec<Seen>,
    points: &Vec<PointCorrespondence>,
    p: &Vec<F64>,
    bounds: &Vec<(F64, F64)>,
) -> (r: F64)
    requires
        seen@.len() == points@.len(),
    ensures
        r == miss_total(seen@, clicks_of(points@), seen@.len(), F64 { bits: ZERO }).over(
            F64::of_whole(
                if points@.len() == 0 {
                    1nat
                } else {
                    points@.len()
                },
            ),
        ).plus(penalty(p@, bounds@, shorter(p@.len(), bounds@.len()))),
{
    let pixels: Vec<[F64; 2]> = clicks(points);
    let total: F64 = total_miss(seen, &pixels, F64::from_bits(ZERO));
    let n: usize = if points.len() == 0 {
        1
    } else {
        points.len()
    };
    total.div(F64::from_whole(n as u64)).add(bounds_penalty(p, bounds))
}

/// How far, in pixels, the marks that can be seen appear from their clicks on
/// average.
pub fn mean_pixel_error(
    seen: &Vec<Seen>,
    points: &Vec<PointCorrespondence>,
    width: u32,
    height: u32,
) -> (r: F64)
    requires
        seen@.len() == points@.len(),
    ensures
        ({
            let s = miss_sum(seen@, clicks_of(points@), seen@.len(), width, height);
            r == mean_or_infinite(s.0, s.1)
        }),
{
    let pixels: Vec<[F64; 2]> = clicks(points);
    let (n, total): (usize, F64) = sum_miss(seen, &pixels, width, height);
    mean_of(n, total)
}

fn closest_sq(curve: &Vec<(F64, F64)>, pixel: [F64; 2]) -> (r: F64)
    ensures
        r == curve_miss_sq(curve@, pixel, curve@.len()),
{
    let mut best: F64 = F64::from_bits(INFINITE);
    for i in 0..curve.len()
        invariant
            best == curve_miss_sq(curve@, pixel, i as nat),
    {
        best = best.min(square_miss(curve[i], pixel));
    }
    best
}

fn closest_px(curve: &Vec<(F64, F64)>, pixel: [F64; 2], width: u32, height: u32) -> (r: F64)
    requires
        curve@.len() > 0,
    ensures
        r == curve_miss_px(curve@, pixel, curve@.len(), width, height),
{
    let mut best: F64 = pixel_miss(curve[0], pixel, width, height);
    for i in 1..curve.len()
        invariant
            curve@.len() > 0,
            best == curve_miss_px(curve@, pixel, i as nat, width, height),
    {
        let d: F64 = pixel_miss(curve[i], pixel, width, height);
        if d.lt(best) {
            best = d;
        }
    }
    best
}

/// What candidate parameters cost, given where they make the corners and the
/// center circle appear.
pub fn corners_circle_cost(
    seen: &Vec<Seen>,
    corners_px: &Vec<[F64; 2]>,
    curve: &Vec<(F64, F64)>,
    circle_px: &Vec<[F64; 2]>,
    p: &Vec<F64>,
    bounds: &Vec<(F64, F64)>,
) -> (r: F64)
    requires
        seen@.len() == corners_px@.len(),
        seen@.len() == 4,
        circle_px@.len() <= usize::MAX - 4,
    ensures
        r == circle_total(
            curve@,
            circle_px@,
            circle_px@.len(),
            miss_total(seen@, corners_px@, 4, F64 { bits: ZERO }),
        ).over(F64::of_whole(4 + circle_px@.len())).plus(
            penalty(p@, bounds@, shorter(p@.len(), bounds@.len())),
        ),
{
    let start: F64 = total_miss(seen, corners_px, F64::from_bits(ZERO));
    let mut total: F64 = start;
    for i in 0..circle_px.len()
        invariant
            total == circle_total(curve@, circle_px@, i as nat, start),
    {
        let d: F64 = if curve.len() == 0 {
            F64::from_bits(MISSING_POINT_PENALTY)
        } else {
            closest_sq(curve, circle_px[i])
        };
        total = total.add(d);
    }
    let n: usize = 4 + circle_px.len();
    total.div(F64::from_whole(n as u64)).add(bounds_penalty(p, bounds))
}

/// How far, in pixels, the corners and the circle appear from their clicks on
/// average.
pub fn corners_circle_error(
    seen: &Vec<Seen>,
    corners_px: &Vec<[F64; 2]>,
    curve: &Vec<(F64, F64)>,
    circle_px: &Vec<[F64; 2]>,
    width: u32,
    height: u32,
) -> (r: F64)
    requires
        seen@.len() == corners_px@.len(),
        seen@.len() == 4,
        circle_px@.len() <= usize::MAX - 4,
    ensures
        ({
            let s = circle_sum(
                curve@,
                circle_px@,
                circle_px@.len(),
                miss_sum(seen@, corners_px@, 4, width, height),
                width,
                height,
            );
            r == mean_or_infinite(s.0, s.1)
        }),
{
    let (first, start): (usize, F64) = sum_miss(seen, corners_px, width, height);
    if curve.len() == 0 {
        return mean_of(first, start);
    }
    let mut n: usize = first;
    let mut total: F64 = start;
    for i in 0..circle_px.len()
        invariant
            curve@.len() > 0,
            first <= 4,
            circle_px@.len() <= usize::MAX - 4,
            n == first + i,
            (n as nat, total) == circle_sum(
                curve@,
                circle_px@,
                i as nat,
                (first as nat, start),
                width,
                height,
            ),
    {
        total = total.add(closest_px(curve, circle_px[i], width, height));
        n = n + 1;
    }
    mean_of(n, total)
}

/// The camera of the run that won.
#[derive(Debug)]
pub struct Solution {
    pub camera: CameraParams,
    pub rotation_axis_angle: [F64; 3],
    pub params: Vec<F64>,
    /// The number of the run that won.
    pub run: usize,
}

/// Whether every run that found something found all nine parameters.
pub open spec fn complete(runs: Seq<Run>) -> bool {
    forall|i: int| 0 <= i < runs.len() && runs[i] is Some ==> ((#[trigger] runs[i])->0).0@.len() >= 9
}

/// What is made of the runs: the camera of the winner.
pub open spec fn solved(
    r: Result<Solution, CalibrateError>,
    runs: Seq<Run>,
    width: u32,
    height: u32,
    max_iters: u64,
) -> bool {
    match winner(runs, runs.len()) {
        Some(w) => {
            let p = (runs[w]->0).0@;
            r matches Ok(s) && s.run == w && s.params@ == p && s.camera == camera_of(
                p,
                width,
                height,
            ) && s.rotation_axis_angle@ =~= seq![p[3], p[4], p[5]]
        },
        None => r == Err::<Solution, CalibrateError>(
            CalibrateError::OptimizerFailed { max_evals: max_iters as usize },
        ),
    }
}

/// Picks the best of the search runs, one for each start, in the order of
/// `start_grid`.
pub fn optimize(runs: &Vec<Run>, width: u32, height: u32, max_iters: u64) -> (r: Result<
    Solution,
    CalibrateError,
>)
    requires
        complete(runs@),
    ensures
        solved(r, runs@, width, height, max_iters),
{
    match best_run(runs, max_iters) {
        Err(e) => Err(e),
        Ok(w) => {
            proof {
                lemma_winner_in_range(runs@, runs@.len());
            }
            match &runs[w] {
                Some(found) => {
                    assert((runs@[w as int]->0).0@.len() >= 9);
                    let params: Vec<F64> = copy_of(&found.0);
                    Ok(
                        Solution {
                            camera: unpack(&params, width, height),
                            rotation_axis_angle: [params[3], params[4], params[5]],
                            params,
                            run: w,
                        },
                    )
                },
                None => Err(CalibrateError::OptimizerFailed { max_evals: max_iters as usize }),
            }
        },
    }
}

/// Picks the best of the search runs for every order of the corners, all starts
/// of one order after the other, and returns the corners in the order that won.
pub fn optimize_corners_and_circle(
    runs: &Vec<Run>,
    corners_px: &[[F64; 2]; 4],
    width: u32,
    height: u32,
    max_iters: u64,
) -> (r: Result<(Solution, [[F64; 2]; 4]), CalibrateError>)
    requires
        complete(runs@),
        runs@.len() == 24 * STARTS,
    ensures
        match winner(runs@, runs@.len()) {
            Some(w) => {
                &&& r matches Ok(x)
                &&& solved(
                    Ok::<Solution, CalibrateError>(x.0),
                    runs@,
                    width,
                    height,
                    max_iters,
                )
                &&& 0 <= w / STARTS as int
                &&& w / (STARTS as int) < 24
                &&& forall|i: int|
                    0 <= i < 4 ==> #[trigger] x.1@[i] == corners_px@[CORNER_PERMUTATIONS[w / STARTS as int][i] as int]
            },
            None => r == Err::<(Solution, [[F64; 2]; 4]), CalibrateError>(
                CalibrateError::OptimizerFailed { max_evals: max_iters as usize },
            ),
        },
{
    match optimize(runs, width, height, max_iters) {
        Err(e) => Err(e),
        Ok(s) => {
            proof {
                lemma_winner_in_range(runs@, runs@.len());
            }
            let order: usize = s.run / STARTS;
            let corners: [[F64; 2]; 4] = reorder(corners_px, order);
            Ok((s, corners))
        },
    }
}

/// Corners in one of the orders of four.
pub open spec fn ordered(corners: Seq<[F64; 2]>, p: int) -> Seq<[F64; 2]> {
    Seq::new(4, |i: int| corners[CORNER_PERMUTATIONS[p][i] as int])
}

/// What a search finds for every order of the corners, from every start.
pub open spec fn all_runs(
    search: spec_fn(Seq<[F64; 2]>, int) -> Run,
    corners: Seq<[F64; 2]>,
) -> Seq<Run> {
    Seq::new(
        (24 * STARTS) as nat,
        |i: int| search(ordered(corners, i / STARTS as int), i % STARTS as int),
    )
}

/// Where a thing stands in an order.
spec fn place_in(p: int, x: usize) -> usize {
    if CORNER_PERMUTATIONS[p][0] == x {
        0
    } else if CORNER_PERMUTATIONS[p][1] == x {
        1
    } else if CORNER_PERMUTATIONS[p][2] == x {
        2
    } else {
        3
    }
}

/// Entry `i` of one order applied to another.
spec fn chained(s: int, q: int, i: int) -> usize {
    CORNER_PERMUTATIONS[s][CORNER_PERMUTATIONS[q][i] as int]
}

/// Where in one order entry `i` of another stands.
spec fn traced(s: int, p: int, i: int) -> usize {
    place_in(s, CORNER_PERMUTATIONS[p][i])
}

/// Two orders one after the other are an order.
proof fn lemma_order_of_order(corners: Seq<[F64; 2]>, s: int, q: int) -> (p: int)
    requires
        corners.len() == 4,
        0 <= s < 24,
        0 <= q < 24,
    ensures
        0 <= p < 24,
        ordered(corners, p) == ordered(ordered(corners, s), q),
{
    assert forall|r: int, i: int| 0 <= r < 24 && 0 <= i < 4 implies #[trigger] CORNER_PERMUTATIONS[r][i]
        < 4 by {
        law_permutation_in_range(r, i);
    }
    assert forall|i: int, j: int| 0 <= i < j < 4 implies #[trigger] chained(s, q, i) != #[trigger] chained(
        s,
        q,
        j,
    ) by {
        law_permutations_are_orders(q, i, j);
        let (a, b) = (CORNER_PERMUTATIONS[q][i] as int, CORNER_PERMUTATIONS[q][j] as int);
        if a < b {
            law_permutations_are_orders(s, a, b);
        } else {
            law_permutations_are_orders(s, b, a);
        }
    }
    law_every_order_is_tried(chained(s, q, 0), chained(s, q, 1), chained(s, q, 2), chained(s, q, 3));
    let p = choose|p: int|
        0 <= p < 24 && #[trigger] CORNER_PERMUTATIONS[p][0] == chained(s, q, 0) && CORNER_PERMUTATIONS[p][1]
            == chained(s, q, 1) && CORNER_PERMUTATIONS[p][2] == chained(s, q, 2) && CORNER_PERMUTATIONS[p][3] == chained(s, q, 3);
    assert(ordered(corners, p) =~= ordered(ordered(corners, s), q));
    p
}

/// An order can be had from any other.
proof fn lemma_order_from_order(corners: Seq<[F64; 2]>, s: int, p: int) -> (q: int)
    requires
        corners.len() == 4,
        0 <= s < 24,
        0 <= p < 24,
    ensures
        0 <= q < 24,
        ordered(corners, p) == ordered(ordered(corners, s), q),
{
    assert forall|r: int, i: int| 0 <= r < 24 && 0 <= i < 4 implies #[trigger] CORNER_PERMUTATIONS[r][i]
        < 4 by {
        law_permutation_in_range(r, i);
    }
    assert forall|r: int, i: int, j: int|
        0 <= r < 24 && 0 <= i < j < 4 implies #[trigger] CORNER_PERMUTATIONS[r][i]
        != #[trigger] CORNER_PERMUTATIONS[r][j] by {
        law_permutations_are_orders(r, i, j);
    }
    assert forall|i: int| 0 <= i < 4 implies traced(s, p, i) < 4
        && CORNER_PERMUTATIONS[s][#[trigger] traced(s, p, i) as int]
        == CORNER_PERMUTATIONS[p][i] by {
        assert(CORNER_PERMUTATIONS[p][i] < 4);
        assert(CORNER_PERMUTATIONS[s][0] < 4 && CORNER_PERMUTATIONS[s][1] < 4
            && CORNER_PERMUTATIONS[s][2] < 4 && CORNER_PERMUTATIONS[s][3] < 4);
        assert(CORNER_PERMUTATIONS[s][0] != CORNER_PERMUTATIONS[s][1]);
        assert(CORNER_PERMUTATIONS[s][0] != CORNER_PERMUTATIONS[s][2]);
        assert(CORNER_PERMUTATIONS[s][0] != CORNER_PERMUTATIONS[s][3]);
        assert(CORNER_PERMUTATIONS[s][1] != CORNER_PERMUTATIONS[s][2]);
        assert(CORNER_PERMUTATIONS[s][1] != CORNER_PERMUTATIONS[s][3]);
        assert(CORNER_PERMUTATIONS[s][2] != CORNER_PERMUTATIONS[s][3]);
    }
    assert forall|i: int, j: int| 0 <= i < j < 4 implies #[trigger] traced(s, p, i) != #[trigger] traced(
        s,
        p,
        j,
    ) by {
        assert(CORNER_PERMUTATIONS[p][i] != CORNER_PERMUTATIONS[p][j]);
    }
    law_every_order_is_tried(traced(s, p, 0), traced(s, p, 1), traced(s, p, 2), traced(s, p, 3));
    let q = choose|q: int|
        0 <= q < 24 && #[trigger] CORNER_PERMUTATIONS[q][0] == traced(s, p, 0) && CORNER_PERMUTATIONS[q][1]
            == traced(s, p, 1) && CORNER_PERMUTATIONS[q][2] == traced(s, p, 2) && CORNER_PERMUTATIONS[q][3] == traced(s, p, 3);
    assert(ordered(corners, p) =~= ordered(ordered(corners, s), q));
    q
}

/// The run of one order and one start.
proof fn lemma_run_at(
    search: spec_fn(Seq<[F64; 2]>, int) -> Run,
    corners: Seq<[F64; 2]>,
    p: int,
    start: int,
)
    requires
        0 <= p < 24,
        0 <= start < STARTS,
    ensures
        ({
            let i = p * STARTS + start;
            &&& 0 <= i < 24 * STARTS
            &&& i / STARTS as int == p
            &&& all_runs(search, corners)[i] == search(ordered(corners, p), start)
        }),
{
    let i = p * STARTS + start;
    vstd::arithmetic::div_mod::lemma_fundamental_div_mod_converse(i, STARTS as int, p, start);
}

/// The order in which the corners were clicked is irrelevant, whatever the search
/// does with corners in a given order: the searches succeed for one order of the
/// clicks exactly if they do for any other, and the least cost is the same. Where
/// no other search costs as little, the same one wins, with the same corners in
/// the same order.
pub proof fn law_click_order_is_irrelevant(
    search: spec_fn(Seq<[F64; 2]>, int) -> Run,
    corners: Seq<[F64; 2]>,
    s: int,
)
    requires
        corners.len() == 4,
        0 <= s < 24,
        forall|c: Seq<[F64; 2]>, start: int|
            (#[trigger] search(c, start)) is Some ==> !(search(c, start)->0).1.nan(),
    ensures
        ({
            let a = all_runs(search, corners);
            let b = all_runs(search, ordered(corners, s));
            let (w, v) = (winner(a, a.len()), winner(b, b.len()));
            &&& w is Some <==> v is Some
            &&& w is Some ==> (a[w->0]->0).1.same((b[v->0]->0).1)
            &&& w is Some && (forall|i: int|
                0 <= i < a.len() && (#[trigger] a[i]) is Some && (a[i]->0).1.same((a[w->0]->0).1)
                    ==> i == w->0) ==> a[w->0] == b[v->0] && ordered(corners, w->0 / STARTS as int)
                == ordered(ordered(corners, s), v->0 / STARTS as int)
        }),
{
    let other = ordered(corners, s);
    let a = all_runs(search, corners);
    let b = all_runs(search, other);
    lemma_winner_in_range(a, a.len());
    lemma_winner_in_range(b, b.len());
    assert forall|k: int| 0 <= k < a.len() && a[k] is Some implies !((#[trigger] a[k])->0).1.nan() by {
        assert(a[k] == search(ordered(corners, k / STARTS as int), k % STARTS as int));
    }
    assert forall|k: int| 0 <= k < b.len() && b[k] is Some implies !((#[trigger] b[k])->0).1.nan() by {
        assert(b[k] == search(ordered(other, k / STARTS as int), k % STARTS as int));
    }
    if let Some(w) = winner(a, a.len()) {
        let q = lemma_order_from_order(corners, s, w / STARTS as int);
        lemma_run_at(search, other, q, w % STARTS as int);
        let j = q * STARTS + w % STARTS as int;
        assert(b[j] == a[w]);
        law_winner_costs_least(b, b.len(), j);
    }
    if let Some(v) = winner(b, b.len()) {
        let p = lemma_order_of_order(corners, s, v / STARTS as int);
        lemma_run_at(search, corners, p, v % STARTS as int);
        let i = p * STARTS + v % STARTS as int;
        assert(a[i] == b[v]);
        law_winner_costs_least(a, a.len(), i);
        let w = winner(a, a.len())->0;
        assert((a[i]->0).1.same((a[w]->0).1));
    }
}

} // verus!
