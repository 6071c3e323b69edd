//! From a camera's pixels to the panorama and back: the steps around the
//! trigonometric functions, which are computed elsewhere and handed in.
use crate::calibration::{CameraParams, MatchCalibration};
use crate::double::F64;
use crate::kb4::{growth_at, shown_at, theta_d, theta_d_prime};
use crate::single::F32;
use crate::viewport::HALF;
use crate::world::{CameraId, ViewportPosition};
use vstd::prelude::*;

verus! {

/// How one or more cameras make a panorama.
pub trait Projection: Send + Sync {
    /// The projection's name.
    spec fn label(&self) -> Seq<char>;

    /// How many cameras the projection takes.
    spec fn cameras(&self) -> u8;

    /// A short name for logs.
    fn name(&self) -> (r: &'static str)
        ensures
            r@ == self.label(),
    ;

    /// How many cameras the projection takes.
    fn camera_count(&self) -> (r: u8)
        ensures
            r == self.cameras(),
    ;

    /// The shader that puts the cameras' pictures together; empty where the
    /// renderer brings its own.
    fn wgsl_composite_source(&self) -> (r: &str)
        default_ensures
            r@ == ""@,
    {
        ""
    }
}

/// Two cameras on two planes that meet at an edge.
#[derive(Clone, Copy, Debug)]
pub struct LShapeProjection;

impl Default for LShapeProjection {
    fn default() -> (r: Self)
        ensures
            r == LShapeProjection,
    {
        LShapeProjection
    }
}

impl Projection for LShapeProjection {
    open spec fn label(&self) -> Seq<char> {
        "l-shape-stereo-2camera"@
    }

    open spec fn cameras(&self) -> u8 {
        2
    }

    fn name(&self) -> (r: &'static str) {
        "l-shape-stereo-2camera"
    }

    fn camera_count(&self) -> (r: u8) {
        2
    }
}

/// The bits of pi.
pub const PI: u32 = 0x4049_0FDB;

/// The bits of half of pi.
pub const HALF_PI: u32 = 0x3FC9_0FDB;

/// The bits of one.
pub const UNIT: u32 = 0x3F80_0000;

/// A cylinder on whose inside one video is painted.
#[derive(Clone, Copy, Debug, PartialEq, Eq, Structural)]
pub struct CylindricalProjectionConfig {
    /// The cylinder's radius.
    pub focal_length: F32,
    /// How far around the video reaches, in radians.
    pub angular_sweep_rad: F32,
    /// How far the rig leans sideways, in radians.
    pub screen_rotation_rad: F32,
    /// The painted height, in the same unit as the radius.
    pub video_height: F32,
}

impl Default for CylindricalProjectionConfig {
    fn default() -> (r: Self)
        ensures
            r == (CylindricalProjectionConfig {
                focal_length: F32 { bits: 0x4516_0000 },
                angular_sweep_rad: F32 { bits: PI },
                screen_rotation_rad: F32 { bits: 0 },
                video_height: F32 { bits: UNIT },
            }),
    {
        CylindricalProjectionConfig {
            focal_length: F32::from_bits(0x4516_0000),
            angular_sweep_rad: F32::from_bits(PI),
            screen_rotation_rad: F32::from_bits(0),
            video_height: F32::from_bits(UNIT),
        }
    }
}

impl CylindricalProjectionConfig {
    /// The angle at which the video begins.
    pub open spec fn theta_start(self) -> F32 {
        (F32 { bits: HALF_PI }).minus(self.angular_sweep_rad.times(F32 { bits: HALF }))
    }

    /// Where a point of the frame lies on the cylinder: its angle, and its
    /// height over the middle.
    pub open spec fn painted(self, norm_x: F32, norm_y: F32) -> (F32, F32) {
        let up = (F32 { bits: UNIT }).minus(norm_y);
        (
            self.theta_start().plus(norm_x.times(self.angular_sweep_rad)),
            up.times(self.video_height).minus(self.video_height.times(F32 { bits: HALF })),
        )
    }

    /// The painted height at which the video is neither stretched nor
    /// squeezed.
    pub fn video_height_for_aspect(
        focal_length: F32,
        angular_sweep_rad: F32,
        input_width: u32,
        input_height: u32,
    ) -> (r: F32)
        ensures
            r == focal_length.times(angular_sweep_rad).times(
                F32::of_whole(input_height as nat).over(F32::of_whole(input_width as nat)),
            ),
    {
        let arc_length = focal_length.mul(angular_sweep_rad);
        let ratio = F32::from_whole(input_height as u64).div(F32::from_whole(input_width as u64));
        arc_length.mul(ratio)
    }
}

/// One camera whose video is painted on a cylinder around the virtual camera.
#[derive(Clone, Copy, Debug)]
pub struct CylindricalProjection {
    pub config: CylindricalProjectionConfig,
    /// The shader's text; empty until it is given.
    pub shader: &'static str,
}

impl Default for CylindricalProjection {
    fn default() -> (r: Self)
        ensures
            r.config.focal_length == (F32 { bits: 0x4516_0000 }),
            r.config.angular_sweep_rad == (F32 { bits: PI }),
            r.config.screen_rotation_rad == (F32 { bits: 0 }),
            r.config.video_height == (F32 { bits: UNIT }),
            r.shader@ == ""@,
    {
        CylindricalProjection::new(CylindricalProjectionConfig::default())
    }
}

impl CylindricalProjection {
    /// A projection on the given cylinder.
    pub fn new(config: CylindricalProjectionConfig) -> (r: Self)
        ensures
            r.config == config,
            r.shader@ == ""@,
    {
        CylindricalProjection { config, shader: "" }
    }

    /// The same projection with the text of its shader.
    pub fn with_shader(self, shader: &'static str) -> (r: Self)
        ensures
            r.config == self.config,
            r.shader@ == shader@,
    {
        CylindricalProjection { config: self.config, shader }
    }

    /// The angle at which the video begins, in radians.
    pub fn theta_start_rad(&self) -> (r: F32)
        ensures
            r == self.config.theta_start(),
    {
        let half = self.config.angular_sweep_rad.mul(F32::from_bits(HALF));
        F32::from_bits(HALF_PI).sub(half)
    }
}

impl Projection for CylindricalProjection {
    open spec fn label(&self) -> Seq<char> {
        "cylindrical-mono-1camera"@
    }

    open spec fn cameras(&self) -> u8 {
        1
    }

    fn name(&self) -> (r: &'static str) {
        "cylindrical-mono-1camera"
    }

    fn camera_count(&self) -> (r: u8) {
        1
    }

    fn wgsl_composite_source(&self) -> (r: &str)
        ensures
            r@ == self.shader@,
    {
        self.shader
    }
}

/// Where a point of the frame lies on the cylinder: its angle, and its height
/// over the middle.
pub fn cylinder_point(norm_x: F32, norm_y: F32, config: &CylindricalProjectionConfig) -> (r: (
    F32,
    F32,
))
    ensures
        r == config.painted(norm_x, norm_y),
{
    let start = CylindricalProjection::new(*config).theta_start_rad();
    let up = F32::from_bits(UNIT).sub(norm_y);
    let middle = config.video_height.mul(F32::from_bits(HALF));
    (start.add(norm_x.mul(config.angular_sweep_rad)), up.mul(config.video_height).sub(middle))
}

/// The point of the cylinder at the given height under an angle with the given
/// cosine and sine.
pub fn cylinder_hit(config: &CylindricalProjectionConfig, height: F32, cos: F32, sin: F32) -> (r: (
    F32,
    F32,
    F32,
))
    ensures
        r == (config.focal_length.times(cos), height, config.focal_length.times(sin)),
{
    (config.focal_length.mul(cos), height, config.focal_length.mul(sin))
}

/// Into how many steps each edge of the frame is divided.
pub const BORDER_STEPS: u32 = 64;

/// The `n`-th sample of the frame's border: step by step the upper, lower,
/// left and right edge.
pub open spec fn border_sample(n: int) -> (F32, F32) {
    let t = F32::of_whole((n / 4) as nat).over(F32::of_whole(BORDER_STEPS as nat));
    let zero = F32 { bits: 0 };
    let one = F32 { bits: UNIT };
    if n % 4 == 0 {
        (t, zero)
    } else if n % 4 == 1 {
        (t, one)
    } else if n % 4 == 2 {
        (zero, t)
    } else {
        (one, t)
    }
}

/// The samples of the frame's border.
pub fn border_samples() -> (r: Vec<(F32, F32)>)
    ensures
        r@ == Seq::new(260, |n: int| border_sample(n)),
{
    let zero = F32::from_bits(0);
    let one = F32::from_bits(UNIT);
    let mut samples: Vec<(F32, F32)> = Vec::new();
    let mut i: u32 = 0;
    while i <= BORDER_STEPS
        invariant
            i <= BORDER_STEPS + 1,
            zero == (F32 { bits: 0 }),
            one == (F32 { bits: UNIT }),
            samples@.len() == 4 * i,
            forall|n: int| 0 <= n < samples@.len() ==> #[trigger] samples@[n] == border_sample(n),
        decreases BORDER_STEPS + 1 - i,
    {
        let t = F32::from_whole(i as u64).div(F32::from_whole(BORDER_STEPS as u64));
        proof {
            let n = 4 * i;
            assert(forall|k: int| 0 <= k < 4 ==> #[trigger] ((n + k) % 4) == k && (n + k) / 4 == i);
            assert(border_sample(n + 0) == (t, zero));
            assert(border_sample(n + 1) == (t, one));
            assert(border_sample(n + 2) == (zero, t));
            assert(border_sample(n + 3) == (one, t));
        }
        samples.push((t, zero));
        samples.push((t, one));
        samples.push((zero, t));
        samples.push((one, t));
        i += 1;
    }
    assert(samples@ =~= Seq::new(260, |n: int| border_sample(n)));
    samples
}

/// From the lowest to the highest yaw, then from the lowest to the highest
/// pitch.
pub type Extent = ((F32, F32), (F32, F32));

/// The extent of nothing at all.
pub open spec fn nowhere() -> Extent {
    let most = F32 { bits: 0x7F80_0000 };
    let least = F32 { bits: 0xFF80_0000 };
    ((most, least), (most, least))
}

/// An extent, made to hold one position more.
pub open spec fn widened_by(e: Extent, p: ViewportPosition) -> Extent {
    (
        ((e.0).0.lesser(p.yaw), (e.0).1.greater(p.yaw)),
        ((e.1).0.lesser(p.pitch), (e.1).1.greater(p.pitch)),
    )
}

/// The extent of positions.
pub open spec fn extent_of(positions: Seq<ViewportPosition>) -> Extent
    decreases positions.len(),
{
    if positions.len() == 0 {
        nowhere()
    } else {
        widened_by(extent_of(positions.drop_last()), positions.last())
    }
}

fn widen(e: &mut Extent, p: &ViewportPosition)
    ensures
        *final(e) == widened_by(*old(e), *p),
{
    let yaw = ((e.0).0.min(p.yaw), (e.0).1.max(p.yaw));
    let pitch = ((e.1).0.min(p.pitch), (e.1).1.max(p.pitch));
    *e = (yaw, pitch);
}

fn start_extent() -> (r: Extent)
    ensures
        r == nowhere(),
{
    let most = F32::from_bits(0x7F80_0000);
    let least = F32::from_bits(0xFF80_0000);
    ((most, least), (most, least))
}

/// What part of the panorama the cylinder's video fills; `positions` says
/// where each of `border_samples` lies.
pub fn cylindrical_panorama_bounds(positions: &Vec<ViewportPosition>) -> (r: Extent)
    ensures
        r == extent_of(positions@),
{
    let mut e = start_extent();
    let mut i: usize = 0;
    assert(positions@.take(0) =~= seq![]);
    while i < positions.len()
        invariant
            i <= positions@.len(),
            e == extent_of(positions@.take(i as int)),
        decreases positions@.len() - i,
    {
        assert(positions@.take(i + 1).drop_last() =~= positions@.take(i as int));
        widen(&mut e, &positions[i]);
        i += 1;
    }
    assert(positions@.take(i as int) =~= positions@);
    e
}

/// Every position that is a number lies in the extent.
pub proof fn law_extent_holds_positions(positions: Seq<ViewportPosition>, k: int)
    requires
        0 <= k < positions.len(),
    ensures
        ({
            let e = extent_of(positions);
            let p = positions[k];
            &&& !p.yaw.nan() ==> (e.0).0.at_most(p.yaw) && p.yaw.at_most((e.0).1)
            &&& !p.pitch.nan() ==> (e.1).0.at_most(p.pitch) && p.pitch.at_most((e.1).1)
        }),
    decreases positions.len(),
{
    lemma_extent_numbers(positions.drop_last());
    if k < positions.len() - 1 {
        law_extent_holds_positions(positions.drop_last(), k);
    }
}

proof fn lemma_extent_numbers(positions: Seq<ViewportPosition>)
    ensures
        ({
            let e = extent_of(positions);
            !(e.0).0.nan() && !(e.0).1.nan() && !(e.1).0.nan() && !(e.1).1.nan()
        }),
    decreases positions.len(),
{
    if positions.len() > 0 {
        lemma_extent_numbers(positions.drop_last());
    }
}

/// A camera's lens with its frame shrunk to one by one.
#[derive(Clone, Copy, Debug, PartialEq, Eq, Structural)]
pub struct UnitLens {
    pub fx: F64,
    pub fy: F64,
    pub cx: F64,
    pub cy: F64,
}

/// The bits of a distance below which a point lies on the optical axis.
pub const ON_AXIS: u64 = 0x3D71_9799_812D_EA11;

/// The bits of a slope below which a solution is given up.
pub const FLAT: u64 = 0x3CD2_03AF_9EE7_5616;

/// The bits of a step below which a solution is found.
pub const CONVERGED: u64 = 0x3DDB_7CDF_D9D7_BDBB;

/// How many steps a solution takes at most.
pub const MAX_ITERATIONS: u32 = 20;

/// The bits of two.
pub const TWO: u32 = 0x4000_0000;

/// The bits of zero, as a double.
pub const ZERO_D: u64 = 0;

/// The bits of one half, as a double.
pub const HALF_D: u64 = 0x3FE0_0000_0000_0000;

/// The bits of one, as a double.
pub const ONE_D: u64 = 0x3FF0_0000_0000_0000;

/// The bits of two, as a double.
pub const TWO_D: u64 = 0x4000_0000_0000_0000;

impl UnitLens {
    /// The lens of a camera.
    pub open spec fn of(params: CameraParams) -> UnitLens {
        let w = F64::of_whole(params.width as nat);
        let h = F64::of_whole(params.height as nat);
        UnitLens {
            fx: params.fx.over(w),
            fy: params.fy.over(h),
            cx: params.cx.over(w),
            cy: params.cy.over(h),
        }
    }

    /// A point as seen from the optical axis, in focal lengths.
    pub open spec fn ray(self, x: F64, y: F64) -> (F64, F64) {
        (x.minus(self.cx).over(self.fx), y.minus(self.cy).over(self.fy))
    }

    /// The lens of a camera.
    pub fn new(params: &CameraParams) -> (r: UnitLens)
        ensures
            r == UnitLens::of(*params),
    {
        let w = F64::from_whole(params.width as u64);
        let h = F64::from_whole(params.height as u64);
        UnitLens {
            fx: params.fx.div(w),
            fy: params.fy.div(h),
            cx: params.cx.div(w),
            cy: params.cy.div(h),
        }
    }

    /// A point as seen from the optical axis, in focal lengths.
    pub fn to_ray(&self, x: F64, y: F64) -> (r: (F64, F64))
        ensures
            r == self.ray(x, y),
    {
        (x.sub(self.cx).div(self.fx), y.sub(self.cy).div(self.fy))
    }
}

/// The distance of a point from the origin.
pub open spec fn length(x: F64, y: F64) -> F64 {
    x.times(x).plus(y.times(y)).root()
}

/// The distance of a point from the origin.
pub fn radial_distance(x: F64, y: F64) -> (r: F64)
    ensures
        r == length(x, y),
{
    x.mul(x).add(y.mul(y)).sqrt()
}

/// How far from the optical axis a point of the plane is seen.
pub open spec fn plane_radius(uv_x: F64, uv_y: F64, params: CameraParams) -> F64 {
    let (x, y) = UnitLens::of(params).ray(uv_x, uv_y);
    length(x, y)
}

/// How far from the optical axis a point of the plane is seen: the tangent of
/// the angle that `forward_fisheye` takes.
pub fn forward_radius(uv_x: F64, uv_y: F64, params: &CameraParams) -> (r: F64)
    ensures
        r == plane_radius(uv_x, uv_y, *params),
{
    let (x, y) = UnitLens::new(params).to_ray(uv_x, uv_y);
    radial_distance(x, y)
}

/// Where the lens shows a point of the plane that is seen under the given angle
/// to the optical axis.
pub open spec fn distorted(uv_x: F64, uv_y: F64, params: CameraParams, theta: F64) -> (F64, F64) {
    let lens = UnitLens::of(params);
    let (x, y) = lens.ray(uv_x, uv_y);
    let scale = shown_at(theta, params.d@).over(length(x, y));
    if length(x, y).below(F64 { bits: ON_AXIS }) {
        (lens.cx, lens.cy)
    } else {
        (
            lens.fx.times(x).times(scale).plus(lens.cx),
            lens.fy.times(y).times(scale).plus(lens.cy),
        )
    }
}

/// Where in the frame the lens shows a point of the plane. `theta` is the angle
/// whose tangent is `forward_radius`.
pub fn forward_fisheye(uv_x: F64, uv_y: F64, params: &CameraParams, theta: F64) -> (r: (F64, F64))
    ensures
        r == distorted(uv_x, uv_y, *params, theta),
{
    let lens = UnitLens::new(params);
    let (x, y) = lens.to_ray(uv_x, uv_y);
    let r = radial_distance(x, y);
    if r.lt(F64::from_bits(ON_AXIS)) {
        return (lens.cx, lens.cy);
    }
    let scale = theta_d(theta, &params.d).div(r);
    (lens.fx.mul(x).mul(scale).add(lens.cx), lens.fy.mul(y).mul(scale).add(lens.cy))
}

/// What a lens solution needs next.
#[derive(Clone, Copy, Debug, PartialEq, Eq, Structural)]
pub enum SolveStep {
    /// The point is on the optical axis: there is nothing to solve.
    Center,
    /// The lens polynomial and its slope at the angle in hand are wanted.
    Evaluate,
    /// The last step was short: the angle in hand is the solution.
    Solved,
    /// The polynomial is too flat: there is no solution.
    Degenerate,
    /// All steps were made, and the last was still too long: there is no
    /// solution.
    Unconverged,
}

/// The search for the angle under which a ray meets the lens, by Newton's
/// method.
#[derive(Clone, Copy, Debug, PartialEq, Eq, Structural)]
pub struct LensSolve {
    pub lens: UnitLens,
    /// The point in focal lengths from the optical axis.
    pub dx: F64,
    pub dy: F64,
    /// Its distance from the axis.
    pub theta_d: F64,
    /// The angle in hand.
    pub theta: F64,
    /// How many steps were made.
    pub iterations: u32,
    pub step: SolveStep,
}

impl LensSolve {
    /// Holds of every search.
    pub open spec fn wf(self) -> bool {
        &&& self.iterations <= MAX_ITERATIONS
        &&& self.step == SolveStep::Evaluate ==> self.iterations < MAX_ITERATIONS
        &&& self.step == SolveStep::Center <==> self.theta_d.below(F64 { bits: ON_AXIS })
        &&& self.theta_d == length(self.dx, self.dy)
    }

    /// The search for the ray of a point in the frame.
    pub open spec fn begun(x: F64, y: F64, params: CameraParams) -> LensSolve {
        let lens = UnitLens::of(params);
        let (dx, dy) = lens.ray(x, y);
        let theta_d = length(dx, dy);
        LensSolve {
            lens,
            dx,
            dy,
            theta_d,
            theta: theta_d,
            iterations: 0,
            step: if theta_d.below(F64 { bits: ON_AXIS }) {
                SolveStep::Center
            } else {
                SolveStep::Evaluate
            },
        }
    }

    /// The search after a step, given the polynomial and its slope at the angle
    /// in hand.
    pub open spec fn stepped(self, poly: F64, slope: F64) -> LensSolve {
        if self.step != SolveStep::Evaluate {
            self
        } else if slope.magnitude().below(F64 { bits: FLAT }) {
            LensSolve { step: SolveStep::Degenerate, ..self }
        } else {
            let delta = poly.minus(self.theta_d).over(slope);
            let made = (self.iterations + 1) as u32;
            LensSolve {
                theta: self.theta.minus(delta),
                iterations: made,
                step: if delta.magnitude().below(F64 { bits: CONVERGED }) {
                    SolveStep::Solved
                } else if made == MAX_ITERATIONS {
                    SolveStep::Unconverged
                } else {
                    SolveStep::Evaluate
                },
                ..self
            }
        }
    }

    /// Begins the search for the ray of a point in the frame.
    pub fn start(x: F64, y: F64, params: &CameraParams) -> (r: LensSolve)
        ensures
            r == LensSolve::begun(x, y, *params),
            r.wf(),
    {
        let lens = UnitLens::new(params);
        let (dx, dy) = lens.to_ray(x, y);
        let theta_d = radial_distance(dx, dy);
        let step = if theta_d.lt(F64::from_bits(ON_AXIS)) {
            SolveStep::Center
        } else {
            SolveStep::Evaluate
        };
        LensSolve { lens, dx, dy, theta_d, theta: theta_d, iterations: 0, step }
    }

    /// Makes a step, given the polynomial and its slope at the angle in hand.
    /// A search that wants neither stays as it is.
    pub fn advance(&mut self, poly: F64, slope: F64)
        requires
            old(self).wf(),
        ensures
            *final(self) == old(self).stepped(poly, slope),
            final(self).wf(),
    {
        match self.step {
            SolveStep::Evaluate => {
                if slope.abs().lt(F64::from_bits(FLAT)) {
                    self.step = SolveStep::Degenerate;
                    return;
                }
                let delta = poly.sub(self.theta_d).div(slope);
                self.theta = self.theta.sub(delta);
                self.iterations = self.iterations + 1;
                if delta.abs().lt(F64::from_bits(CONVERGED)) {
                    self.step = SolveStep::Solved;
                } else if self.iterations == MAX_ITERATIONS {
                    self.step = SolveStep::Unconverged;
                }
            },
            _ => {},
        }
    }

    /// What is left of the search: the steps to come, and whether one is wanted.
    pub open spec fn left(self) -> int {
        2 * (MAX_ITERATIONS - self.iterations) + if self.step == SolveStep::Evaluate {
            1int
        } else {
            0
        }
    }

    /// The search once it wants no further evaluation, for a lens with the given
    /// coefficients.
    pub open spec fn finished(self, k: Seq<F64>) -> LensSolve
        decreases self.left(),
    {
        if self.step != SolveStep::Evaluate || self.iterations >= MAX_ITERATIONS {
            self
        } else {
            self.stepped(shown_at(self.theta, k), growth_at(self.theta, k)).finished(k)
        }
    }

    /// Searches for the ray of a point in the frame, to the end.
    pub fn solve(x: F64, y: F64, params: &CameraParams) -> (r: LensSolve)
        ensures
            r == LensSolve::begun(x, y, *params).finished(params.d@),
            r.wf(),
            r.step != SolveStep::Evaluate,
    {
        let mut s = LensSolve::start(x, y, params);
        let ghost begun = s;
        let mut more = s.wants_more();
        while more
            invariant
                s.wf(),
                more == (s.step == SolveStep::Evaluate),
                begun.finished(params.d@) == s.finished(params.d@),
            decreases s.left(),
        {
            s.advance(theta_d(s.theta, &params.d), theta_d_prime(s.theta, &params.d));
            more = s.wants_more();
        }
        s
    }

    fn wants_more(&self) -> (r: bool)
        ensures
            r == (self.step == SolveStep::Evaluate),
    {
        match self.step {
            SolveStep::Evaluate => true,
            _ => false,
        }
    }

    /// The point of the plane that the solved angle leads to, given the angle's
    /// tangent.
    pub open spec fn plane_point(self, tangent: F64) -> Option<(F64, F64)> {
        let scale = if self.theta.magnitude().below(F64 { bits: ON_AXIS }) {
            F64 { bits: ONE_D }
        } else {
            self.theta_d.over(tangent)
        };
        match self.step {
            SolveStep::Center => Some((self.lens.cx, self.lens.cy)),
            SolveStep::Solved => if scale.finite() {
                Some(
                    (
                        self.lens.fx.times(self.dx.over(scale)).plus(self.lens.cx),
                        self.lens.fy.times(self.dy.over(scale)).plus(self.lens.cy),
                    ),
                )
            } else {
                None
            },
            _ => None,
        }
    }
}

/// The point of the plane whose picture the search began at. `tangent` is the
/// tangent of the angle in hand. There is none where the search found no
/// solution or the tangent leaves no finite scale.
pub fn inverse_fisheye(solve: &LensSolve, tangent: F64) -> (r: Option<(F64, F64)>)
    requires
        solve.wf(),
        solve.step != SolveStep::Evaluate,
    ensures
        r == solve.plane_point(tangent),
{
    match solve.step {
        SolveStep::Center => Some((solve.lens.cx, solve.lens.cy)),
        SolveStep::Solved => {
            let scale = if solve.theta.abs().lt(F64::from_bits(ON_AXIS)) {
                F64::from_bits(ONE_D)
            } else {
                solve.theta_d.div(tangent)
            };
            if !scale.is_finite() {
                return None;
            }
            let x = solve.dx.div(scale);
            let y = solve.dy.div(scale);
            Some((solve.lens.fx.mul(x).add(solve.lens.cx), solve.lens.fy.mul(y).add(solve.lens.cy)))
        },
        _ => None,
    }
}

/// A search ends: after `n` steps either it wants no further evaluation or it
/// has made exactly `n` of at most twenty.
pub proof fn law_search_ends(begun: LensSolve, replies: Seq<(F64, F64)>)
    requires
        begun.wf(),
        begun.iterations == 0,
    ensures
        ({
            let s = after_replies(begun, replies);
            &&& s.wf()
            &&& s.step == SolveStep::Evaluate ==> s.iterations == replies.len()
            &&& replies.len() >= MAX_ITERATIONS ==> s.step != SolveStep::Evaluate
        }),
    decreases replies.len(),
{
    if replies.len() > 0 {
        law_search_ends(begun, replies.drop_last());
    }
}

/// A search after replies were given one after the other.
pub open spec fn after_replies(begun: LensSolve, replies: Seq<(F64, F64)>) -> LensSolve
    decreases replies.len(),
{
    if replies.len() == 0 {
        begun
    } else {
        after_replies(begun, replies.drop_last()).stepped(replies.last().0, replies.last().1)
    }
}

/// Where a mono camera's ray points, in the camera's own axes.
#[derive(Clone, Copy, Debug, PartialEq, Eq, Structural)]
pub enum MonoRay {
    /// Straight ahead.
    Ahead,
    /// Under an angle to the axis, towards the azimuth of a point.
    Tilted { theta: F64, dx: F64, dy: F64 },
}

/// The ray of a solved search; none where the search failed or its angle is
/// not finite.
pub open spec fn mono_ray_of(solve: LensSolve) -> Option<MonoRay> {
    match solve.step {
        SolveStep::Center => Some(MonoRay::Ahead),
        SolveStep::Solved => if solve.theta.finite() {
            Some(MonoRay::Tilted { theta: solve.theta, dx: solve.dx, dy: solve.dy })
        } else {
            None
        },
        _ => None,
    }
}

/// The ray of a point in a mono camera's frame, from the search for it.
pub fn mono_ray(solve: &LensSolve) -> (r: Option<MonoRay>)
    requires
        solve.wf(),
        solve.step != SolveStep::Evaluate,
    ensures
        r == mono_ray_of(*solve),
{
    match solve.step {
        SolveStep::Center => Some(MonoRay::Ahead),
        SolveStep::Solved => if solve.theta.is_finite() {
            Some(MonoRay::Tilted { theta: solve.theta, dx: solve.dx, dy: solve.dy })
        } else {
            None
        },
        _ => None,
    }
}

/// Turns a direction from the camera's axes, with y down, into those of the
/// panorama, with y up. The direction of a tilted ray is made of the sine and
/// cosine of its angle and of its azimuth.
pub open spec fn upright(sin: F64, cos: F64, azimuth_cos: F64, azimuth_sin: F64) -> (
    F32,
    F32,
    F32,
) {
    (
        sin.times(azimuth_cos).narrow(),
        sin.times(azimuth_sin).negated().narrow(),
        cos.narrow(),
    )
}

/// The direction of a tilted ray in the axes of the panorama.
pub fn mono_direction(sin: F64, cos: F64, azimuth_cos: F64, azimuth_sin: F64) -> (r: (
    F32,
    F32,
    F32,
))
    ensures
        r == upright(sin, cos, azimuth_cos, azimuth_sin),
{
    (sin.mul(azimuth_cos).to_single(), sin.mul(azimuth_sin).neg().to_single(), cos.to_single())
}

/// A point of the frame lies no farther from the axis than the lens reaches.
pub open spec fn reached(norm_x: F32, norm_y: F32, camera: CameraParams, max_r_d: F64) -> bool {
    let (dx, dy) = UnitLens::of(camera).ray(norm_x.wide(), norm_y.wide());
    !max_r_d.below(length(dx, dy))
}

/// Whether a point of the frame lies no farther from the axis than the lens
/// reaches.
pub fn within_reach(norm_x: F32, norm_y: F32, camera: &CameraParams, max_r_d: F64) -> (r: bool)
    ensures
        r == reached(norm_x, norm_y, *camera, max_r_d),
{
    let (dx, dy) = UnitLens::new(camera).to_ray(norm_x.to_double(), norm_y.to_double());
    !max_r_d.lt(radial_distance(dx, dy))
}

/// Where the first `n` border samples lie, as far as the lens reaches them and
/// they lie anywhere.
pub open spec fn reached_positions(
    camera: CameraParams,
    max_r_d: F64,
    positions: Seq<Option<ViewportPosition>>,
    n: nat,
) -> Seq<ViewportPosition>
    decreases n,
{
    if n == 0 {
        seq![]
    } else {
        let before = reached_positions(camera, max_r_d, positions, (n - 1) as nat);
        let (x, y) = border_sample(n - 1);
        match positions[n - 1] {
            Some(p) => if reached(x, y, camera, max_r_d) {
                before.push(p)
            } else {
                before
            },
            None => before,
        }
    }
}

/// An extent, or the single point ahead where the extent is not finite.
pub open spec fn or_ahead(e: Extent) -> Extent {
    if (e.0).0.finite() && (e.0).1.finite() && (e.1).0.finite() && (e.1).1.finite() {
        e
    } else {
        let zero = F32 { bits: 0 };
        ((zero, zero), (zero, zero))
    }
}

/// How far from the axis a lens shows rays up to the given angle.
pub open spec fn lens_reach(camera: CameraParams, max_theta_rad: F32) -> F64 {
    shown_at(max_theta_rad.wide(), camera.d@)
}

/// What part of the panorama a mono camera shows, as far as rays up to the given
/// angle to its axis are trusted. `positions` says where each of
/// `border_samples` lies.
pub fn kb4_mono_panorama_bounds(
    camera: &CameraParams,
    max_theta_rad: F32,
    positions: &Vec<Option<ViewportPosition>>,
) -> (r: Extent)
    requires
        positions@.len() == 260,
    ensures
        r == or_ahead(
            extent_of(
                reached_positions(*camera, lens_reach(*camera, max_theta_rad), positions@, 260),
            ),
        ),
{
    let max_r_d = theta_d(max_theta_rad.to_double(), &camera.d);
    let samples = border_samples();
    let mut e = start_extent();
    let mut i: usize = 0;
    while i < samples.len()
        invariant
            i <= samples@.len() == 260,
            positions@.len() == 260,
            samples@ == Seq::new(260, |n: int| border_sample(n)),
            e == extent_of(reached_positions(*camera, max_r_d, positions@, i as nat)),
        decreases 260 - i,
    {
        let (x, y) = samples[i];
        let ghost before = reached_positions(*camera, max_r_d, positions@, i as nat);
        if within_reach(x, y, camera, max_r_d) {
            if let Some(p) = positions[i] {
                assert(before.push(p).drop_last() =~= before);
                widen(&mut e, &p);
            }
        }
        i += 1;
    }
    if (e.0).0.is_finite() && (e.0).1.is_finite() && (e.1).0.is_finite() && (e.1).1.is_finite() {
        e
    } else {
        let zero = F32::from_bits(0);
        ((zero, zero), (zero, zero))
    }
}

/// The bounds of a mono camera are finite, whatever the calibration.
pub proof fn law_mono_bounds_finite(e: Extent)
    ensures
        ({
            let b = or_ahead(e);
            (b.0).0.finite() && (b.0).1.finite() && (b.1).0.finite() && (b.1).1.finite()
        }),
{
}

/// Where a point in the camera's own axes, away from the camera, is shown in the
/// frame.
pub open spec fn pictured(
    x: F64,
    y: F64,
    theta: F64,
    params: CameraParams,
    max_theta_rad: F64,
) -> Option<(F64, F64)> {
    let zero = F64 { bits: ZERO_D };
    let r = length(x, y);
    let far = shown_at(theta, params.d@);
    let (sx, sy) = if r.below(F64 { bits: ON_AXIS }) {
        (zero, zero)
    } else {
        (far.times(x).over(r), far.times(y).over(r))
    };
    if zero.at_most(theta) && theta.at_most(max_theta_rad) {
        Some(
            (
                params.fx.times(sx).plus(params.cx).over(F64::of_whole(params.width as nat)),
                params.fy.times(sy).plus(params.cy).over(F64::of_whole(params.height as nat)),
            ),
        )
    } else {
        None
    }
}

/// A point in the camera's own axes is where the camera is, so that it lies in no
/// direction.
pub open spec fn at_camera(x: F64, y: F64, z: F64) -> bool {
    length(x, y).below(F64 { bits: ON_AXIS }) && z.magnitude().below(F64 { bits: ON_AXIS })
}

/// Where a point is shown in the frame, in coordinates from zero to one. `x`, `y`
/// and `z` are its coordinates in the camera's own axes, with z ahead, and
/// `theta` is its angle to the optical axis. None where the point is at the
/// camera or the angle is not from zero to `max_theta_rad`.
pub fn project_world_point(
    x: F64,
    y: F64,
    z: F64,
    theta: F64,
    params: &CameraParams,
    max_theta_rad: F64,
) -> (r: Option<(F64, F64)>)
    ensures
        r == if at_camera(x, y, z) {
            None
        } else {
            pictured(x, y, theta, *params, max_theta_rad)
        },
{
    let zero = F64::from_bits(ZERO_D);
    if !(zero.le(theta) && theta.le(max_theta_rad)) {
        return None;
    }
    let r = radial_distance(x, y);
    if r.lt(F64::from_bits(ON_AXIS)) && z.abs().lt(F64::from_bits(ON_AXIS)) {
        return None;
    }
    let far = theta_d(theta, &params.d);
    let (sx, sy) = if r.lt(F64::from_bits(ON_AXIS)) {
        (zero, zero)
    } else {
        (far.mul(x).div(r), far.mul(y).div(r))
    };
    let px = params.fx.mul(sx).add(params.cx);
    let py = params.fy.mul(sy).add(params.cy);
    Some(
        (
            px.div(F64::from_whole(params.width as u64)),
            py.div(F64::from_whole(params.height as u64)),
        ),
    )
}

/// The bits of a slant below which a ray runs along a plane.
pub const PARALLEL: u32 = 0x3586_37BD;

/// How far along a ray a plane is met.
pub open spec fn met(reach: F32, slant: F32) -> Option<F32> {
    let t = reach.over(slant);
    if slant.magnitude().below(F32 { bits: PARALLEL }) || t.at_most(F32 { bits: 0 }) {
        None
    } else {
        Some(t)
    }
}

/// How far along a ray a plane is met; none where the ray runs along the plane
/// or away from it. `reach` is the way to the plane along its normal, `slant`
/// the ray's part in the normal's direction.
pub fn ray_meets_plane(reach: F32, slant: F32) -> (r: Option<F32>)
    ensures
        r == met(reach, slant),
{
    if slant.abs().lt(F32::from_bits(PARALLEL)) {
        return None;
    }
    let t = reach.div(slant);
    if t.le(F32::from_bits(0)) {
        None
    } else {
        Some(t)
    }
}

/// From zero to one.
pub open spec fn fraction(x: F64) -> bool {
    (F64 { bits: ZERO_D }).at_most(x) && x.at_most(F64 { bits: ONE_D })
}

fn is_fraction(x: F64) -> (r: bool)
    ensures
        r == fraction(x),
{
    F64::from_bits(ZERO_D).le(x) && x.le(F64::from_bits(ONE_D))
}

/// A coordinate of the lens's plane as one of the texture on it.
pub open spec fn texture(uv: F64) -> F64 {
    uv.plus(F64 { bits: HALF_D }).times(F64 { bits: HALF_D })
}

/// Where in the frame a point of the plane is shown, if it lies on the texture
/// and in the frame.
pub open spec fn in_camera(uv_x: F64, uv_y: F64, params: CameraParams, theta: F64) -> Option<
    (F32, F32),
> {
    let (x, y) = distorted(uv_x, uv_y, params, theta);
    if fraction(texture(uv_x)) && fraction(texture(uv_y)) && fraction(x) && fraction(y) {
        Some((x.narrow(), y.narrow()))
    } else {
        None
    }
}

/// Where in the frame the point is shown at which a ray of the panorama meets
/// the camera's plane. None where the point is not on the texture or not in the
/// frame. `theta` is the angle whose tangent is `forward_radius`.
pub fn panorama_to_camera(uv_x: F64, uv_y: F64, params: &CameraParams, theta: F64) -> (r: Option<
    (F32, F32),
>)
    ensures
        r == in_camera(uv_x, uv_y, *params, theta),
{
    let half = F64::from_bits(HALF_D);
    let tex_u = uv_x.add(half).mul(half);
    let tex_v = uv_y.add(half).mul(half);
    if !is_fraction(tex_u) || !is_fraction(tex_v) {
        return None;
    }
    let (x, y) = forward_fisheye(uv_x, uv_y, params, theta);
    if is_fraction(x) && is_fraction(y) {
        Some((x.to_single(), y.to_single()))
    } else {
        None
    }
}

/// The plane's coordinates of a point of the camera's quad.
pub open spec fn on_plane(local: (F32, F32), plane_width: F32, plane_aspect: F32) -> (F64, F64) {
    let half = F32 { bits: HALF };
    let two = F32 { bits: TWO };
    let u = local.0.over(plane_width).plus(half);
    let v = half.minus(local.1.times(plane_aspect).over(plane_width));
    (u.times(two).minus(half).wide(), v.times(two).minus(half).wide())
}

/// The plane's coordinates of a point given in the axes of the camera's quad.
pub fn world_to_plane_uv(local_x: F32, local_y: F32, plane_width: F32, plane_aspect: F32) -> (r: (
    F64,
    F64,
))
    ensures
        r == on_plane((local_x, local_y), plane_width, plane_aspect),
{
    let half = F32::from_bits(HALF);
    let two = F32::from_bits(TWO);
    let u = local_x.div(plane_width).add(half);
    let v = half.sub(local_y.mul(plane_aspect).div(plane_width));
    (u.mul(two).sub(half).to_double(), v.mul(two).sub(half).to_double())
}

/// The point of the camera's quad, which is one wide, at the plane's coordinates.
pub open spec fn on_quad(uv: (F64, F64), plane_aspect: F32) -> (F32, F32) {
    let half = F32 { bits: HALF };
    let half_d = F64 { bits: HALF_D };
    let two_d = F64 { bits: TWO_D };
    let u = uv.0.plus(half_d).over(two_d).narrow();
    let v = uv.1.plus(half_d).over(two_d).narrow();
    (u.minus(half), half.minus(v).over(plane_aspect))
}

/// Where on the camera's quad a point of the plane lies.
pub fn plane_uv_to_world(uv: (F64, F64), plane_aspect: F32) -> (r: (F32, F32))
    ensures
        r == on_quad(uv, plane_aspect),
{
    let half = F32::from_bits(HALF);
    let half_d = F64::from_bits(HALF_D);
    let two_d = F64::from_bits(TWO_D);
    let u = uv.0.add(half_d).div(two_d).to_single();
    let v = uv.1.add(half_d).div(two_d).to_single();
    (u.sub(half), half.sub(v).div(plane_aspect))
}

/// One of the two cameras of a calibration.
pub open spec fn side_of(calibration: MatchCalibration, camera: CameraId) -> CameraParams {
    match camera {
        CameraId::Left => calibration.left,
        CameraId::Right => calibration.right,
    }
}

/// Searches for the ray of a point in the frame of one of two cameras.
pub fn search_ray(
    camera: CameraId,
    norm_x: F32,
    norm_y: F32,
    calibration: &MatchCalibration,
) -> (r: LensSolve)
    ensures
        r == LensSolve::begun(
            norm_x.wide(),
            norm_y.wide(),
            side_of(*calibration, camera),
        ).finished(side_of(*calibration, camera).d@),
        r.wf(),
        r.step != SolveStep::Evaluate,
{
    let params = match camera {
        CameraId::Left => &calibration.left,
        CameraId::Right => &calibration.right,
    };
    LensSolve::solve(norm_x.to_double(), norm_y.to_double(), params)
}

/// Where on the camera's quad the point lies whose picture the search began at;
/// the direction to it from the virtual camera is its place in the panorama.
/// `tangent` is the tangent of the angle in hand. There is none where the search
/// found no solution.
pub fn camera_to_panorama(solve: &LensSolve, tangent: F64, plane_aspect: F32) -> (r: Option<
    (F32, F32),
>)
    requires
        solve.wf(),
        solve.step != SolveStep::Evaluate,
    ensures
        r == match solve.plane_point(tangent) {
            Some(uv) => Some(on_quad(uv, plane_aspect)),
            None => None,
        },
{
    match inverse_fisheye(solve, tangent) {
        Some(uv) => Some(plane_uv_to_world(uv, plane_aspect)),
        None => None,
    }
}

} // verus!
