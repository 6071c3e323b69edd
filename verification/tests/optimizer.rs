use argmin::solver::neldermead::NelderMead;
use nalgebra::{Point3, UnitQuaternion, Vector3};
use rayon::iter::{IntoParallelIterator, ParallelIterator};
use reco::calibration::CameraParams;
use reco::court_points::default_points;
use reco::double::F64;
use reco::mono_optimizer::{
    best_run, bounds_for, bounds_penalty, build_simplex, circle_angles, circle_mark,
    corners_circle_cost, corners_circle_error, correspondence_cost, curve_of,
    f_seed_for_diagonal_fov_deg, frame_diagonal, mean_pixel_error, optimize,
    optimize_corners_and_circle, reorder, rotation_seeds, start_grid, unpack, PointCorrespondence,
    Run, Seen, CORNERS_WORLD_M, CORNER_PERMUTATIONS, PENALTY_SCALE, SOLVE_MAX_THETA_RAD, STARTS,
};
use reco::projection::project_world_point;
use reco::stereo::CalibrateError;
use std::f64::consts::PI;

const WIDTH: u32 = 3840;
const HEIGHT: u32 = 2160;

fn d(x: f64) -> F64 {
    F64::from_bits(x.to_bits())
}

fn g(x: F64) -> f64 {
    f64::from_bits(x.to_bits())
}

/// A pose as a matrix by rows and an offset.
struct Pose {
    rows: [[f64; 3]; 3],
    offset: [f64; 3],
}

impl Pose {
    fn new(axis: Vector3<f64>, at: Point3<f64>) -> Pose {
        let r = UnitQuaternion::from_scaled_axis(axis);
        let m = r.to_rotation_matrix();
        let t = -(r * at.coords);
        let mut rows = [[0.0; 3]; 3];
        for (i, row) in rows.iter_mut().enumerate() {
            for (j, cell) in row.iter_mut().enumerate() {
                *cell = m[(i, j)];
            }
        }
        Pose { rows, offset: [t.x, t.y, t.z] }
    }

    fn of(p: &[f64]) -> Pose {
        Pose::new(Vector3::new(p[3], p[4], p[5]), Point3::new(p[6], p[7], p[8]))
    }

    /// Where a point of the floor appears.
    fn show(&self, x: f64, y: f64, camera: &CameraParams) -> Seen {
        let at = |i: usize| self.rows[i][0] * x + self.rows[i][1] * y + self.offset[i];
        let (px, py, pz) = (at(0), at(1), at(2));
        let theta = (px * px + py * py).sqrt().atan2(pz);
        let widest = F64::from_bits(SOLVE_MAX_THETA_RAD);
        project_world_point(d(px), d(py), d(pz), d(theta), camera, widest)
    }
}

fn true_camera() -> CameraParams {
    CameraParams {
        width: WIDTH,
        height: HEIGHT,
        fx: d(1400.0),
        fy: d(1400.0),
        cx: d(WIDTH as f64 * 0.5),
        cy: d(HEIGHT as f64 * 0.5),
        d: [d(0.02), d(-0.01), d(0.0), d(0.0)],
    }
}

fn true_pose() -> Pose {
    Pose::new(Vector3::new(PI - 0.2, 0.0, 0.0), Point3::new(0.0, 0.0, 9.0))
}

fn doubles(v: &[f64]) -> Vec<F64> {
    v.iter().map(|x| d(*x)).collect()
}

fn seen_marks(p: &[f64], points: &[PointCorrespondence]) -> Vec<Seen> {
    let (pose, camera) = (Pose::of(p), unpack(&doubles(p), WIDTH, HEIGHT));
    points.iter().map(|c| pose.show(g(c.court_point.x_m), g(c.court_point.y_m), &camera)).collect()
}

#[derive(Clone)]
struct MarksCost {
    points: Vec<PointCorrespondence>,
    bounds: Vec<(F64, F64)>,
}

impl argmin::core::CostFunction for MarksCost {
    type Param = Vec<f64>;
    type Output = f64;

    fn cost(&self, p: &Vec<f64>) -> Result<f64, argmin::core::Error> {
        let seen = seen_marks(p, &self.points);
        Ok(g(correspondence_cost(&seen, &self.points, &doubles(p), &self.bounds)))
    }
}

fn search<C>(cost: C, start: &Vec<F64>, bounds: &Vec<(F64, F64)>, max_iters: u64) -> Run
where
    C: argmin::core::CostFunction<Param = Vec<f64>, Output = f64>,
{
    let simplex: Vec<Vec<f64>> =
        build_simplex(start, bounds).iter().map(|v| v.iter().map(|x| g(*x)).collect()).collect();
    let solver: NelderMead<Vec<f64>, f64> = NelderMead::new(simplex).with_sd_tolerance(1e-12).ok()?;
    let found = argmin::core::Executor::new(cost, solver).configure(|s| s.max_iters(max_iters)).run().ok()?;
    let state = found.state();
    let best: &Vec<f64> = argmin::core::State::get_best_param(state)?;
    Some((doubles(best), d(argmin::core::State::get_best_cost(state))))
}

#[test]
fn optimize_recovers_known_camera_from_synthetic_points() {
    let (pose, camera) = (true_pose(), true_camera());
    let points: Vec<PointCorrespondence> = default_points()
        .into_iter()
        .filter_map(|court_point| {
            let seen = pose.show(g(court_point.x_m), g(court_point.y_m), &camera);
            seen.map(|(x, y)| PointCorrespondence { court_point, pixel: [x, y] })
        })
        .collect();
    assert!(points.len() >= 15, "expected most court points visible, got {}", points.len());

    let diagonal = frame_diagonal(WIDTH, HEIGHT);
    let bounds = bounds_for(diagonal);
    let runs: Vec<Run> = start_grid(diagonal)
        .iter()
        .map(|start| {
            let cost = MarksCost { points: points.clone(), bounds: bounds.clone() };
            search(cost, start, &bounds, 800)
        })
        .collect();
    assert_eq!(runs.len(), STARTS);

    let result = optimize(&runs, WIDTH, HEIGHT, 800).expect("optimization should succeed");
    let p: Vec<f64> = result.params.iter().map(|x| g(*x)).collect();
    let error = g(mean_pixel_error(&seen_marks(&p, &points), &points, WIDTH, HEIGHT));
    assert!(error < 5.0, "reprojection error too high: {error} px");
    let fx = g(result.camera.fx);
    assert!((fx - 1400.0).abs() < 1400.0 * 0.1, "fx off: got {fx}, want 1400");
    assert!((p[8] - 9.0).abs() < 2.0, "recovered height implausible: {}", p[8]);
}

#[test]
fn bounds_penalty_zero_inside() {
    let bounds = bounds_for(d(5000.0));
    let mut inside = doubles(&[0.0, 0.0, 0.0, 0.0, 0.0, 0.0, 0.0, 0.0, 10.0]);
    inside[0] = d(g(bounds[0].0) + 1.0);
    assert_eq!(bounds_penalty(&inside, &bounds), d(0.0));
}

#[test]
fn bounds_penalty_nonzero_outside() {
    let bounds = bounds_for(d(5000.0));
    let mut outside = doubles(&[0.0, 0.0, 0.0, 0.0, 0.0, 0.0, 0.0, 0.0, 10.0]);
    outside[0] = d(g(bounds[0].0) - 100.0);
    assert!(g(bounds_penalty(&outside, &bounds)) > 0.0);
}

#[derive(Clone)]
struct CornersCost {
    corners: Vec<[F64; 2]>,
    circle: Vec<[F64; 2]>,
    marks: Vec<(F64, F64)>,
    bounds: Vec<(F64, F64)>,
}

impl CornersCost {
    fn seen(&self, p: &[f64]) -> (Vec<Seen>, Vec<(F64, F64)>) {
        let (pose, camera) = (Pose::of(p), unpack(&doubles(p), WIDTH, HEIGHT));
        let corners = CORNERS_WORLD_M
            .iter()
            .map(|[x, y]| pose.show(f64::from_bits(*x), f64::from_bits(*y), &camera))
            .collect();
        let circle = self.marks.iter().map(|(x, y)| pose.show(g(*x), g(*y), &camera)).collect();
        (corners, curve_of(&circle))
    }
}

impl argmin::core::CostFunction for CornersCost {
    type Param = Vec<f64>;
    type Output = f64;

    fn cost(&self, p: &Vec<f64>) -> Result<f64, argmin::core::Error> {
        let (seen, curve) = self.seen(p);
        let p = doubles(p);
        Ok(g(corners_circle_cost(&seen, &self.corners, &curve, &self.circle, &p, &self.bounds)))
    }
}

fn circle_marks() -> Vec<(F64, F64)> {
    circle_angles().iter().map(|a| circle_mark(d(g(*a).cos()), d(g(*a).sin()))).collect()
}

/// What `CornersCost` comes to, in the machine's own numbers.
struct MachineCost {
    corners: [[f64; 2]; 4],
    circle: Vec<[f64; 2]>,
    marks: Vec<(f64, f64)>,
    bounds: Vec<(f64, f64)>,
}

impl MachineCost {
    fn of(cost: &CornersCost) -> MachineCost {
        let pixels = |v: &[[F64; 2]]| v.iter().map(|p| p.map(g)).collect::<Vec<[f64; 2]>>();
        let pairs = |v: &[(F64, F64)]| v.iter().map(|p| (g(p.0), g(p.1))).collect();
        MachineCost {
            corners: pixels(&cost.corners).try_into().expect("four corners"),
            circle: pixels(&cost.circle),
            marks: pairs(&cost.marks),
            bounds: pairs(&cost.bounds),
        }
    }

    fn show(pose: &Pose, x: f64, y: f64, p: &[f64]) -> Option<(f64, f64)> {
        let at = |i: usize| pose.rows[i][0] * x + pose.rows[i][1] * y + pose.offset[i];
        let (px, py, pz) = (at(0), at(1), at(2));
        let r = (px * px + py * py).sqrt();
        let theta = r.atan2(pz);
        if !(0.0..=f64::from_bits(SOLVE_MAX_THETA_RAD)).contains(&theta) {
            return None;
        }
        let t2 = theta * theta;
        let far = theta * (1.0 + p[1] * t2 + p[2] * (t2 * t2));
        let (sx, sy) = if r < 1e-12 { (0.0, 0.0) } else { (far * px / r, far * py / r) };
        let (width, height) = (WIDTH as f64, HEIGHT as f64);
        Some(((p[0] * sx + width * 0.5) / width, (p[0] * sy + height * 0.5) / height))
    }
}

fn square_miss(a: (f64, f64), b: [f64; 2]) -> f64 {
    (a.0 - b[0]) * (a.0 - b[0]) + (a.1 - b[1]) * (a.1 - b[1])
}

impl argmin::core::CostFunction for MachineCost {
    type Param = Vec<f64>;
    type Output = f64;

    fn cost(&self, p: &Vec<f64>) -> Result<f64, argmin::core::Error> {
        let pose = Pose::of(p);
        let mut total = 0.0;
        for (corner, [x, y]) in self.corners.iter().zip(CORNERS_WORLD_M) {
            let seen = MachineCost::show(&pose, f64::from_bits(x), f64::from_bits(y), p);
            total += seen.map_or(10.0, |s| square_miss(s, *corner));
        }
        let curve: Vec<(f64, f64)> =
            self.marks.iter().filter_map(|(x, y)| MachineCost::show(&pose, *x, *y, p)).collect();
        for click in &self.circle {
            total += if curve.is_empty() {
                10.0
            } else {
                curve.iter().fold(f64::INFINITY, |best, s| best.min(square_miss(*s, *click)))
            };
        }
        let mut penalty = 0.0;
        for (x, (lo, hi)) in p.iter().zip(&self.bounds) {
            let off = if x < lo { lo - x } else if x > hi { x - hi } else { 0.0 };
            penalty += f64::from_bits(PENALTY_SCALE) * off * off;
        }
        Ok(total / (4 + self.circle.len()) as f64 + penalty)
    }
}

/// The corners are clicked in another order than the court's own. Every order is
/// searched from every start, with costs in the machine's own numbers, which are
/// the library's.
#[test]
fn optimize_corners_and_circle_recovers_known_camera_regardless_of_click_order() {
    let (pose, camera) = (true_pose(), true_camera());
    let clicked = [2, 0, 3, 1].map(|i: usize| {
        let [x, y] = CORNERS_WORLD_M[i];
        let seen = pose.show(f64::from_bits(x), f64::from_bits(y), &camera);
        let (px, py) = seen.expect("corner should be visible");
        [px, py]
    });
    let circle: Vec<[F64; 2]> = [10.0_f64, 95.0, 160.0, 210.0, 275.0, 340.0]
        .iter()
        .filter_map(|deg| {
            let a = deg.to_radians();
            pose.show(1.8 * a.cos(), 1.8 * a.sin(), &camera).map(|(x, y)| [x, y])
        })
        .collect();
    assert!(circle.len() >= 5, "expected most circle samples visible");

    let diagonal = frame_diagonal(WIDTH, HEIGHT);
    let bounds = bounds_for(diagonal);
    let starts = start_grid(diagonal);
    let cost_for = |corners: &[[F64; 2]; 4]| CornersCost {
        corners: corners.to_vec(),
        circle: circle.clone(),
        marks: circle_marks(),
        bounds: bounds.clone(),
    };
    let costs: Vec<CornersCost> =
        (0..CORNER_PERMUTATIONS.len()).map(|order| cost_for(&reorder(&clicked, order))).collect();
    for (i, start) in starts.iter().enumerate().step_by(17) {
        let mut p: Vec<f64> = start.iter().map(|x| g(*x)).collect();
        p[1] = 0.03;
        p[4] += 0.01 * i as f64;
        let cost = &costs[i % costs.len()];
        let ours = argmin::core::CostFunction::cost(cost, &p).unwrap();
        let machine = argmin::core::CostFunction::cost(&MachineCost::of(cost), &p).unwrap();
        assert_eq!(ours, machine, "start {i}");
    }
    let runs: Vec<Run> = (0..costs.len() * STARTS)
        .into_par_iter()
        .map(|n| search(MachineCost::of(&costs[n / STARTS]), &starts[n % STARTS], &bounds, 300))
        .collect();

    let (result, corners) = optimize_corners_and_circle(&runs, &clicked, WIDTH, HEIGHT, 300)
        .expect("optimization should succeed");
    let p: Vec<f64> = result.params.iter().map(|x| g(*x)).collect();
    let (seen, curve) = cost_for(&corners).seen(&p);
    let error = g(corners_circle_error(&seen, &corners.to_vec(), &curve, &circle, WIDTH, HEIGHT));
    assert!(error < 5.0, "reprojection error too high: {error} px");
    let fx = g(result.camera.fx);
    assert!((fx - 1400.0).abs() < 1400.0 * 0.1, "fx off: got {fx}, want 1400");
    assert!((p[8] - 9.0).abs() < 2.0, "recovered height implausible: {}", p[8]);
}

#[test]
fn the_search_starts_from_plausible_cameras() {
    let diagonal = frame_diagonal(3, 4);
    assert_eq!(diagonal, d(5.0));
    let seed = g(f_seed_for_diagonal_fov_deg(d(4000.0), d(120.0)));
    assert_eq!(seed, 4000.0 * 0.5 / (120.0_f64.to_radians() * 0.5));
    let turns: Vec<f64> = rotation_seeds().iter().map(|x| g(*x)).collect();
    let (a, b) = (15.0_f64.to_radians(), 30.0_f64.to_radians());
    assert_eq!(turns, vec![PI, PI - a, PI + a, PI - b, PI + b]);
    let starts = start_grid(d(4000.0));
    assert_eq!(starts.len(), 180);
    let first: Vec<f64> = starts[0].iter().map(|x| g(*x)).collect();
    let f = 4000.0 * 0.5 / (90.0_f64.to_radians() * 0.5);
    assert_eq!(first, vec![f, 0.0, 0.0, PI, 0.0, 0.0, 0.0, 0.0, 6.0]);
    let last: Vec<f64> = starts[179].iter().map(|x| g(*x)).collect();
    let f = 4000.0 * 0.5 / (220.0_f64.to_radians() * 0.5);
    assert_eq!(last, vec![f, 0.0, 0.0, PI + b, 0.0, 0.0, 0.0, 8.0, 12.0]);
}

#[test]
fn a_simplex_steps_into_its_bounds() {
    let bounds = vec![(d(0.0), d(10.0)), (d(-1.0), d(1.0))];
    let simplex = build_simplex(&doubles(&[9.5, 0.0]), &bounds);
    let got: Vec<Vec<f64>> = simplex.iter().map(|v| v.iter().map(|x| g(*x)).collect()).collect();
    assert_eq!(got, vec![vec![9.5, 0.0], vec![8.5, 0.0], vec![9.5, 0.2]]);
}

#[test]
fn the_cheapest_run_wins() {
    let run = |cost: f64| Some((doubles(&[0.0; 9]), d(cost)));
    assert_eq!(best_run(&vec![None, run(3.0), run(2.0), run(2.0)], 7).ok(), Some(2));
    assert!(matches!(
        best_run(&vec![None, None], 7),
        Err(CalibrateError::OptimizerFailed { max_evals: 7 })
    ));
    assert!(matches!(
        optimize(&vec![], WIDTH, HEIGHT, 9),
        Err(CalibrateError::OptimizerFailed { max_evals: 9 })
    ));
}

#[test]
fn what_is_not_seen_costs_ten() {
    let point = PointCorrespondence { court_point: default_points()[0], pixel: [d(0.5), d(0.25)] };
    let seen = vec![None, Some((d(0.75), d(0.25)))];
    let cost = correspondence_cost(&seen, &vec![point, point], &vec![], &vec![]);
    assert_eq!(cost, d((10.0 + 0.0625) / 2.0));
    assert_eq!(mean_pixel_error(&seen, &vec![point, point], 100, 100), d(25.0));
    assert_eq!(mean_pixel_error(&vec![None], &vec![point], 100, 100), d(f64::INFINITY));
    let corners = vec![[d(0.5), d(0.25)]; 4];
    let none = vec![None, None, None, None];
    let cost = corners_circle_cost(&none, &corners, &vec![], &corners, &vec![], &vec![]);
    assert_eq!(cost, d(10.0));
    let error = corners_circle_error(&none, &corners, &vec![], &corners, 100, 100);
    assert_eq!(error, d(f64::INFINITY));
}

/// Whatever corner is clicked first, the same search wins with the corners in the
/// same order.
#[test]
fn the_order_of_the_clicks_is_irrelevant() {
    let corners = [[1.0, 9.0], [4.0, 2.0], [7.0, 5.0], [3.0, 8.0]].map(|c: [f64; 2]| c.map(d));
    let found = |clicked: &[[F64; 2]; 4]| {
        let mut runs: Vec<Run> = Vec::new();
        for order in 0..CORNER_PERMUTATIONS.len() {
            let c = reorder(clicked, order);
            for start in 0..STARTS {
                let cost = 0.1 + g(c[0][0]) * 0.7 + g(c[1][1]) * 0.03 + g(c[2][0]) * 0.002;
                let late = start as f64 * 1e-6;
                let at = [1.0, 2.0, 3.0, 4.0, 5.0, 6.0, 7.0, 8.0, start as f64];
                runs.push(if start % 5 == 0 { None } else { Some((doubles(&at), d(cost + late))) });
            }
        }
        let (result, won) =
            optimize_corners_and_circle(&runs, clicked, WIDTH, HEIGHT, 300).expect("a camera");
        (result.params.to_vec(), won)
    };
    let first = found(&corners);
    assert_eq!(first.1[0], corners[0]);
    for order in 0..CORNER_PERMUTATIONS.len() {
        assert_eq!(found(&reorder(&corners, order)), first, "order {order}");
    }
}
