//! The field panner against the same steps in the machine's own numbers, to the
//! last bit.
use reco::calibration::MatchCalibration;
use reco::field_panner::FieldPanner;
use reco::panner_config::{ClusterMode, FieldPannerConfig, FramingMode};
use reco::single::F32;
use reco::world::{
    CameraId, PanContext, TrackState, TrackedEntity, ViewportPosition, WorldState,
};

type Point = (f32, f32, f32);

fn f(x: f32) -> F32 {
    F32::from_bits(x.to_bits())
}

fn g(x: F32) -> f32 {
    f32::from_bits(x.to_bits())
}

struct Model {
    c: FieldPannerConfig,
    yaw: f32,
    pitch: f32,
    fov: f32,
    center: Option<(f32, f32)>,
    speed: (f32, f32),
    top: f32,
    presence: f32,
    ball: (f32, f32),
    lead: (f32, f32),
    ahead: bool,
}

fn box_of(points: &[Point]) -> Option<(f32, f32, f32, f32)> {
    let (mut a, mut b) = ((f32::INFINITY, f32::NEG_INFINITY), (f32::INFINITY, f32::NEG_INFINITY));
    for &(y, p, _) in points {
        if y.is_finite() && p.is_finite() {
            a = (a.0.min(y), a.1.max(y));
            b = (b.0.min(p), b.1.max(p));
        }
    }
    if a.0.is_finite() && a.1.is_finite() {
        Some((0.5 * (a.0 + a.1), 0.5 * (b.0 + b.1), 0.5 * (a.1 - a.0), 0.5 * (b.1 - b.0)))
    } else {
        None
    }
}

fn apart(a: (f32, f32), b: (f32, f32)) -> f32 {
    (a.0 - b.0).powi(2) + (a.1 - b.1).powi(2)
}

impl Model {
    fn new(fps: f32, c: FieldPannerConfig) -> Model {
        let c = c.sanitized();
        Model {
            yaw: 0.0,
            pitch: 0.0,
            fov: g(c.fov_default),
            center: None,
            speed: (0.0, 0.0),
            top: g(c.max_velocity_rad_per_sec) / fps.clamp(1.0, 1000.0),
            presence: 0.0,
            ball: (0.0, 0.0),
            lead: (0.0, 0.0),
            ahead: false,
            c,
        }
    }

    fn weight(&self, confidence: f32) -> f32 {
        if self.c.confidence_weighted { confidence } else { 1.0 }
    }

    fn mean(&self, points: &[Point]) -> (f32, f32, f32) {
        let total: f32 = points.iter().map(|p| self.weight(p.2)).sum();
        let y: f32 = points.iter().map(|p| p.0 * self.weight(p.2)).sum();
        let p: f32 = points.iter().map(|p| p.1 * self.weight(p.2)).sum();
        (total, y / total, p / total)
    }

    fn group(&self, points: &[Point]) -> Vec<Point> {
        if points.len() < self.c.min_cluster {
            return Vec::new();
        }
        if self.c.cluster_mode == ClusterMode::Density {
            let reach = g(self.c.cluster_bandwidth_rad).max(1e-3);
            let near = |a: &Point, b: &Point| apart((a.0, a.1), (b.0, b.1)) <= reach * reach;
            let peak = points
                .iter()
                .filter(|p| p.0.is_finite() && p.1.is_finite())
                .max_by_key(|a| points.iter().filter(|b| near(a, b)).count());
            let core: Vec<Point> = match peak {
                Some(peak) => points.iter().filter(|p| near(peak, p)).copied().collect(),
                None => Vec::new(),
            };
            return if core.len() < self.c.min_cluster { Vec::new() } else { core };
        }
        let (total, y, p) = self.mean(points);
        if total <= 0.0 || !y.is_finite() || !p.is_finite() {
            return Vec::new();
        }
        let share = g(self.c.keep_fraction).clamp(0.0, 1.0);
        let keep = ((points.len() as f32 * share).round() as usize)
            .clamp(self.c.min_cluster, points.len());
        let mut sorted = points.to_vec();
        let off = |a: &Point| apart((a.0, a.1), (y, p));
        sorted.sort_by(|a, b| off(a).partial_cmp(&off(b)).unwrap_or(std::cmp::Ordering::Equal));
        sorted.truncate(keep);
        sorted
    }

    fn settle(&mut self, to: (f32, f32)) -> (f32, f32) {
        let alpha = g(self.c.cluster_alpha);
        let next = match self.center {
            None => to,
            Some(c) => (c.0 + alpha * (to.0 - c.0), c.1 + alpha * (to.1 - c.1)),
        };
        self.center = Some(next);
        next
    }

    /// Place, spread and size of the cluster.
    fn cluster(&mut self, points: &[Point]) -> Option<(f32, f32, f32)> {
        if self.c.framing == FramingMode::FrameAll {
            if points.len() < self.c.min_cluster {
                return None;
            }
            let (y, p, hy, hp) = box_of(points)?;
            let (y, p) = self.settle((y, p));
            return Some((y, p, hy.max(hp)));
        }
        let core = self.group(points);
        if core.is_empty() {
            return None;
        }
        let mut sums = (0.0_f32, 0.0_f32, 0.0_f32);
        for p in &core {
            let w = self.weight(p.2);
            sums = (sums.0 + p.0 * w, sums.1 + p.1 * w, sums.2 + w);
        }
        let raw = (sums.0 / sums.2, sums.1 / sums.2);
        let (y, p) = if sums.2 <= 0.0 || !raw.0.is_finite() || !raw.1.is_finite() {
            self.center.unwrap_or((0.0, 0.0))
        } else {
            self.settle(raw)
        };
        let spread = core
            .iter()
            .map(|q| ((q.0 - y) * (q.0 - y) + (q.1 - p) * (q.1 - p)).sqrt())
            .fold(0.0_f32, f32::max);
        Some((y, p, spread))
    }

    fn glance(&self, world: &WorldState) -> Option<(f32, f32)> {
        let points = points_of(world);
        if self.c.framing == FramingMode::FrameAll {
            if points.len() >= self.c.min_cluster {
                if let Some((y, p, _, _)) = box_of(&points) {
                    return Some((y, p));
                }
            }
        } else {
            let core = self.group(&points);
            if !core.is_empty() {
                let (total, y, p) = self.mean(&core);
                if total > 0.0 {
                    return Some((y * (1.0 + g(self.c.edge_push)), p + g(self.c.pitch_bias)));
                }
            }
        }
        live_ball(world)
    }

    fn wanted_fov(&self, spread: f32, pitch: f32, speed: f32) -> f32 {
        let c = &self.c;
        let (tight, wide) = (g(c.fov_tight), g(c.fov_wide));
        if c.framing == FramingMode::FrameAll {
            let all = (2.0 * spread).to_degrees() + 2.0 * g(c.frame_all_margin_deg);
            return all.clamp(tight, wide);
        }
        let far = (pitch - g(c.pitch_near)) / (g(c.pitch_far) - g(c.pitch_near));
        let mut fov = (2.0 * spread.to_degrees()).max(tight)
            + far.clamp(0.0, 1.0) * g(c.distance_bias_max)
            + (self.yaw.abs() * 5.0).min(g(c.edge_bias_max))
            + (speed / self.top).clamp(0.0, 1.0) * g(c.velocity_fov_bias_max);
        if self.presence > 0.01 {
            let off = apart(self.ball, (self.yaw, self.pitch)).sqrt().to_degrees();
            fov = fov.max((off + g(c.ball_frame_margin_deg)) * 2.0);
        }
        fov.clamp(tight, wide)
    }

    fn decide(&mut self, world: &WorldState, future: &[WorldState]) {
        let c = self.c;
        self.ahead |= !future.is_empty();
        let quick = if self.ahead { g(c.lookahead_reactivity).max(1.0) } else { 1.0 };
        let cluster = self.cluster(&points_of(world));
        let ball = if g(c.ball_weight) > 0.0 { live_ball(world) } else { None };
        let near = match (ball, cluster) {
            (Some(b), Some(k)) => {
                apart(b, (k.0, k.1)).sqrt() < g(c.ball_max_dist_from_cluster)
            }
            _ => false,
        };
        if near {
            self.ball = ball.unwrap();
            self.presence += g(c.ball_presence_attack) * (1.0 - self.presence);
        } else {
            self.presence *= g(c.ball_presence_decay);
        }
        self.presence = self.presence.clamp(0.0, 1.0);
        let mut target = match cluster {
            Some(k) if c.framing == FramingMode::Action => {
                let mut t = (k.0 * (1.0 + g(c.edge_push)), k.1 + g(c.pitch_bias));
                let w = g(c.ball_weight) * self.presence;
                if w > 0.001 {
                    t = (t.0 * (1.0 - w) + self.ball.0 * w, t.1 * (1.0 - w) + self.ball.1 * w);
                }
                Some(t)
            }
            Some(k) => Some((k.0, k.1)),
            None => ball,
        };
        if let (false, Some(t), Some(now)) = (future.is_empty(), target, self.glance(world)) {
            let seen: Vec<(f32, f32)> = future.iter().filter_map(|w| self.glance(w)).collect();
            if !seen.is_empty() {
                let mut sum = (0.0_f32, 0.0_f32);
                for s in &seen {
                    sum = (sum.0 + s.0, sum.1 + s.1);
                }
                let n = seen.len() as f32;
                let raw =
                    ((sum.0 / n - now.0) * g(c.lead_gain), (sum.1 / n - now.1) * g(c.lead_gain));
                let a = g(c.lead_alpha);
                self.lead.0 += a * (raw.0 - self.lead.0);
                self.lead.1 += a * (raw.1 - self.lead.1);
                target = Some((t.0 + self.lead.0, t.1 + self.lead.1));
            }
        }
        if c.lock_pitch {
            target = target.map(|t| (t.0, g(c.locked_pitch_rad)));
        }
        if let Some(t) = target.filter(|t| t.0.is_finite() && t.1.is_finite()) {
            let top = self.top * quick;
            let alpha = (g(c.velocity_alpha) * quick).min(1.0);
            let mut err = (t.0 - self.yaw, t.1 - self.pitch);
            let dead = g(c.dead_zone_rad);
            let length = (err.0 * err.0 + err.1 * err.1).sqrt();
            if dead > 0.0 && length > 1e-6 {
                let scale = (length - dead).max(0.0) / length;
                err = (err.0 * scale, err.1 * scale);
            }
            self.speed.0 += alpha * (err.0.clamp(-top, top) - self.speed.0);
            self.speed.1 += alpha * (err.1.clamp(-top, top) - self.speed.1);
            self.yaw += self.speed.0;
            self.pitch += self.speed.1;
        }
        if let Some(k) = cluster {
            let speed = (self.speed.0.powi(2) + self.speed.1.powi(2)).sqrt();
            let fov = self.wanted_fov(k.2, k.1, speed);
            if fov.is_finite() {
                self.fov += g(c.fov_alpha) * (fov - self.fov);
            }
        }
    }
}

fn points_of(world: &WorldState) -> Vec<Point> {
    let live = world.players.iter().filter(|p| p.state != TrackState::Lost);
    live.map(|p| (g(p.yaw), g(p.pitch), g(p.confidence))).collect()
}

fn live_ball(world: &WorldState) -> Option<(f32, f32)> {
    world.ball.filter(|b| b.state != TrackState::Lost).map(|b| (g(b.yaw), g(b.pitch)))
}

struct Dice(u64);

impl Dice {
    fn roll(&mut self) -> u64 {
        self.0 = self.0.wrapping_mul(6364136223846793005).wrapping_add(1442695040888963407);
        self.0 >> 33
    }

    /// A number from `lo` to `hi`.
    fn within(&mut self, lo: f32, hi: f32) -> f32 {
        lo + (hi - lo) * (self.roll() as f32 / (1u64 << 31) as f32)
    }
}

fn entity(dice: &mut Dice, at: f32) -> TrackedEntity {
    let odd = dice.roll() % 40;
    TrackedEntity {
        id: dice.roll(),
        class_id: 0,
        yaw: f(if odd == 0 { f32::NAN } else { at + dice.within(-0.3, 0.3) }),
        pitch: f(dice.within(-0.4, 0.1)),
        confidence: f(if odd == 1 { 0.0 } else { dice.within(0.1, 1.0) }),
        state: if odd == 2 { TrackState::Lost } else { TrackState::Tracking },
        age_frames: 3,
        origin: CameraId::Left,
    }
}

fn world(dice: &mut Dice, frame: u64) -> WorldState {
    let at = (frame as f32 * 0.01).sin() * 0.7;
    let n = dice.roll() % 9;
    WorldState {
        ball: if dice.roll() % 3 > 0 { Some(entity(dice, at)) } else { None },
        players: (0..n).map(|_| entity(dice, at)).collect(),
    }
}

fn configs() -> Vec<FieldPannerConfig> {
    let mut all = vec![
        FieldPannerConfig::default(),
        FieldPannerConfig::broadcast(),
        FieldPannerConfig::action(),
        FieldPannerConfig::frame_all(),
        FieldPannerConfig::basketball(),
    ];
    let mut odd = FieldPannerConfig::action();
    odd.cluster_mode = ClusterMode::TrimmedMean;
    odd.min_cluster = 2;
    odd.ball_weight = f(0.7);
    odd.edge_push = f(0.2);
    odd.lead_gain = f(0.5);
    odd.confidence_weighted = !odd.confidence_weighted;
    all.push(odd);
    odd.lock_pitch = true;
    odd.locked_pitch_rad = f(-0.1);
    odd.cluster_mode = ClusterMode::Density;
    all.push(odd);
    all
}

#[test]
fn the_panner_decides_as_the_machine_computes() {
    let calibration = MatchCalibration::mono_placeholder();
    for (k, config) in configs().into_iter().enumerate() {
        let mut dice = Dice(1 + k as u64);
        let mut model = Model::new(25.0, config);
        let mut panner = FieldPanner::with_config(f(25.0), config);
        for frame in 0..400 {
            let now = world(&mut dice, frame);
            let future: Vec<WorldState> = if frame < 150 {
                Vec::new()
            } else {
                (1..4).map(|i| world(&mut dice, frame + 5 * i)).collect()
            };
            let ctx = PanContext {
                frame_index: frame,
                timestamp_ms: reco::double::F64::from_bits(0),
                previous_position: ViewportPosition::default(),
                calibration: &calibration,
            };
            let got = panner.decide_with_lookahead(&now, &future, &ctx);
            model.decide(&now, &future);
            let got = (g(got.yaw), g(got.pitch), got.fov_degrees.map(g));
            let want = (model.yaw, model.pitch, Some(model.fov));
            assert_eq!(got, want, "parameters {k}, frame {frame}");
        }
    }
}
