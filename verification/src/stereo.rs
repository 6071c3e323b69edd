//! Calibrating two cameras from matched features: which frame pairs count, how
//! their points are put together, and what is made of the optimum.
use crate::calibration::{
    default_blend_width, default_lens_correction_amount, CameraParams, MatchCalibration,
    PlaneLayout,
};
use crate::double::F64;
use crate::rounding::{
    law_ratio_rounds, law_rounding_keeps_order, lemma_rung_ascends, lemma_rung_in_binade,
    rounded_ratio, rung, Format,
};
use crate::single::F32;
use vstd::arithmetic::power2::{
    lemma2_to64, lemma2_to64_rest, lemma_pow2_adds, lemma_pow2_pos, pow2,
};
use vstd::prelude::*;

verus! {

/// What limits the search for features, as fractions of the frame.
#[derive(Clone, Copy, Debug)]
pub struct AkazeConfig {
    pub detect_y_min: F64,
    pub detect_y_max: F64,
    pub max_keypoints: usize,
}

/// What limits the matches.
#[derive(Clone, Copy, Debug)]
pub struct MatchConfig {
    pub spatial_x_inner: F64,
    pub spatial_x_threshold: F64,
    /// With fewer matches a frame pair, or the whole, does not count.
    pub min_matches: usize,
}

/// How a calibration runs.
#[derive(Clone, Copy, Debug)]
pub struct CalibrationConfig {
    pub akaze: AkazeConfig,
    pub matching: MatchConfig,
}

/// The part of a frame in which features are sought, as fractions of it.
#[derive(Clone, Copy, Debug, PartialEq, Eq, Structural)]
pub struct DetectRegion {
    pub x_min: F32,
    pub x_max: F32,
    pub y_min: F32,
    pub y_max: F32,
}

/// A feature in the pixels of its frame and on its camera's plane.
#[derive(Clone, Copy, Debug, PartialEq, Eq, Structural)]
pub struct Feature {
    pub x: F32,
    pub y: F32,
    pub plane_x: F64,
    pub plane_y: F64,
}

/// A feature that both cameras saw.
#[derive(Clone, Copy, Debug, PartialEq, Eq, Structural)]
pub struct FeaturePair {
    pub left: Feature,
    pub right: Feature,
}

/// A matched point on the two planes of the optimizer, and how far across its
/// frame each camera saw it.
#[derive(Clone, Copy, Debug, PartialEq, Eq)]
pub struct MatchedPoint {
    pub left: [F64; 2],
    pub right: [F64; 2],
    pub left_pixel_nx: F64,
    pub right_pixel_nx: F64,
}

/// What one frame pair gave.
#[derive(Debug)]
pub struct FrameMatches {
    pub points: Vec<MatchedPoint>,
    pub keypoints_left: usize,
    pub keypoints_right: usize,
    pub min_descriptors: usize,
    pub post_ratio_test: usize,
    pub post_spatial_filter: usize,
    pub post_ransac: usize,
}

/// Why a calibration failed.
#[derive(Debug)]
pub enum CalibrateError {
    /// The configuration is refused. Holds why.
    InvalidConfig(String),
    /// No frame pair gave matches.
    NoUsableFrames,
    /// All frame pairs together gave too few.
    InsufficientMatches { got: usize, min: usize },
    /// No optimization run ended with a finite cost.
    OptimizerFailed { max_evals: usize },
}

/// The bit pattern of one, in 32 bits.
pub const ONE_SINGLE: u32 = 0x3F80_0000;

/// The bit pattern of one.
pub const ONE_DOUBLE: u64 = 0x3FF0_0000_0000_0000;

/// The bit pattern of fifty: as many matches give full confidence.
pub const FULL_CONFIDENCE_MATCHES: u64 = 0x4049_0000_0000_0000;

/// Where features are sought in the left frame: away from its outer edge.
pub open spec fn left_region(c: CalibrationConfig) -> DetectRegion {
    DetectRegion {
        x_min: c.matching.spatial_x_threshold.narrow(),
        x_max: (F32 { bits: ONE_SINGLE }).minus(c.matching.spatial_x_inner.narrow()),
        y_min: c.akaze.detect_y_min.narrow(),
        y_max: c.akaze.detect_y_max.narrow(),
    }
}

/// Where features are sought in the right frame: the mirror image.
pub open spec fn right_region(c: CalibrationConfig) -> DetectRegion {
    DetectRegion {
        x_min: c.matching.spatial_x_inner.narrow(),
        x_max: (F32 { bits: ONE_SINGLE }).minus(c.matching.spatial_x_threshold.narrow()),
        y_min: c.akaze.detect_y_min.narrow(),
        y_max: c.akaze.detect_y_max.narrow(),
    }
}

/// Where features are sought in the two frames.
pub fn detect_regions(c: &CalibrationConfig) -> (r: (DetectRegion, DetectRegion))
    ensures
        r == (left_region(*c), right_region(*c)),
{
    let one: F32 = F32::from_bits(ONE_SINGLE);
    let inner: F32 = c.matching.spatial_x_inner.to_single();
    let outer: F32 = c.matching.spatial_x_threshold.to_single();
    let y_min: F32 = c.akaze.detect_y_min.to_single();
    let y_max: F32 = c.akaze.detect_y_max.to_single();
    (
        DetectRegion { x_min: outer, x_max: one.sub(inner), y_min, y_max },
        DetectRegion { x_min: inner, x_max: one.sub(outer), y_min, y_max },
    )
}

/// A feature pair on the optimizer's planes. The right camera looks at the
/// left plane, and the left camera at the right one.
pub open spec fn swapped(pair: FeaturePair, lw: u32, rw: u32) -> MatchedPoint {
    MatchedPoint {
        left: [pair.right.plane_x, pair.right.plane_y],
        right: [pair.left.plane_x, pair.left.plane_y],
        left_pixel_nx: pair.right.x.wide().over(F64::of_whole(rw as nat)),
        right_pixel_nx: pair.left.x.wide().over(F64::of_whole(lw as nat)),
    }
}

/// Each point has on the left plane what the right camera saw, and on the right
/// plane what the left camera saw; how far across its frame a camera saw it
/// stands on the side of the plane that the camera looks at.
pub open spec fn sides_cross(
    pairs: Seq<FeaturePair>,
    points: Seq<MatchedPoint>,
    lw: u32,
    rw: u32,
) -> bool {
    points.len() == pairs.len() && forall|i: int|
        0 <= i < pairs.len() ==> {
            let (pair, p) = (#[trigger] pairs[i], points[i]);
            &&& p.left@ == seq![pair.right.plane_x, pair.right.plane_y]
            &&& p.right@ == seq![pair.left.plane_x, pair.left.plane_y]
            &&& p.left_pixel_nx == pair.right.x.wide().over(F64::of_whole(rw as nat))
            &&& p.right_pixel_nx == pair.left.x.wide().over(F64::of_whole(lw as nat))
        }
}

fn swap_pair(pair: &FeaturePair, lw: u32, rw: u32) -> (r: MatchedPoint)
    ensures
        r == swapped(*pair, lw, rw),
        r.left@ == seq![pair.right.plane_x, pair.right.plane_y],
        r.right@ == seq![pair.left.plane_x, pair.left.plane_y],
        r.left_pixel_nx == pair.right.x.wide().over(F64::of_whole(rw as nat)),
        r.right_pixel_nx == pair.left.x.wide().over(F64::of_whole(lw as nat)),
{
    MatchedPoint {
        left: [pair.right.plane_x, pair.right.plane_y],
        right: [pair.left.plane_x, pair.left.plane_y],
        left_pixel_nx: pair.right.x.to_double().div(F64::from_whole(rw as u64)),
        right_pixel_nx: pair.left.x.to_double().div(F64::from_whole(lw as u64)),
    }
}

/// What is to be done next with a frame pair.
#[derive(Debug)]
pub enum PairAction {
    /// Detect features in the two regions, at most so many in each.
    Detect { left: DetectRegion, right: DetectRegion, max_keypoints: usize },
    /// Match the descriptors.
    Match,
    /// Drop the matches outside the overlap, then the outliers of the rest.
    Reject,
    /// Pass the points through the caller's filter.
    Filter(Vec<MatchedPoint>),
    /// Stop: the pair does not count.
    Skip,
    /// Stop: the pair counts.
    Keep(FrameMatches),
}

/// What came of an action.
#[derive(Debug)]
pub enum PairEvent {
    /// How many features and descriptors each frame has.
    Detected {
        keypoints_left: usize,
        keypoints_right: usize,
        descriptors_left: usize,
        descriptors_right: usize,
    },
    /// How many descriptors matched.
    Matched { raw: usize },
    /// How many matches lie in the overlap, and those of them that are no
    /// outliers; `None` where the outliers could not be told.
    Rejected { spatial: usize, inliers: Option<Vec<FeaturePair>> },
    /// The points that the caller's filter left.
    Filtered(Vec<MatchedPoint>),
}

/// Where the matching of a frame pair stands.
#[derive(Clone, Copy, Debug, PartialEq, Eq, Structural)]
pub enum PairStage {
    Detecting,
    Matching,
    Rejecting,
    Filtering,
    Done,
}

/// The matching of one frame pair, in progress.
#[derive(Clone, Copy, Debug, PartialEq, Eq, Structural)]
pub struct PairMatching {
    pub stage: PairStage,
    pub min_matches: usize,
    pub left_width: u32,
    pub right_width: u32,
    pub keypoints_left: usize,
    pub keypoints_right: usize,
    pub min_descriptors: usize,
    pub post_ratio_test: usize,
    pub post_spatial_filter: usize,
    pub post_ransac: usize,
}

/// The action, as far as it can be told without the vectors it carries.
pub open spec fn keeps(action: PairAction, m: PairMatching, points: Seq<MatchedPoint>) -> bool {
    action matches PairAction::Keep(f) && f.points@ == points && f.keypoints_left
        == m.keypoints_left && f.keypoints_right == m.keypoints_right && f.min_descriptors
        == m.min_descriptors && f.post_ratio_test == m.post_ratio_test && f.post_spatial_filter
        == m.post_spatial_filter && f.post_ransac == m.post_ransac
}

impl PairMatching {
    /// Whatever passed a gate met its bound.
    pub open spec fn wf(self) -> bool {
        &&& self.stage == PairStage::Matching || self.stage == PairStage::Rejecting || self.stage
            == PairStage::Filtering ==> self.keypoints_left > 0 && self.keypoints_right > 0
        &&& self.stage == PairStage::Rejecting || self.stage == PairStage::Filtering
            ==> self.post_ratio_test >= self.min_matches
        &&& self.stage == PairStage::Filtering ==> self.post_ransac >= self.min_matches
    }

    /// What an event leads to: the next state, and the action in `r`. An event
    /// that does not answer the last action changes nothing.
    pub open spec fn leads(self, event: PairEvent, next: PairMatching, r: Option<PairAction>) -> bool {
        match (self.stage, event) {
            (
                PairStage::Detecting,
                PairEvent::Detected {
                    keypoints_left,
                    keypoints_right,
                    descriptors_left,
                    descriptors_right,
                },
            ) => {
                let seen = PairMatching {
                    keypoints_left,
                    keypoints_right,
                    min_descriptors: if descriptors_left < descriptors_right {
                        descriptors_left
                    } else {
                        descriptors_right
                    },
                    ..self
                };
                if keypoints_left == 0 || keypoints_right == 0 {
                    next == (PairMatching { stage: PairStage::Done, ..seen }) && r == Some(
                        PairAction::Skip,
                    )
                } else {
                    next == (PairMatching { stage: PairStage::Matching, ..seen }) && r == Some(
                        PairAction::Match,
                    )
                }
            },
            (PairStage::Matching, PairEvent::Matched { raw }) => {
                let seen = PairMatching { post_ratio_test: raw, ..self };
                if raw < self.min_matches {
                    next == (PairMatching { stage: PairStage::Done, ..seen }) && r == Some(
                        PairAction::Skip,
                    )
                } else {
                    next == (PairMatching { stage: PairStage::Rejecting, ..seen }) && r == Some(
                        PairAction::Reject,
                    )
                }
            },
            (PairStage::Rejecting, PairEvent::Rejected { spatial, inliers }) => {
                let seen = PairMatching { post_spatial_filter: spatial, ..self };
                match inliers {
                    None => next == (PairMatching { stage: PairStage::Done, ..seen }) && r == Some(
                        PairAction::Skip,
                    ),
                    Some(pairs) => {
                        let kept = PairMatching { post_ransac: pairs.len(), ..seen };
                        if pairs.len() < self.min_matches {
                            next == (PairMatching { stage: PairStage::Done, ..kept }) && r == Some(
                                PairAction::Skip,
                            )
                        } else {
                            next == (PairMatching { stage: PairStage::Filtering, ..kept }) && (r
                                matches Some(PairAction::Filter(points)) && points@
                                == pairs@.map_values(
                                |p: FeaturePair| swapped(p, self.left_width, self.right_width),
                            ))
                        }
                    },
                }
            },
            (PairStage::Filtering, PairEvent::Filtered(points)) => next == (PairMatching {
                stage: PairStage::Done,
                ..self
            }) && (r matches Some(a) && keeps(a, self, points@)),
            _ => next == self && r is None,
        }
    }

    /// Takes what came of the last action, and says what is to be done next.
    pub fn answer(&mut self, event: PairEvent) -> (r: Option<PairAction>)
        ensures
            old(self).leads(event, *final(self), r),
            old(self).stage == PairStage::Rejecting ==> (event matches PairEvent::Rejected {
                inliers: Some(pairs),
                ..
            } ==> (r matches Some(PairAction::Filter(points)) ==> sides_cross(
                pairs@,
                points@,
                old(self).left_width,
                old(self).right_width,
            ))),
    {
        match (self.stage, event) {
            (
                PairStage::Detecting,
                PairEvent::Detected {
                    keypoints_left,
                    keypoints_right,
                    descriptors_left,
                    descriptors_right,
                },
            ) => {
                self.keypoints_left = keypoints_left;
                self.keypoints_right = keypoints_right;
                self.min_descriptors = if descriptors_left < descriptors_right {
                    descriptors_left
                } else {
                    descriptors_right
                };
                if keypoints_left == 0 || keypoints_right == 0 {
                    self.stage = PairStage::Done;
                    return Some(PairAction::Skip);
                }
                self.stage = PairStage::Matching;
                Some(PairAction::Match)
            },
            (PairStage::Matching, PairEvent::Matched { raw }) => {
                self.post_ratio_test = raw;
                if raw < self.min_matches {
                    self.stage = PairStage::Done;
                    return Some(PairAction::Skip);
                }
                self.stage = PairStage::Rejecting;
                Some(PairAction::Reject)
            },
            (PairStage::Rejecting, PairEvent::Rejected { spatial, inliers }) => {
                self.post_spatial_filter = spatial;
                match inliers {
                    None => {
                        self.stage = PairStage::Done;
                        Some(PairAction::Skip)
                    },
                    Some(pairs) => {
                        self.post_ransac = pairs.len();
                        if pairs.len() < self.min_matches {
                            self.stage = PairStage::Done;
                            return Some(PairAction::Skip);
                        }
                        self.stage = PairStage::Filtering;
                        let points: Vec<MatchedPoint> = swap_all(
                            &pairs,
                            self.left_width,
                            self.right_width,
                        );
                        Some(PairAction::Filter(points))
                    },
                }
            },
            (PairStage::Filtering, PairEvent::Filtered(points)) => {
                self.stage = PairStage::Done;
                Some(
                    PairAction::Keep(
                        FrameMatches {
                            points,
                            keypoints_left: self.keypoints_left,
                            keypoints_right: self.keypoints_right,
                            min_descriptors: self.min_descriptors,
                            post_ratio_test: self.post_ratio_test,
                            post_spatial_filter: self.post_spatial_filter,
                            post_ransac: self.post_ransac,
                        },
                    ),
                )
            },
            _ => None,
        }
    }
}

/// Begins with a frame pair of the given widths.
pub fn process_undistorted_pair(config: &CalibrationConfig, lw: u32, rw: u32) -> (r: (
    PairMatching,
    PairAction,
))
    ensures
        r.0 == (PairMatching {
            stage: PairStage::Detecting,
            min_matches: config.matching.min_matches,
            left_width: lw,
            right_width: rw,
            keypoints_left: 0,
            keypoints_right: 0,
            min_descriptors: 0,
            post_ratio_test: 0,
            post_spatial_filter: 0,
            post_ransac: 0,
        }),
        r.0.wf(),
        r.1 == (PairAction::Detect {
            left: left_region(*config),
            right: right_region(*config),
            max_keypoints: config.akaze.max_keypoints,
        }),
{
    let (left, right): (DetectRegion, DetectRegion) = detect_regions(config);
    (
        PairMatching {
            stage: PairStage::Detecting,
            min_matches: config.matching.min_matches,
            left_width: lw,
            right_width: rw,
            keypoints_left: 0,
            keypoints_right: 0,
            min_descriptors: 0,
            post_ratio_test: 0,
            post_spatial_filter: 0,
            post_ransac: 0,
        },
        PairAction::Detect { left, right, max_keypoints: config.akaze.max_keypoints },
    )
}

fn swap_all(pairs: &Vec<FeaturePair>, lw: u32, rw: u32) -> (r: Vec<MatchedPoint>)
    ensures
        r@ == pairs@.map_values(|p: FeaturePair| swapped(p, lw, rw)),
{
    let mut out: Vec<MatchedPoint> = Vec::new();
    for i in 0..pairs.len()
        invariant
            out@.len() == i,
            forall|j: int| 0 <= j < i ==> out@[j] == swapped(#[trigger] pairs@[j], lw, rw),
    {
        out.push(swap_pair(&pairs[i], lw, rw));
    }
    assert(out@ =~= pairs@.map_values(|p: FeaturePair| swapped(p, lw, rw)));
    out
}

/// The frame sizes of a calibration, and the shapes of the frames.
#[derive(Clone, Copy, Debug, PartialEq, Eq)]
pub struct Geometry {
    pub left: (u32, u32),
    pub right: (u32, u32),
    pub left_aspect: F32,
    pub right_aspect: F32,
}

/// Begins a calibration: the first frame pair says how large the frames are.
/// `valid` is what the check of the configuration said.
pub fn calibrate_with(
    valid: Result<(), String>,
    frames: &Vec<((u32, u32), (u32, u32))>,
) -> (r: Result<Geometry, CalibrateError>)
    ensures
        match valid {
            Err(why) => r == Err::<Geometry, CalibrateError>(CalibrateError::InvalidConfig(why)),
            Ok(_) => if frames@.len() == 0 || frames@[0].0.0 == 0 || frames@[0].0.1 == 0
                || frames@[0].1.0 == 0 || frames@[0].1.1 == 0 {
                r == Err::<Geometry, CalibrateError>(CalibrateError::NoUsableFrames)
            } else {
                r == Ok::<Geometry, CalibrateError>(
                    Geometry {
                        left: frames@[0].0,
                        right: frames@[0].1,
                        left_aspect: F32::of_whole(frames@[0].0.0 as nat).over(
                            F32::of_whole(frames@[0].0.1 as nat),
                        ),
                        right_aspect: F32::of_whole(frames@[0].1.0 as nat).over(
                            F32::of_whole(frames@[0].1.1 as nat),
                        ),
                    },
                )
            },
        },
{
    match valid {
        Err(why) => {
            return Err(CalibrateError::InvalidConfig(why));
        },
        Ok(_) => {},
    }
    if frames.len() == 0 {
        return Err(CalibrateError::NoUsableFrames);
    }
    let (left, right): ((u32, u32), (u32, u32)) = frames[0];
    if left.0 == 0 || left.1 == 0 || right.0 == 0 || right.1 == 0 {
        return Err(CalibrateError::NoUsableFrames);
    }
    Ok(
        Geometry {
            left,
            right,
            left_aspect: F32::from_whole(left.0 as u64).div(F32::from_whole(left.1 as u64)),
            right_aspect: F32::from_whole(right.0 as u64).div(F32::from_whole(right.1 as u64)),
        },
    )
}

/// The frame pairs that count, in order.
pub open spec fn counted(results: Seq<Option<FrameMatches>>) -> Seq<FrameMatches>
    decreases results.len(),
{
    if results.len() == 0 {
        Seq::empty()
    } else {
        match results.last() {
            Some(f) => counted(results.drop_last()).push(f),
            None => counted(results.drop_last()),
        }
    }
}

/// The points of all frame pairs, in order.
pub open spec fn pooled(frames: Seq<FrameMatches>) -> Seq<MatchedPoint>
    decreases frames.len(),
{
    if frames.len() == 0 {
        Seq::empty()
    } else {
        pooled(frames.drop_last()) + frames.last().points@
    }
}

/// The frame pairs that count and their points together.
#[derive(Debug)]
pub struct PooledMatches {
    pub per_frame: Vec<FrameMatches>,
    pub points: Vec<MatchedPoint>,
}

/// Takes the results of all frame pairs together, and says whether they are
/// enough for an optimization.
pub fn pool_matches(results: Vec<Option<FrameMatches>>, config: &CalibrationConfig) -> (r: Result<
    PooledMatches,
    CalibrateError,
>)
    ensures
        ({
            let frames = counted(results@);
            let points = pooled(frames);
            if frames.len() == 0 {
                r == Err::<PooledMatches, CalibrateError>(CalibrateError::NoUsableFrames)
            } else if points.len() < config.matching.min_matches {
                r == Err::<PooledMatches, CalibrateError>(
                    CalibrateError::InsufficientMatches {
                        got: points.len() as usize,
                        min: config.matching.min_matches,
                    },
                )
            } else {
                r matches Ok(p) && p.per_frame@ == frames && p.points@ == points
            }
        }),
{
    let mut rest: Vec<Option<FrameMatches>> = results;
    let mut per_frame: Vec<FrameMatches> = Vec::new();
    let mut i: usize = 0;
    let n: usize = rest.len();
    assert(results@.take(0) =~= Seq::empty());
    while i < n
        invariant
            n == results@.len(),
            rest@.len() == n,
            i <= n,
            forall|j: int| i <= j < n ==> rest@[j] == results@[j],
            per_frame@ == counted(results@.take(i as int)),
        decreases n - i,
    {
        proof {
            assert(results@.take(i + 1).drop_last() =~= results@.take(i as int));
        }
        let one: Option<FrameMatches> = rest[i].take();
        match one {
            Some(f) => {
                per_frame.push(f);
            },
            None => {},
        }
        i = i + 1;
    }
    assert(results@.take(n as int) =~= results@);
    if per_frame.len() == 0 {
        return Err(CalibrateError::NoUsableFrames);
    }
    let mut points: Vec<MatchedPoint> = Vec::new();
    assert(per_frame@.take(0) =~= Seq::empty());
    for k in 0..per_frame.len()
        invariant
            points@ == pooled(per_frame@.take(k as int)),
    {
        proof {
            assert(per_frame@.take(k + 1).drop_last() =~= per_frame@.take(k as int));
        }
        let ghost before = points@;
        let part: &Vec<MatchedPoint> = &per_frame[k].points;
        assert(part@.take(0) =~= Seq::empty());
        for j in 0..part.len()
            invariant
                points@ == before + part@.take(j as int),
        {
            assert(part@.take(j + 1) =~= part@.take(j as int).push(part@[j as int]));
            points.push(part[j]);
            assert(points@ =~= before + part@.take(j + 1));
        }
        assert(part@.take(part@.len() as int) =~= part@);
    }
    assert(per_frame@.take(per_frame@.len() as int) =~= per_frame@);
    if points.len() < config.matching.min_matches {
        return Err(
            CalibrateError::InsufficientMatches {
                got: points.len(),
                min: config.matching.min_matches,
            },
        );
    }
    Ok(PooledMatches { per_frame, points })
}

/// How far the matched points still disagree.
#[derive(Clone, Copy, Debug, PartialEq, Eq, Structural)]
pub struct CalibrationQuality {
    pub mean_reprojection_error: F64,
    pub trimmed_reprojection_error: F64,
    pub angular_error: F64,
}

/// A finished calibration.
#[derive(Debug)]
pub struct CalibrationResult {
    pub calibration: MatchCalibration,
    pub total_matches: usize,
    pub frames_used: usize,
    pub residual_error: F64,
    pub confidence: F64,
    pub per_frame: Vec<FrameMatches>,
    pub quality: Option<CalibrationQuality>,
}

/// The confidence in a number of matches: linear, up to one.
pub open spec fn confidence_of(matches: nat) -> F64 {
    F64::of_whole(matches).over(F64 { bits: FULL_CONFIDENCE_MATCHES }).lesser(
        F64 { bits: ONE_DOUBLE },
    )
}

/// Makes the calibration of the optimum, or passes on why there is none.
pub fn finish_calibration(
    pooled: PooledMatches,
    optimum: Result<(PlaneLayout, F64, CalibrationQuality), CalibrateError>,
    left_params: &CameraParams,
    right_params: &CameraParams,
) -> (r: Result<CalibrationResult, CalibrateError>)
    ensures
        match optimum {
            Err(e) => r == Err::<CalibrationResult, CalibrateError>(e),
            Ok(o) => r matches Ok(c) && c.calibration.left == *left_params && c.calibration.right
                == *right_params && c.calibration.layout == o.0 && c.calibration.rig_tilt == (F64 {
                bits: 0,
            }) && c.calibration.rig_roll == (F64 { bits: 0 }) && c.calibration.sync_offset == 0
                && c.calibration.field_roi is None && c.calibration.lens_correction_amount == (F32 {
                bits: 0x3F80_0000,
            }) && c.calibration.blend_width == (F32 { bits: 0x3D4C_CCCD }) && c.total_matches
                == pooled.points@.len() && c.frames_used == pooled.per_frame@.len()
                && c.residual_error == o.1 && c.confidence == confidence_of(pooled.points@.len())
                && c.per_frame == pooled.per_frame && c.quality == Some(o.2),
        },
{
    match optimum {
        Err(e) => Err(e),
        Ok((layout, residual_error, quality)) => {
            let total_matches: usize = pooled.points.len();
            let frames_used: usize = pooled.per_frame.len();
            let confidence: F64 = F64::from_whole(total_matches as u64).div(
                F64::from_bits(FULL_CONFIDENCE_MATCHES),
            ).min(F64::from_bits(ONE_DOUBLE));
            Ok(
                CalibrationResult {
                    calibration: MatchCalibration {
                        left: *left_params,
                        right: *right_params,
                        layout,
                        rig_tilt: F64::from_bits(0),
                        rig_roll: F64::from_bits(0),
                        sync_offset: 0,
                        field_roi: None,
                        lens_correction_amount: default_lens_correction_amount(),
                        blend_width: default_blend_width(),
                    },
                    total_matches,
                    frames_used,
                    residual_error,
                    confidence,
                    per_frame: pooled.per_frame,
                    quality: Some(quality),
                },
            )
        },
    }
}

/// A frame pair is kept only with features in both frames and with at least as
/// many matches, after the ratio test and without outliers, as are asked for.
pub proof fn law_kept_pair_has_enough(
    m: PairMatching,
    event: PairEvent,
    next: PairMatching,
    action: Option<PairAction>,
)
    requires
        m.wf(),
        m.leads(event, next, action),
    ensures
        next.wf(),
        action matches Some(PairAction::Keep(f)) ==> f.keypoints_left > 0 && f.keypoints_right > 0
            && f.post_ratio_test >= m.min_matches && f.post_ransac >= m.min_matches,
{
}

proof fn lemma_fifty_and_one()
    ensures
        rung(52, FULL_CONFIDENCE_MATCHES as int) == 50 * pow2(1074),
        rung(52, ONE_DOUBLE as int) == pow2(1074),
{
    lemma2_to64();
    lemma2_to64_rest();
    lemma_rung_in_binade(52, 1022, pow2(52) as int);
    lemma_pow2_adds(52, 1022);
    assert(1022 * pow2(52) + pow2(52) == ONE_DOUBLE);
    let q = 0x19_0000_0000_0000int;
    lemma_rung_in_binade(52, 1027, q);
    assert(1027 * pow2(52) + q == FULL_CONFIDENCE_MATCHES);
    lemma_pow2_adds(47, 1027);
    assert(q == 50 * pow2(47));
    assert((50 * pow2(47)) * pow2(1027) == 50 * (pow2(47) * pow2(1027))) by (nonlinear_arith);
}

/// Confidence never exceeds one, and is one from fifty matches on.
pub proof fn law_confidence(matches: nat)
    ensures
        confidence_of(matches).at_most(F64 { bits: ONE_DOUBLE }),
        matches >= 50 ==> confidence_of(matches) == (F64 { bits: ONE_DOUBLE }),
{
    if matches >= 50 {
        let f = Format::Double;
        let unit = pow2(1074) as int;
        let fifty = F64 { bits: FULL_CONFIDENCE_MATCHES };
        lemma_fifty_and_one();
        lemma_pow2_pos(1074);
        reveal(F64::of_whole);
        reveal(F64::over);
        let n = (matches * pow2(1074)) as int;
        assert(n >= (50 * unit) * 1) by (nonlinear_arith)
            requires
                n == matches * unit,
                matches >= 50,
                unit > 0,
        ;
        law_rounding_keeps_order(f, n, 1, FULL_CONFIDENCE_MATCHES as int);
        law_ratio_rounds(f, n, 1);
        let a = F64::of_whole(matches);
        let k = a.parts().key as int;
        assert(k == rounded_ratio(f, n, 1));
        if a.finite() {
            if FULL_CONFIDENCE_MATCHES < k {
                lemma_rung_ascends(52, FULL_CONFIDENCE_MATCHES as int, k);
            }
            let size = a.parts().size(f);
            let b = fifty.parts().size(f);
            assert(size * unit >= unit * b) by (nonlinear_arith)
                requires
                    size >= b,
                    unit > 0,
            ;
            law_rounding_keeps_order(f, size * unit, b, ONE_DOUBLE as int);
            law_ratio_rounds(f, size * unit, b);
        }
    }
}

} // verus!
