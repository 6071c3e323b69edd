//! Sets up automatic camera control: which detector to try, in which order,
//! and how to wire trackers and panner to what was found.
use crate::calibration::FieldRoi;
use crate::field_panner::{new_panner, FieldPanner};
use crate::panner_config::{broadcast_config, default_config, FieldPannerConfig, ONE};
use crate::single::F32;
use crate::text::{chars_of, equal_ignoring_case, folded};
use vstd::prelude::*;
use vstd::string::StringExecFns;

verus! {

/// What the camera follows.
#[derive(Clone, Copy, Debug, PartialEq, Eq, Structural)]
pub enum TrackingMode {
    /// Players and ball.
    Field,
    /// The ball alone.
    Ball,
    /// Nothing: the camera sweeps, for debugging.
    Sweep,
}

/// Why a model path is refused.
#[derive(Clone, Debug)]
pub enum ModelPathError {
    /// Nothing is there. Holds the message.
    NotFound(String),
    /// The system could not say. Holds what it said instead.
    Io(String),
}

/// What is said of a path where nothing is.
pub open spec fn missing_message(path: Seq<char>) -> Seq<char> {
    "AI model path does not exist: "@ + path
}

/// What a check of a path returns, given what the system says of it.
pub open spec fn path_verdict(
    r: Result<(), ModelPathError>,
    path: Seq<char>,
    exists: Result<bool, String>,
) -> bool {
    if path.len() == 0 {
        r matches Err(ModelPathError::NotFound(m)) && m@ == missing_message(path)
    } else {
        match exists {
            Ok(true) => r is Ok,
            Ok(false) => r matches Err(ModelPathError::NotFound(m)) && m@ == missing_message(path),
            Err(e) => r == Err::<(), ModelPathError>(ModelPathError::Io(e)),
        }
    }
}

/// Whether a path leads to a model, given what the system says of it.
pub fn check_model_path(path: &str, exists: Result<bool, String>) -> (r: Result<
    (),
    ModelPathError,
>)
    ensures
        path_verdict(r, path@, exists),
{
    let missing: bool = path.is_empty() || match exists {
        Ok(found) => !found,
        Err(_) => false,
    };
    if missing {
        let message: String = String::from_str("AI model path does not exist: ").concat(path);
        return Err(ModelPathError::NotFound(message));
    }
    match exists {
        Ok(_) => Ok(()),
        Err(e) => Err(ModelPathError::Io(e)),
    }
}

/// Calls `std::path::Path::try_exists`: whether something is at a path, or
/// what the system said. The answer rests on the disk, so nothing is claimed
/// of it.
#[verifier::external_body]
fn path_exists(path: &str) -> (r: Result<bool, String>)
{
    std::path::Path::new(path).try_exists().map_err(|e| e.to_string())
}

/// Verifies that a model file or directory is there.
///
/// What the disk holds decides; an empty path is refused whatever it holds.
pub fn validate_model_path(path: &str) -> (r: Result<(), ModelPathError>)
    ensures
        exists|found: Result<bool, String>| path_verdict(r, path@, found),
        path@.len() == 0 ==> (r matches Err(ModelPathError::NotFound(m)) && m@ == missing_message(
            path@,
        )),
{
    if path.is_empty() {
        let r: Result<(), ModelPathError> = check_model_path(path, Ok(false));
        assert(path_verdict(r, path@, Ok(false)));
        return r;
    }
    let found: Result<bool, String> = path_exists(path);
    let ghost asked = found;
    let r: Result<(), ModelPathError> = check_model_path(path, found);
    assert(path_verdict(r, path@, asked));
    r
}

/// How automatic camera control is to be set up.
#[derive(Clone, Debug)]
pub struct AutocamConfig {
    /// Where the detection model is.
    pub model_path: String,
    /// What the camera follows.
    pub tracking_mode: TrackingMode,
    /// Detection runs on every such frame.
    pub detection_interval: u64,
    /// The outline of the playing field.
    pub field_roi: Option<FieldRoi>,
    /// Whether frames have ten bits a sample.
    pub is_10bit: bool,
    /// The parameters of the panner.
    pub field_panner_config: Option<FieldPannerConfig>,
    /// The least confidence of a detection, in place of the detector's own.
    pub confidence_threshold: Option<F32>,
}

impl AutocamConfig {
    /// The given model and the defaults.
    pub fn new(model_path: String) -> (r: Self)
        ensures
            r.model_path == model_path,
            r.tracking_mode == TrackingMode::Ball,
            r.detection_interval == 1,
            r.field_roi is None,
            !r.is_10bit,
            r.field_panner_config is None,
            r.confidence_threshold is None,
    {
        AutocamConfig {
            model_path,
            tracking_mode: TrackingMode::Ball,
            detection_interval: 1,
            field_roi: None,
            is_10bit: false,
            field_panner_config: None,
            confidence_threshold: None,
        }
    }

    /// The same with another tracking mode.
    pub fn with_tracking_mode(self, mode: TrackingMode) -> (r: Self)
        ensures
            r == (AutocamConfig { tracking_mode: mode, ..self }),
    {
        let mut c: AutocamConfig = self;
        c.tracking_mode = mode;
        c
    }

    /// The same with another detection interval.
    pub fn with_detection_interval(self, interval: u64) -> (r: Self)
        ensures
            r == (AutocamConfig { detection_interval: interval, ..self }),
    {
        let mut c: AutocamConfig = self;
        c.detection_interval = interval;
        c
    }

    /// The same with an outline of the playing field.
    pub fn with_field_roi(self, roi: FieldRoi) -> (r: Self)
        ensures
            r == (AutocamConfig { field_roi: Some(roi), ..self }),
    {
        let mut c: AutocamConfig = self;
        c.field_roi = Some(roi);
        c
    }

    /// The same with frames of ten bits a sample, or not.
    pub fn with_10bit(self, is_10bit: bool) -> (r: Self)
        ensures
            r == (AutocamConfig { is_10bit, ..self }),
    {
        let mut c: AutocamConfig = self;
        c.is_10bit = is_10bit;
        c
    }
}

/// The first label from number `i` on that is `name` when case is ignored.
pub open spec fn label_from(names: Seq<String>, name: Seq<char>, i: int) -> Option<int>
    decreases names.len() - i,
{
    if i < 0 || i >= names.len() {
        None
    } else if folded(names[i]@) == folded(name) {
        Some(i)
    } else {
        label_from(names, name, i + 1)
    }
}

/// The number of the first candidate that is a label, candidates from number
/// `j` on, as a class id.
pub open spec fn class_from(names: Seq<String>, candidates: Seq<&str>, j: int) -> Option<u16>
    decreases candidates.len() - j,
{
    if j < 0 || j >= candidates.len() {
        None
    } else {
        match label_from(names, candidates[j]@, 0) {
            Some(i) => Some(i as u16),
            None => class_from(names, candidates, j + 1),
        }
    }
}

/// The class id of the first candidate that the model names, case ignored.
pub fn resolve_class_id(class_names: &Vec<String>, candidates: &Vec<&str>) -> (r: Option<u16>)
    ensures
        r == class_from(class_names@, candidates@, 0),
{
    let mut j: usize = 0;
    while j < candidates.len()
        invariant
            j <= candidates.len(),
            class_from(class_names@, candidates@, 0) == class_from(
                class_names@,
                candidates@,
                j as int,
            ),
        decreases candidates.len() - j,
    {
        let mut i: usize = 0;
        while i < class_names.len()
            invariant
                i <= class_names.len(),
                j < candidates.len(),
                label_from(class_names@, candidates@[j as int]@, 0) == label_from(
                    class_names@,
                    candidates@[j as int]@,
                    i as int,
                ),
                class_from(class_names@, candidates@, 0) == class_from(
                    class_names@,
                    candidates@,
                    j as int,
                ),
            decreases class_names.len() - i,
        {
            if equal_ignoring_case(class_names[i].as_str(), candidates[j]) {
                return Some(i as u16);
            }
            i = i + 1;
        }
        j = j + 1;
    }
    None
}

/// The class id of the first candidate that the model names, or the given one.
pub fn resolve_or(class_names: &Vec<String>, candidates: &Vec<&str>, default_id: u16) -> (r: u16)
    ensures
        r == match class_from(class_names@, candidates@, 0) {
            Some(id) => id,
            None => default_id,
        },
{
    match resolve_class_id(class_names, candidates) {
        Some(id) => id,
        None => default_id,
    }
}

/// What the program was built with and for.
#[derive(Clone, Copy, Debug, PartialEq, Eq, Structural)]
pub struct Build {
    /// ONNX Runtime.
    pub ort: bool,
    /// TensorRT without ONNX Runtime.
    pub tensorrt: bool,
    /// NCNN.
    pub ncnn: bool,
    pub linux: bool,
    pub macos: bool,
}

/// A way to run a detection model, in the order in which they are tried.
#[derive(Clone, Copy, Debug, PartialEq, Eq, Structural)]
pub enum Backend {
    /// A TensorRT engine file.
    Tensorrt,
    /// ONNX Runtime on CUDA frames.
    OrtGpu,
    /// ONNX Runtime on Metal frames.
    Metal,
    /// An NCNN directory.
    Ncnn,
    /// Preprocessing on the GPU, inference by ONNX Runtime.
    Wgpu,
    /// Everything on the CPU, a transformer model.
    CpuDetr,
    /// Everything on the CPU.
    CpuYolo,
}

/// The bit pattern of the least confidence unless another is asked for.
pub const DEFAULT_CONFIDENCE: u32 = 0x3DCC_CCCD;  // 0.10

/// The same for NCNN models.
pub const NCNN_CONFIDENCE: u32 = 0x3E80_0000;  // 0.25

/// The class id of the ball in the COCO data set.
pub const COCO_BALL: u16 = 32;

/// The class id of a person in the COCO data set.
pub const COCO_PERSON: u16 = 0;

/// A detector that is to be made.
#[derive(Clone, Copy, Debug, PartialEq, Eq, Structural)]
pub struct DetectorRequest {
    pub backend: Backend,
    /// The least confidence of a detection.
    pub confidence: F32,
    /// Whether detections off the playing field are to be dropped.
    pub roi: bool,
    /// The class whose feet must stand on the playing field.
    pub roi_person: u16,
    /// Whether frames have ten bits a sample.
    pub is_10bit: bool,
}

/// How the ball is tracked.
#[derive(Clone, Copy, Debug, PartialEq, Eq, Structural)]
pub struct BallTracking {
    pub class_id: u16,
    /// The farthest that a ball can go between frames, in radians.
    pub max_jump_rad: F32,
}

/// What moves the camera.
#[derive(Clone, Copy, Debug, PartialEq, Eq, Structural)]
pub enum PannerChoice {
    /// A sweep of this half width, in radians, and period, in seconds, with a
    /// zoom between two fields of view, in degrees, of another period.
    Sweep { amplitude: F32, period: F32, zoom_tight: F32, zoom_wide: F32, zoom_period: F32 },
    /// A field panner that has seen no frame yet.
    Field(FieldPanner),
}

/// How trackers and panner are wired once the detector is settled.
#[derive(Clone, Copy, Debug, PartialEq, Eq, Structural)]
pub struct Wiring {
    /// What the set-up returns: whether the camera is controlled.
    pub active: bool,
    /// A detection interval to set.
    pub detection_interval: Option<u64>,
    pub ball: Option<BallTracking>,
    /// The class of the players to provide.
    pub player_class: Option<u16>,
    pub panner: Option<PannerChoice>,
}

/// What is to be done next.
#[derive(Debug)]
pub enum SetupAction {
    /// Verify the model path, and answer `PathChecked`.
    CheckPath,
    /// Read labels and output shapes off the model, and answer `ModelRead` or
    /// `ModelUnread`.
    ReadModel,
    /// Make and attach a detector, and answer `Attached`, `Unavailable` or
    /// `Failed`.
    Attach(DetectorRequest),
    /// Wire trackers and panner, and stop.
    Finish(Wiring),
    /// Stop with an error.
    Fail(SetupError),
}

/// Why the set-up failed.
#[derive(Debug)]
pub enum SetupError {
    /// The model path is refused.
    Path(ModelPathError),
    /// The last detector that could have served could not be made.
    Detector(String),
}

/// What came of an action.
#[derive(Debug)]
pub enum SetupEvent {
    PathChecked(Result<(), ModelPathError>),
    ModelRead { class_names: Vec<String>, is_rf_detr: bool },
    ModelUnread,
    /// The detector was made and attached.
    Attached,
    /// The machine lacks what the detector needs.
    Unavailable,
    /// The detector could not be made. Holds why.
    Failed(String),
}

/// Where the set-up stands: what was asked for last.
#[derive(Clone, Copy, Debug, PartialEq, Eq, Structural)]
pub enum Stage {
    Path,
    Model,
    /// A detector, by its rank in the order of trying.
    Detector(u8),
    Done,
}

/// A set-up in progress.
#[derive(Debug)]
pub struct AutocamSetup {
    pub config: AutocamConfig,
    /// Frames per second.
    pub fps: F32,
    pub build: Build,
    /// Whether frames stay on the GPU.
    pub zero_copy: bool,
    /// Whether the model is a directory.
    pub model_is_dir: bool,
    pub class_names: Vec<String>,
    pub is_rf_detr: bool,
    /// Whether a detector is attached.
    pub active: bool,
    pub stage: Stage,
}

/// Text ends in other text.
pub open spec fn ends_with(s: Seq<char>, tail: Seq<char>) -> bool {
    s.len() >= tail.len() && s.subrange(s.len() - tail.len(), s.len() as int) == tail
}

fn has_ending(s: &str, tail: &str) -> (r: bool)
    ensures
        r == ends_with(s@, tail@),
{
    let a: Vec<char> = chars_of(s);
    let b: Vec<char> = chars_of(tail);
    if a.len() < b.len() {
        return false;
    }
    let offset: usize = a.len() - b.len();
    for i in 0..b.len()
        invariant
            a@ == s@,
            b@ == tail@,
            offset == a.len() - b.len(),
            forall|j: int| 0 <= j < i ==> a@[offset + j] == #[trigger] b@[j],
    {
        if a[offset + i] != b[i] {
            assert(s@.subrange(offset as int, s@.len() as int)[i as int] != tail@[i as int]);
            return false;
        }
    }
    assert(s@.subrange(offset as int, s@.len() as int) =~= tail@);
    true
}

/// The number of ranks in the order of trying.
pub const RANKS: u8 = 6;

impl AutocamSetup {
    /// The outline of the playing field can hold something.
    pub open spec fn has_roi(self) -> bool {
        match self.config.field_roi {
            Some(roi) => roi.left@.len() >= 3 || roi.right@.len() >= 3,
            None => false,
        }
    }

    /// Some way to run a model was built in.
    pub open spec fn can_detect(self) -> bool {
        self.build.ort || self.build.tensorrt || self.build.ncnn
    }

    /// The backend of a rank: the last rank runs on the CPU what the model
    /// is.
    pub open spec fn backend_at(self, rank: int) -> Backend {
        if rank == 0 {
            Backend::Tensorrt
        } else if rank == 1 {
            Backend::OrtGpu
        } else if rank == 2 {
            Backend::Metal
        } else if rank == 3 {
            Backend::Ncnn
        } else if rank == 4 {
            Backend::Wgpu
        } else if self.is_rf_detr {
            Backend::CpuDetr
        } else {
            Backend::CpuYolo
        }
    }

    /// A backend is worth trying.
    pub open spec fn applies(self, backend: Backend) -> bool {
        let b = self.build;
        match backend {
            Backend::Tensorrt => b.tensorrt && self.zero_copy && ends_with(
                self.config.model_path@,
                ".engine"@,
            ),
            Backend::OrtGpu => b.ort && b.linux && !self.active && self.zero_copy
                && !self.is_rf_detr,
            Backend::Metal => b.ort && b.macos && self.zero_copy && !self.is_rf_detr,
            Backend::Ncnn => b.ncnn && !self.active && self.model_is_dir,
            Backend::Wgpu => b.ort && !self.active && self.zero_copy && !self.is_rf_detr,
            Backend::CpuDetr => b.ort && !self.active && !self.zero_copy && self.is_rf_detr,
            Backend::CpuYolo => b.ort && !self.active && !self.zero_copy && !self.is_rf_detr,
        }
    }

    /// A detector that cannot be made ends the set-up.
    pub open spec fn required(backend: Backend) -> bool {
        backend == Backend::Wgpu || backend == Backend::CpuDetr || backend == Backend::CpuYolo
    }

    /// What is asked for a backend.
    pub open spec fn request(self, backend: Backend) -> DetectorRequest {
        DetectorRequest {
            backend,
            confidence: match self.config.confidence_threshold {
                Some(c) => c,
                None => if backend == Backend::Ncnn {
                    F32 { bits: NCNN_CONFIDENCE }
                } else {
                    F32 { bits: DEFAULT_CONFIDENCE }
                },
            },
            roi: self.has_roi(),
            roi_person: match class_from(self.class_names@, seq!["person"], 0) {
                Some(id) => id,
                None => COCO_PERSON,
            },
            is_10bit: self.config.is_10bit,
        }
    }

    /// The rank of the first backend worth trying, from `rank` on.
    pub open spec fn next_rank(self, rank: int) -> int
        decreases RANKS - rank,
    {
        if rank >= RANKS || rank < 0 {
            RANKS as int
        } else if self.applies(self.backend_at(rank)) {
            rank
        } else {
            self.next_rank(rank + 1)
        }
    }

    /// How trackers and panner are wired.
    pub open spec fn wiring(self) -> Wiring {
        let ball_id = match class_from(self.class_names@, seq!["ball", "sports ball"], 0) {
            Some(id) => id,
            None => COCO_BALL,
        };
        let interval = if self.config.detection_interval > 1 {
            Some(self.config.detection_interval)
        } else {
            None
        };
        let given = self.config.field_panner_config;
        let idle = Wiring {
            active: false,
            detection_interval: None,
            ball: None,
            player_class: None,
            panner: None,
        };
        match self.config.tracking_mode {
            TrackingMode::Sweep => Wiring {
                active: true,
                panner: Some(
                    PannerChoice::Sweep {
                        amplitude: F32 { bits: 0x3F4C_CCCD },
                        period: F32 { bits: 0x4120_0000 },
                        zoom_tight: F32 { bits: 0x41F0_0000 },
                        zoom_wide: F32 { bits: 0x42B4_0000 },
                        zoom_period: F32 { bits: 0x40E0_0000 },
                    },
                ),
                ..idle
            },
            TrackingMode::Field => if self.active {
                Wiring {
                    active: true,
                    detection_interval: interval,
                    ball: Some(
                        BallTracking { class_id: ball_id, max_jump_rad: F32 { bits: 0x3F4C_CCCD } },
                    ),
                    player_class: class_from(self.class_names@, seq!["person"], 0),
                    panner: Some(
                        PannerChoice::Field(
                            new_panner(
                                self.fps,
                                match given {
                                    Some(c) => c,
                                    None => broadcast_config(),
                                },
                            ),
                        ),
                    ),
                }
            } else {
                idle
            },
            TrackingMode::Ball => if self.active {
                Wiring {
                    active: true,
                    detection_interval: interval,
                    ball: Some(
                        BallTracking { class_id: ball_id, max_jump_rad: F32 { bits: 0x3F00_0000 } },
                    ),
                    player_class: None,
                    panner: Some(
                        PannerChoice::Field(
                            new_panner(
                                self.fps,
                                FieldPannerConfig {
                                    ball_weight: F32 { bits: ONE },
                                    ..match given {
                                        Some(c) => c,
                                        None => default_config(),
                                    }
                                },
                            ),
                        ),
                    ),
                }
            } else {
                idle
            },
        }
    }

    /// The wiring of a set-up that could not begin.
    pub open spec fn no_wiring() -> Wiring {
        Wiring {
            active: false,
            detection_interval: None,
            ball: None,
            player_class: None,
            panner: None,
        }
    }

    /// What is asked for once the detectors below `rank` are settled.
    pub open spec fn from_rank(self, rank: int) -> (Stage, SetupAction) {
        let next = self.next_rank(rank);
        if next < RANKS {
            (
                Stage::Detector(next as u8),
                SetupAction::Attach(self.request(self.backend_at(next))),
            )
        } else {
            (Stage::Done, SetupAction::Finish(self.wiring()))
        }
    }

    /// What is asked for once the path is verified, or need not be.
    pub open spec fn after_path(self) -> (Stage, SetupAction) {
        if !self.can_detect() {
            (Stage::Done, SetupAction::Finish(AutocamSetup::no_wiring()))
        } else if self.build.ort && ends_with(self.config.model_path@, ".onnx"@) {
            (Stage::Model, SetupAction::ReadModel)
        } else {
            self.from_rank(0)
        }
    }

    /// The set-up at a later stage.
    pub open spec fn at(self, stage: Stage) -> AutocamSetup {
        AutocamSetup { stage, ..self }
    }

    /// The set-up after an event, and what is asked for next. An event that
    /// does not answer the last action changes nothing.
    pub open spec fn answered(self, event: SetupEvent) -> (AutocamSetup, Option<SetupAction>) {
        match (self.stage, event) {
            (Stage::Path, SetupEvent::PathChecked(Ok(_))) => {
                let n = self.after_path();
                (self.at(n.0), Some(n.1))
            },
            (Stage::Path, SetupEvent::PathChecked(Err(e))) => (
                self.at(Stage::Done),
                Some(SetupAction::Fail(SetupError::Path(e))),
            ),
            (Stage::Model, SetupEvent::ModelRead { class_names, is_rf_detr }) => {
                let s = AutocamSetup { class_names, is_rf_detr, ..self };
                let n = s.from_rank(0);
                (s.at(n.0), Some(n.1))
            },
            (Stage::Model, SetupEvent::ModelUnread) => {
                let n = self.from_rank(0);
                (self.at(n.0), Some(n.1))
            },
            (Stage::Detector(rank), SetupEvent::Attached) => {
                let s = AutocamSetup { active: true, ..self };
                let n = s.from_rank(rank + 1);
                (s.at(n.0), Some(n.1))
            },
            (Stage::Detector(rank), SetupEvent::Unavailable) => {
                let n = self.from_rank(rank + 1);
                (self.at(n.0), Some(n.1))
            },
            (Stage::Detector(rank), SetupEvent::Failed(why)) => if AutocamSetup::required(
                self.backend_at(rank as int),
            ) {
                (self.at(Stage::Done), Some(SetupAction::Fail(SetupError::Detector(why))))
            } else {
                let n = self.from_rank(rank + 1);
                (self.at(n.0), Some(n.1))
            },
            _ => (self, None),
        }
    }

    /// Every asked-for rank is one of the order.
    pub open spec fn wf(self) -> bool {
        self.stage matches Stage::Detector(rank) ==> rank < RANKS
    }
}

impl AutocamSetup {
    /// Takes what came of the last action, and says what is to be done next.
    pub fn answer(&mut self, event: SetupEvent) -> (r: Option<SetupAction>)
        requires
            old(self).wf(),
        ensures
            (*final(self), r) == old(self).answered(event),
            final(self).wf(),
    {
        match (self.stage, event) {
            (Stage::Path, SetupEvent::PathChecked(checked)) => match checked {
                Ok(_) => Some(self.go_on_after_path()),
                Err(e) => {
                    self.stage = Stage::Done;
                    Some(SetupAction::Fail(SetupError::Path(e)))
                },
            },
            (Stage::Model, SetupEvent::ModelRead { class_names, is_rf_detr }) => {
                self.class_names = class_names;
                self.is_rf_detr = is_rf_detr;
                Some(self.go_on_from(0))
            },
            (Stage::Model, SetupEvent::ModelUnread) => Some(self.go_on_from(0)),
            (Stage::Detector(rank), SetupEvent::Attached) => {
                self.active = true;
                Some(self.go_on_from(rank + 1))
            },
            (Stage::Detector(rank), SetupEvent::Unavailable) => Some(self.go_on_from(rank + 1)),
            (Stage::Detector(rank), SetupEvent::Failed(why)) => {
                // only what follows NCNN in the order is required
                if rank >= 4 {
                    self.stage = Stage::Done;
                    Some(SetupAction::Fail(SetupError::Detector(why)))
                } else {
                    Some(self.go_on_from(rank + 1))
                }
            },
            _ => None,
        }
    }

    fn go_on_after_path(&mut self) -> (r: SetupAction)
        requires
            old(self).wf(),
        ensures
            *final(self) == old(self).at(old(self).after_path().0),
            r == old(self).after_path().1,
            final(self).wf(),
    {
        if !(self.build.ort || self.build.tensorrt || self.build.ncnn) {
            self.stage = Stage::Done;
            return SetupAction::Finish(
                Wiring {
                    active: false,
                    detection_interval: None,
                    ball: None,
                    player_class: None,
                    panner: None,
                },
            );
        }
        if self.build.ort && has_ending(self.config.model_path.as_str(), ".onnx") {
            self.stage = Stage::Model;
            return SetupAction::ReadModel;
        }
        self.go_on_from(0)
    }

    fn go_on_from(&mut self, first: u8) -> (r: SetupAction)
        requires
            old(self).wf(),
            first <= RANKS,
        ensures
            *final(self) == old(self).at(old(self).from_rank(first as int).0),
            r == old(self).from_rank(first as int).1,
            final(self).wf(),
    {
        let mut rank: u8 = first;
        while rank < RANKS
            invariant
                first <= rank <= RANKS,
                *self == *old(self),
                self.next_rank(first as int) == self.next_rank(rank as int),
            decreases RANKS - rank,
        {
            let backend: Backend = self.backend(rank);
            if self.worth_trying(backend) {
                let request: DetectorRequest = self.make_request(backend);
                self.stage = Stage::Detector(rank);
                return SetupAction::Attach(request);
            }
            rank = rank + 1;
        }
        let wiring: Wiring = self.make_wiring();
        self.stage = Stage::Done;
        SetupAction::Finish(wiring)
    }

    fn backend(&self, rank: u8) -> (r: Backend)
        ensures
            r == self.backend_at(rank as int),
    {
        match rank {
            0 => Backend::Tensorrt,
            1 => Backend::OrtGpu,
            2 => Backend::Metal,
            3 => Backend::Ncnn,
            4 => Backend::Wgpu,
            _ => if self.is_rf_detr {
                Backend::CpuDetr
            } else {
                Backend::CpuYolo
            },
        }
    }

    fn worth_trying(&self, backend: Backend) -> (r: bool)
        ensures
            r == self.applies(backend),
    {
        let b: Build = self.build;
        match backend {
            Backend::Tensorrt => b.tensorrt && self.zero_copy && has_ending(
                self.config.model_path.as_str(),
                ".engine",
            ),
            Backend::OrtGpu => b.ort && b.linux && !self.active && self.zero_copy
                && !self.is_rf_detr,
            Backend::Metal => b.ort && b.macos && self.zero_copy && !self.is_rf_detr,
            Backend::Ncnn => b.ncnn && !self.active && self.model_is_dir,
            Backend::Wgpu => b.ort && !self.active && self.zero_copy && !self.is_rf_detr,
            Backend::CpuDetr => b.ort && !self.active && !self.zero_copy && self.is_rf_detr,
            Backend::CpuYolo => b.ort && !self.active && !self.zero_copy && !self.is_rf_detr,
        }
    }

    fn effective_roi(&self) -> (r: bool)
        ensures
            r == self.has_roi(),
    {
        match &self.config.field_roi {
            Some(roi) => roi.left.len() >= 3 || roi.right.len() >= 3,
            None => false,
        }
    }

    fn make_request(&self, backend: Backend) -> (r: DetectorRequest)
        ensures
            r == self.request(backend),
    {
        let person: Vec<&str> = vec!["person"];
        assert(person@ =~= seq!["person"]);
        let confidence: F32 = match self.config.confidence_threshold {
            Some(c) => c,
            None => match backend {
                Backend::Ncnn => F32::from_bits(NCNN_CONFIDENCE),
                _ => F32::from_bits(DEFAULT_CONFIDENCE),
            },
        };
        DetectorRequest {
            backend,
            confidence,
            roi: self.effective_roi(),
            roi_person: resolve_or(&self.class_names, &person, COCO_PERSON),
            is_10bit: self.config.is_10bit,
        }
    }

    fn make_wiring(&self) -> (r: Wiring)
        ensures
            r == self.wiring(),
    {
        let balls: Vec<&str> = vec!["ball", "sports ball"];
        let person: Vec<&str> = vec!["person"];
        assert(balls@ =~= seq!["ball", "sports ball"]);
        assert(person@ =~= seq!["person"]);
        let idle: Wiring = Wiring {
            active: false,
            detection_interval: None,
            ball: None,
            player_class: None,
            panner: None,
        };
        let mode: TrackingMode = self.config.tracking_mode;
        match mode {
            TrackingMode::Sweep => {
                let mut w: Wiring = idle;
                w.active = true;
                w.panner = Some(
                    PannerChoice::Sweep {
                        amplitude: F32::from_bits(0x3F4C_CCCD),
                        period: F32::from_bits(0x4120_0000),
                        zoom_tight: F32::from_bits(0x41F0_0000),
                        zoom_wide: F32::from_bits(0x42B4_0000),
                        zoom_period: F32::from_bits(0x40E0_0000),
                    },
                );
                return w;
            },
            _ => {},
        }
        if !self.active {
            return idle;
        }
        let interval: Option<u64> = if self.config.detection_interval > 1 {
            Some(self.config.detection_interval)
        } else {
            None
        };
        let ball_id: u16 = resolve_or(&self.class_names, &balls, COCO_BALL);
        match mode {
            TrackingMode::Field => {
                let c: FieldPannerConfig = match self.config.field_panner_config {
                    Some(c) => c,
                    None => FieldPannerConfig::broadcast(),
                };
                Wiring {
                    active: true,
                    detection_interval: interval,
                    ball: Some(
                        BallTracking { class_id: ball_id, max_jump_rad: F32::from_bits(0x3F4C_CCCD) },
                    ),
                    player_class: resolve_class_id(&self.class_names, &person),
                    panner: Some(PannerChoice::Field(FieldPanner::with_config(self.fps, c))),
                }
            },
            _ => {
                let mut c: FieldPannerConfig = match self.config.field_panner_config {
                    Some(c) => c,
                    None => FieldPannerConfig::default(),
                };
                c.ball_weight = F32::from_bits(ONE);
                Wiring {
                    active: true,
                    detection_interval: interval,
                    ball: Some(
                        BallTracking { class_id: ball_id, max_jump_rad: F32::from_bits(0x3F00_0000) },
                    ),
                    player_class: None,
                    panner: Some(PannerChoice::Field(FieldPanner::with_config(self.fps, c))),
                }
            },
        }
    }
}

/// Begins a set-up: what is asked for first is the path, unless nothing
/// is to be detected.
pub fn setup_autocam(
    config: AutocamConfig,
    fps: F32,
    build: Build,
    source_is_gpu_resident: bool,
    model_is_dir: bool,
) -> (r: (AutocamSetup, SetupAction))
    ensures
        r.0.wf(),
        r.0.config == config,
        r.0.fps == fps,
        r.0.build == build,
        r.0.zero_copy == source_is_gpu_resident,
        r.0.model_is_dir == model_is_dir,
        r.0.class_names@.len() == 0,
        !r.0.is_rf_detr,
        !r.0.active,
        config.tracking_mode == TrackingMode::Sweep ==> (r.0.stage, r.1) == r.0.after_path(),
        config.tracking_mode != TrackingMode::Sweep ==> r.0.stage == Stage::Path && r.1
            == SetupAction::CheckPath,
{
    let mut s: AutocamSetup = AutocamSetup {
        config,
        fps,
        build,
        zero_copy: source_is_gpu_resident,
        model_is_dir,
        class_names: Vec::new(),
        is_rf_detr: false,
        active: false,
        stage: Stage::Path,
    };
    match s.config.tracking_mode {
        TrackingMode::Sweep => {
            let ghost before = s;
            let action: SetupAction = s.go_on_after_path();
            proof {
                lemma_rank_without_stage(before, s.stage, 0);
            }
            (s, action)
        },
        _ => (s, SetupAction::CheckPath),
    }
}

/// What is worth trying does not rest on the stage.
proof fn lemma_rank_without_stage(s: AutocamSetup, stage: Stage, rank: int)
    requires
        0 <= rank <= RANKS,
    ensures
        s.at(stage).next_rank(rank) == s.next_rank(rank),
    decreases RANKS - rank,
{
    if rank < RANKS {
        lemma_rank_without_stage(s, stage, rank + 1);
    }
}

/// A model that no GPU backend runs is never given to one.
pub proof fn law_transformer_stays_on_cpu(s: AutocamSetup, rank: int)
    requires
        s.is_rf_detr,
        0 <= rank <= RANKS,
    ensures
        ({
            let b = s.backend_at(s.next_rank(rank));
            s.next_rank(rank) < RANKS ==> b == Backend::CpuDetr || b == Backend::Tensorrt || b
                == Backend::Ncnn
        }),
{
    reveal_with_fuel(AutocamSetup::next_rank, 8);
}

/// The detector that is tried next is the first, in the order, that is worth
/// trying.
pub proof fn law_first_worth_trying(s: AutocamSetup, rank: int)
    requires
        0 <= rank <= RANKS,
    ensures
        rank <= s.next_rank(rank) <= RANKS,
        s.next_rank(rank) < RANKS ==> s.applies(s.backend_at(s.next_rank(rank))),
        forall|i: int| rank <= i < s.next_rank(rank) ==> !s.applies(#[trigger] s.backend_at(i)),
    decreases RANKS - rank,
{
    if rank < RANKS && !s.applies(s.backend_at(rank)) {
        law_first_worth_trying(s, rank + 1);
    }
}

/// Every answer to a detector request moves on to a later rank or ends the
/// set-up, so that at most as many detectors are tried as there are ranks.
pub proof fn law_setup_moves_on(s: AutocamSetup, event: SetupEvent)
    requires
        s.wf(),
        s.stage is Detector,
        s.answered(event).1 is Some,
    ensures
        match s.answered(event).0.stage {
            Stage::Detector(later) => s.stage->Detector_0 < later,
            Stage::Done => true,
            _ => false,
        },
{
    let rank = s.stage->Detector_0;
    law_first_worth_trying(s, rank + 1);
    law_first_worth_trying(AutocamSetup { active: true, ..s }, rank + 1);
}

/// Once a detector is attached, no other CPU or GPU backend is tried but the
/// one of Metal frames.
pub proof fn law_one_detector(s: AutocamSetup, rank: int)
    requires
        s.active,
        1 <= rank <= RANKS,
    ensures
        s.next_rank(rank) < RANKS ==> s.backend_at(s.next_rank(rank)) == Backend::Metal,
{
    reveal_with_fuel(AutocamSetup::next_rank, 8);
}

/// A model without a detector leaves the camera alone, except that a sweep
/// needs none.
pub proof fn law_no_detector_no_control(s: AutocamSetup)
    requires
        !s.active,
        s.config.tracking_mode != TrackingMode::Sweep,
    ensures
        s.wiring() == AutocamSetup::no_wiring(),
{
}

/// Players are provided only where the model names them and the mode follows
/// them.
pub proof fn law_players_only_when_named(s: AutocamSetup)
    ensures
        s.wiring().player_class is Some ==> s.config.tracking_mode == TrackingMode::Field
            && class_from(s.class_names@, seq!["person"], 0) is Some,
{
}

/// In ball mode the ball drives the camera alone, whatever was asked for.
pub proof fn law_ball_mode_full_weight(s: AutocamSetup)
    requires
        s.config.tracking_mode == TrackingMode::Ball,
        s.active,
    ensures
        s.wiring().panner matches Some(PannerChoice::Field(p)) && p.config.ball_weight == (F32 {
            bits: ONE,
        }),
        s.wiring().player_class is None,
{
}

} // verus!
