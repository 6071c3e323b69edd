//! Camera intrinsics, plane layout, and the checks that both must pass before
//! they reach a renderer.
use crate::double::F64;
use crate::single::F32;
use vstd::prelude::*;
use vstd::string::StringExecFns;

verus! {

/// The largest width or height, in pixels, that is accepted.
pub const MAX_DIM: u32 = 8192;

/// The bit pattern of one millionth: focal lengths and the axis offset must be
/// above it.
pub const EPSILON: u64 = 0x3EB0_C6F7_A0B5_ED8D;

/// The bit pattern of one.
pub const UNITY: u64 = 0x3FF0_0000_0000_0000;

/// The largest offset, in frames, between the two videos.
pub const MAX_SYNC_OFFSET_FRAMES: i64 = 100_000;

/// The largest calibration file, in bytes.
pub const MAX_CALIBRATION_FILE_SIZE: u64 = 1_048_576;

/// Why a calibration is refused.
#[allow(inconsistent_fields)]
#[derive(Clone, Debug)]
pub enum CalibrationError {
    /// A width or height is zero.
    ZeroDimension { camera: &'static str, field: &'static str, value: u32 },
    /// A width or height is above `MAX_DIM`.
    DimensionTooLarge { camera: &'static str, field: &'static str, value: u32, max: u32 },
    /// A number is infinite or not a number.
    NonFiniteFloat { field: String, value: String },
    /// A focal length is not above the least one.
    FocalLengthTooSmall { field: &'static str, value: F64, epsilon: F64 },
    /// The camera axis offset is not above the least one.
    AxisOffsetTooSmall { value: F64, epsilon: F64 },
    /// The overlap lies outside zero to one.
    IntersectOutOfRange { value: F64 },
    /// The offset between the videos is beyond any real one.
    SyncOffsetOutOfRange { value: i64, min: i64, max: i64 },
}

/// The content of a `CalibrationError`.
#[allow(inconsistent_fields)]
pub enum Fault {
    ZeroDimension { camera: Seq<char>, field: Seq<char>, value: u32 },
    DimensionTooLarge { camera: Seq<char>, field: Seq<char>, value: u32, max: u32 },
    NonFiniteFloat { field: Seq<char>, value: Seq<char> },
    FocalLengthTooSmall { field: Seq<char>, value: F64, epsilon: F64 },
    AxisOffsetTooSmall { value: F64, epsilon: F64 },
    IntersectOutOfRange { value: F64 },
    SyncOffsetOutOfRange { value: i64, min: i64, max: i64 },
}

impl View for CalibrationError {
    type V = Fault;

    open spec fn view(&self) -> Fault {
        match *self {
            CalibrationError::ZeroDimension { camera, field, value } => Fault::ZeroDimension {
                camera: camera@,
                field: field@,
                value,
            },
            CalibrationError::DimensionTooLarge { camera, field, value, max } => {
                Fault::DimensionTooLarge { camera: camera@, field: field@, value, max }
            },
            CalibrationError::NonFiniteFloat { field, value } => Fault::NonFiniteFloat {
                field: field@,
                value: value@,
            },
            CalibrationError::FocalLengthTooSmall { field, value, epsilon } => {
                Fault::FocalLengthTooSmall { field: field@, value, epsilon }
            },
            CalibrationError::AxisOffsetTooSmall { value, epsilon } => Fault::AxisOffsetTooSmall {
                value,
                epsilon,
            },
            CalibrationError::IntersectOutOfRange { value } => Fault::IntersectOutOfRange { value },
            CalibrationError::SyncOffsetOutOfRange { value, min, max } => {
                Fault::SyncOffsetOutOfRange { value, min, max }
            },
        }
    }
}

/// What one camera's lens does: focal lengths and principal point in pixels,
/// and four fisheye coefficients.
#[derive(Clone, Copy, Debug)]
pub struct CameraParams {
    pub width: u32,
    pub height: u32,
    pub fx: F64,
    pub fy: F64,
    pub cx: F64,
    pub cy: F64,
    pub d: [F64; 4],
}

/// How the two camera planes stand in space.
#[derive(Clone, Copy, Debug)]
pub struct PlaneLayout {
    /// Distance of the virtual camera from the origin along two axes.
    pub camera_axis_offset: F64,
    /// Overlap of the planes, from zero to one.
    pub intersect: F64,
    /// Height of the right plane.
    pub x_ty: F64,
    /// Roll of the right plane, in radians.
    pub x_rz: F64,
    /// Roll of the left plane, in radians.
    pub z_rx: F64,
    /// Pitch of the right plane, in radians.
    pub x_rx: F64,
    /// Pitch of the left plane, in radians.
    pub z_rz: F64,
}

/// The outline of the playing field in each camera, in coordinates from zero
/// to one.
#[derive(Clone, Debug)]
pub struct FieldRoi {
    pub left: Vec<[F64; 2]>,
    pub right: Vec<[F64; 2]>,
}

impl Default for FieldRoi {
    fn default() -> (r: Self)
        ensures
            r.left@.len() == 0,
            r.right@.len() == 0,
    {
        FieldRoi { left: Vec::new(), right: Vec::new() }
    }
}

/// Everything that the two cameras of a match need to be stitched.
#[derive(Clone, Debug)]
pub struct MatchCalibration {
    pub left: CameraParams,
    pub right: CameraParams,
    pub layout: PlaneLayout,
    /// Forward lean of the rig, in radians.
    pub rig_tilt: F64,
    /// Sideways lean of the rig, in radians.
    pub rig_roll: F64,
    /// By how many frames the right video is ahead.
    pub sync_offset: i64,
    pub field_roi: Option<FieldRoi>,
    /// How much of the lens profile is applied, from zero to one.
    pub lens_correction_amount: F32,
    /// Width of the seam, as a fraction of the overlap.
    pub blend_width: F32,
}

/// The lens correction of a calibration that does not say.
pub fn default_lens_correction_amount() -> (r: F32)
    ensures
        r == (F32 { bits: 0x3F80_0000 }),
{
    F32::from_bits(0x3F80_0000)
}

/// The seam width of a calibration that does not say.
pub fn default_blend_width() -> (r: F32)
    ensures
        r == (F32 { bits: 0x3D4C_CCCD }),
{
    F32::from_bits(0x3D4C_CCCD)
}

/// How an infinite value, or one that is not a number, is written.
pub open spec fn non_finite_text(nan: bool, neg: bool) -> Seq<char> {
    if nan {
        "NaN"@
    } else if neg {
        "-inf"@
    } else {
        "inf"@
    }
}

/// The fault of a value that must be finite.
pub open spec fn finite_fault(field: Seq<char>, x: F64) -> Option<Fault> {
    if x.finite() {
        None
    } else {
        Some(Fault::NonFiniteFloat { field, value: non_finite_text(x.nan(), x.parts().neg) })
    }
}

/// The fault of a 32-bit value that must be finite.
pub open spec fn finite_fault_single(field: Seq<char>, x: F32) -> Option<Fault> {
    if x.finite() {
        None
    } else {
        Some(Fault::NonFiniteFloat { field, value: non_finite_text(x.nan(), x.parts().neg) })
    }
}

/// The fault of a focal length.
pub open spec fn focal_fault(field: Seq<char>, x: F64) -> Option<Fault> {
    if !x.finite() {
        finite_fault(field, x)
    } else if x.at_most(F64 { bits: EPSILON }) {
        Some(Fault::FocalLengthTooSmall { field, value: x, epsilon: F64 { bits: EPSILON } })
    } else {
        None
    }
}

/// The first of two faults.
pub open spec fn or_else(a: Option<Fault>, b: Option<Fault>) -> Option<Fault> {
    if a is Some {
        a
    } else {
        b
    }
}

/// The first fault of the frame size of one camera.
pub open spec fn size_fault(p: CameraParams, camera: Seq<char>) -> Option<Fault> {
    if p.width == 0 {
        Some(Fault::ZeroDimension { camera, field: "width"@, value: 0 })
    } else if p.height == 0 {
        Some(Fault::ZeroDimension { camera, field: "height"@, value: 0 })
    } else if p.width > MAX_DIM {
        Some(Fault::DimensionTooLarge { camera, field: "width"@, value: p.width, max: MAX_DIM })
    } else if p.height > MAX_DIM {
        Some(Fault::DimensionTooLarge { camera, field: "height"@, value: p.height, max: MAX_DIM })
    } else {
        None
    }
}

/// The first fault of one camera.
pub open spec fn camera_fault(p: CameraParams, camera: Seq<char>) -> Option<Fault> {
    or_else(
        size_fault(p, camera),
        or_else(
            focal_fault(camera + ".fx"@, p.fx),
            or_else(
                focal_fault(camera + ".fy"@, p.fy),
                or_else(
                    finite_fault(camera + ".cx"@, p.cx),
                    or_else(finite_fault(camera + ".cy"@, p.cy), coefficient_fault(p, camera)),
                ),
            ),
        ),
    )
}

/// The first fault of the four lens coefficients.
pub open spec fn coefficient_fault(p: CameraParams, camera: Seq<char>) -> Option<Fault> {
    or_else(
        finite_fault(camera + ".d[0]"@, p.d@[0]),
        or_else(
            finite_fault(camera + ".d[1]"@, p.d@[1]),
            or_else(
                finite_fault(camera + ".d[2]"@, p.d@[2]),
                finite_fault(camera + ".d[3]"@, p.d@[3]),
            ),
        ),
    )
}

/// The fault of the camera axis offset.
pub open spec fn offset_fault(x: F64) -> Option<Fault> {
    if !x.finite() {
        finite_fault("params.cameraAxisOffset"@, x)
    } else if x.at_most(F64 { bits: EPSILON }) {
        Some(Fault::AxisOffsetTooSmall { value: x, epsilon: F64 { bits: EPSILON } })
    } else {
        None
    }
}

/// The fault of the overlap.
pub open spec fn intersect_fault(x: F64) -> Option<Fault> {
    if !x.finite() {
        finite_fault("params.intersect"@, x)
    } else if !(F64 { bits: 0 }.at_most(x) && x.at_most(F64 { bits: UNITY })) {
        Some(Fault::IntersectOutOfRange { value: x })
    } else {
        None
    }
}

/// The first fault of the plane layout.
pub open spec fn layout_fault(l: PlaneLayout) -> Option<Fault> {
    or_else(
        offset_fault(l.camera_axis_offset),
        or_else(
            intersect_fault(l.intersect),
            or_else(
                finite_fault("params.xTy"@, l.x_ty),
                or_else(
                    finite_fault("params.xRz"@, l.x_rz),
                    or_else(
                        finite_fault("params.xRx"@, l.x_rx),
                        or_else(
                            finite_fault("params.zRx"@, l.z_rx),
                            finite_fault("params.zRz"@, l.z_rz),
                        ),
                    ),
                ),
            ),
        ),
    )
}

/// The fault of the offset between the videos.
pub open spec fn sync_fault(offset: i64) -> Option<Fault> {
    if -MAX_SYNC_OFFSET_FRAMES <= offset <= MAX_SYNC_OFFSET_FRAMES {
        None
    } else {
        Some(
            Fault::SyncOffsetOutOfRange {
                value: offset,
                min: (-MAX_SYNC_OFFSET_FRAMES) as i64,
                max: MAX_SYNC_OFFSET_FRAMES,
            },
        )
    }
}

/// The first fault of a calibration: the left camera, the right camera, the
/// layout, the lean of the rig, the seam, the lens correction, the offset.
pub open spec fn calibration_fault(c: MatchCalibration) -> Option<Fault> {
    or_else(
        camera_fault(c.left, "left"@),
        or_else(
            camera_fault(c.right, "right"@),
            or_else(
                layout_fault(c.layout),
                or_else(
                    finite_fault("rig_tilt"@, c.rig_tilt),
                    or_else(
                        finite_fault("rig_roll"@, c.rig_roll),
                        or_else(
                            finite_fault_single("blend_width"@, c.blend_width),
                            or_else(
                                finite_fault_single(
                                    "lens_correction_amount"@,
                                    c.lens_correction_amount,
                                ),
                                sync_fault(c.sync_offset),
                            ),
                        ),
                    ),
                ),
            ),
        ),
    )
}

/// What a check returns when the first fault is the given one.
pub open spec fn reports(r: Result<(), CalibrationError>, fault: Option<Fault>) -> bool {
    match r {
        Ok(_) => fault is None,
        Err(e) => fault == Some(e@),
    }
}

fn refuse_non_finite(field: &str, nan: bool, neg: bool) -> (e: CalibrationError)
    ensures
        e@ == (Fault::NonFiniteFloat { field: field@, value: non_finite_text(nan, neg) }),
{
    let value: String = if nan {
        String::from_str("NaN")
    } else if neg {
        String::from_str("-inf")
    } else {
        String::from_str("inf")
    };
    CalibrationError::NonFiniteFloat { field: String::from_str(field), value }
}

fn check_finite(field: &str, x: F64) -> (r: Result<(), CalibrationError>)
    ensures
        reports(r, finite_fault(field@, x)),
{
    if x.is_finite() {
        Ok(())
    } else {
        Err(refuse_non_finite(field, x.is_nan(), x.bits >= 0x8000_0000_0000_0000))
    }
}

fn check_finite_single(field: &str, x: F32) -> (r: Result<(), CalibrationError>)
    ensures
        reports(r, finite_fault_single(field@, x)),
{
    if x.is_finite() {
        Ok(())
    } else {
        Err(refuse_non_finite(field, x.is_nan(), x.bits >= 0x8000_0000))
    }
}

fn check_focal(field: &'static str, x: F64) -> (r: Result<(), CalibrationError>)
    ensures
        reports(r, focal_fault(field@, x)),
{
    let epsilon: F64 = F64::from_bits(EPSILON);
    if !x.is_finite() {
        check_finite(field, x)
    } else if x.le(epsilon) {
        Err(CalibrationError::FocalLengthTooSmall { field, value: x, epsilon })
    } else {
        Ok(())
    }
}

/// The names under which the values of one camera are reported.
struct FieldNames {
    camera: &'static str,
    fx: &'static str,
    fy: &'static str,
    cx: &'static str,
    cy: &'static str,
    d: [&'static str; 4],
}

impl FieldNames {
    spec fn of(self, camera: Seq<char>) -> bool {
        &&& self.camera@ == camera
        &&& self.fx@ == camera + ".fx"@
        &&& self.fy@ == camera + ".fy"@
        &&& self.cx@ == camera + ".cx"@
        &&& self.cy@ == camera + ".cy"@
        &&& self.d@[0]@ == camera + ".d[0]"@
        &&& self.d@[1]@ == camera + ".d[1]"@
        &&& self.d@[2]@ == camera + ".d[2]"@
        &&& self.d@[3]@ == camera + ".d[3]"@
    }
}

fn left_names() -> (r: FieldNames)
    ensures
        r.of("left"@),
{
    proof {
        reveal_strlit("left");
        reveal_strlit("left.fx");
        reveal_strlit("left.fy");
        reveal_strlit("left.cx");
        reveal_strlit("left.cy");
        reveal_strlit("left.d[0]");
        reveal_strlit("left.d[1]");
        reveal_strlit("left.d[2]");
        reveal_strlit("left.d[3]");
        reveal_strlit(".fx");
        reveal_strlit(".fy");
        reveal_strlit(".cx");
        reveal_strlit(".cy");
        reveal_strlit(".d[0]");
        reveal_strlit(".d[1]");
        reveal_strlit(".d[2]");
        reveal_strlit(".d[3]");
        assert("left.fx"@ =~= "left"@ + ".fx"@);
        assert("left.fy"@ =~= "left"@ + ".fy"@);
        assert("left.cx"@ =~= "left"@ + ".cx"@);
        assert("left.cy"@ =~= "left"@ + ".cy"@);
        assert("left.d[0]"@ =~= "left"@ + ".d[0]"@);
        assert("left.d[1]"@ =~= "left"@ + ".d[1]"@);
        assert("left.d[2]"@ =~= "left"@ + ".d[2]"@);
        assert("left.d[3]"@ =~= "left"@ + ".d[3]"@);
    }
    FieldNames {
        camera: "left",
        fx: "left.fx",
        fy: "left.fy",
        cx: "left.cx",
        cy: "left.cy",
        d: ["left.d[0]", "left.d[1]", "left.d[2]", "left.d[3]"],
    }
}

fn right_names() -> (r: FieldNames)
    ensures
        r.of("right"@),
{
    proof {
        reveal_strlit("right");
        reveal_strlit("right.fx");
        reveal_strlit("right.fy");
        reveal_strlit("right.cx");
        reveal_strlit("right.cy");
        reveal_strlit("right.d[0]");
        reveal_strlit("right.d[1]");
        reveal_strlit("right.d[2]");
        reveal_strlit("right.d[3]");
        reveal_strlit(".fx");
        reveal_strlit(".fy");
        reveal_strlit(".cx");
        reveal_strlit(".cy");
        reveal_strlit(".d[0]");
        reveal_strlit(".d[1]");
        reveal_strlit(".d[2]");
        reveal_strlit(".d[3]");
        assert("right.fx"@ =~= "right"@ + ".fx"@);
        assert("right.fy"@ =~= "right"@ + ".fy"@);
        assert("right.cx"@ =~= "right"@ + ".cx"@);
        assert("right.cy"@ =~= "right"@ + ".cy"@);
        assert("right.d[0]"@ =~= "right"@ + ".d[0]"@);
        assert("right.d[1]"@ =~= "right"@ + ".d[1]"@);
        assert("right.d[2]"@ =~= "right"@ + ".d[2]"@);
        assert("right.d[3]"@ =~= "right"@ + ".d[3]"@);
    }
    FieldNames {
        camera: "right",
        fx: "right.fx",
        fy: "right.fy",
        cx: "right.cx",
        cy: "right.cy",
        d: ["right.d[0]", "right.d[1]", "right.d[2]", "right.d[3]"],
    }
}

/// Checks one camera.
fn validate_camera_params(p: &CameraParams, names: &FieldNames, camera: Ghost<Seq<char>>) -> (r:
    Result<(), CalibrationError>)
    requires
        names.of(camera@),
    ensures
        reports(r, camera_fault(*p, camera@)),
{
    if p.width == 0 {
        return Err(
            CalibrationError::ZeroDimension { camera: names.camera, field: "width", value: p.width },
        );
    }
    if p.height == 0 {
        return Err(
            CalibrationError::ZeroDimension {
                camera: names.camera,
                field: "height",
                value: p.height,
            },
        );
    }
    if p.width > MAX_DIM {
        return Err(
            CalibrationError::DimensionTooLarge {
                camera: names.camera,
                field: "width",
                value: p.width,
                max: MAX_DIM,
            },
        );
    }
    if p.height > MAX_DIM {
        return Err(
            CalibrationError::DimensionTooLarge {
                camera: names.camera,
                field: "height",
                value: p.height,
                max: MAX_DIM,
            },
        );
    }
    check_focal(names.fx, p.fx)?;
    check_focal(names.fy, p.fy)?;
    check_finite(names.cx, p.cx)?;
    check_finite(names.cy, p.cy)?;
    check_finite(names.d[0], p.d[0])?;
    check_finite(names.d[1], p.d[1])?;
    check_finite(names.d[2], p.d[2])?;
    check_finite(names.d[3], p.d[3])
}

/// Checks the plane layout.
fn validate_layout(l: &PlaneLayout) -> (r: Result<(), CalibrationError>)
    ensures
        reports(r, layout_fault(*l)),
{
    check_finite("params.cameraAxisOffset", l.camera_axis_offset)?;
    let epsilon: F64 = F64::from_bits(EPSILON);
    if l.camera_axis_offset.le(epsilon) {
        return Err(CalibrationError::AxisOffsetTooSmall { value: l.camera_axis_offset, epsilon });
    }
    check_finite("params.intersect", l.intersect)?;
    if !(F64::from_bits(0).le(l.intersect) && l.intersect.le(F64::from_bits(UNITY))) {
        return Err(CalibrationError::IntersectOutOfRange { value: l.intersect });
    }
    check_finite("params.xTy", l.x_ty)?;
    check_finite("params.xRz", l.x_rz)?;
    check_finite("params.xRx", l.x_rx)?;
    check_finite("params.zRx", l.z_rx)?;
    check_finite("params.zRz", l.z_rz)
}

/// The calibration that stands in where a single camera has none.
pub open spec fn placeholder_camera() -> CameraParams {
    CameraParams {
        width: 1920,
        height: 1080,
        fx: F64 { bits: 0x408C_2000_0000_0000 },
        fy: F64 { bits: 0x408C_2000_0000_0000 },
        cx: F64 { bits: 0x408E_0000_0000_0000 },
        cy: F64 { bits: 0x4080_E000_0000_0000 },
        d: [F64 { bits: 0 }, F64 { bits: 0 }, F64 { bits: 0 }, F64 { bits: 0 }],
    }
}

/// The calibration that stands in where there is none of two cameras.
pub open spec fn placeholder_calibration() -> MatchCalibration {
    MatchCalibration {
        left: placeholder_camera(),
        right: placeholder_camera(),
        layout: placeholder_layout(),
        rig_tilt: F64 { bits: 0 },
        rig_roll: F64 { bits: 0 },
        sync_offset: 0,
        field_roi: None,
        lens_correction_amount: F32 { bits: 0x3F80_0000 },
        blend_width: F32 { bits: 0x3D4C_CCCD },
    }
}

/// The layout that stands in where a single camera has none.
pub open spec fn placeholder_layout() -> PlaneLayout {
    PlaneLayout {
        camera_axis_offset: F64 { bits: 0x3FCE_B851_EB85_1EB8 },
        intersect: F64 { bits: 0x3FE1_47AE_147A_E148 },
        x_ty: F64 { bits: 0 },
        x_rz: F64 { bits: 0 },
        z_rx: F64 { bits: 0 },
        x_rx: F64 { bits: 0 },
        z_rz: F64 { bits: 0 },
    }
}

impl MatchCalibration {
    /// A calibration that passes every check and means nothing: for callers
    /// that must hand one over and have a single camera.
    pub fn mono_placeholder() -> (r: Self)
        ensures
            r == placeholder_calibration(),
            calibration_fault(r) is None,
    {
        let zero: F64 = F64::from_bits(0);
        let camera: CameraParams = CameraParams {
            width: 1920,
            height: 1080,
            fx: F64::from_bits(0x408C_2000_0000_0000),
            fy: F64::from_bits(0x408C_2000_0000_0000),
            cx: F64::from_bits(0x408E_0000_0000_0000),
            cy: F64::from_bits(0x4080_E000_0000_0000),
            d: [zero, zero, zero, zero],
        };
        let layout: PlaneLayout = PlaneLayout {
            camera_axis_offset: F64::from_bits(0x3FCE_B851_EB85_1EB8),
            intersect: F64::from_bits(0x3FE1_47AE_147A_E148),
            x_ty: zero,
            x_rz: zero,
            z_rx: zero,
            x_rx: zero,
            z_rz: zero,
        };
        MatchCalibration {
            left: camera,
            right: camera,
            layout,
            rig_tilt: zero,
            rig_roll: zero,
            sync_offset: 0,
            field_roi: None,
            lens_correction_amount: F32::from_bits(0x3F80_0000),
            blend_width: F32::from_bits(0x3D4C_CCCD),
        }
    }

    /// Checks every value, and reports the first fault.
    pub fn validate(&self) -> (r: Result<(), CalibrationError>)
        ensures
            reports(r, calibration_fault(*self)),
    {
        let left: FieldNames = left_names();
        validate_camera_params(&self.left, &left, Ghost("left"@))?;
        let right: FieldNames = right_names();
        validate_camera_params(&self.right, &right, Ghost("right"@))?;
        validate_layout(&self.layout)?;
        check_finite("rig_tilt", self.rig_tilt)?;
        check_finite("rig_roll", self.rig_roll)?;
        check_finite_single("blend_width", self.blend_width)?;
        check_finite_single("lens_correction_amount", self.lens_correction_amount)?;
        if self.sync_offset < -MAX_SYNC_OFFSET_FRAMES || self.sync_offset > MAX_SYNC_OFFSET_FRAMES {
            return Err(
                CalibrationError::SyncOffsetOutOfRange {
                    value: self.sync_offset,
                    min: -MAX_SYNC_OFFSET_FRAMES,
                    max: MAX_SYNC_OFFSET_FRAMES,
                },
            );
        }
        Ok(())
    }
}

/// Why a calibration file is refused.
#[derive(Clone, Debug)]
pub enum CalibrationLoadError {
    /// The file could not be read: its path, and what the system said.
    Io { path: String, source: String },
    /// The file is longer than `MAX_CALIBRATION_FILE_SIZE`.
    TooLarge { size: u64, max: u64 },
    /// The file is not the JSON that was expected.
    Parse(String),
    /// The values are refused.
    Invalid(CalibrationError),
}

impl MatchCalibration {
    /// Whether a file of this many bytes is read at all.
    pub fn accept_size(size: u64) -> (r: Result<(), CalibrationLoadError>)
        ensures
            size <= MAX_CALIBRATION_FILE_SIZE ==> r is Ok,
            size > MAX_CALIBRATION_FILE_SIZE ==> r == Err::<(), CalibrationLoadError>(
                CalibrationLoadError::TooLarge { size, max: MAX_CALIBRATION_FILE_SIZE },
            ),
    {
        if size > MAX_CALIBRATION_FILE_SIZE {
            Err(CalibrationLoadError::TooLarge { size, max: MAX_CALIBRATION_FILE_SIZE })
        } else {
            Ok(())
        }
    }

    /// A parsed file as a calibration: what the parser said, or the first
    /// fault, or the calibration as it is.
    pub fn accept_parsed(parsed: Result<MatchCalibration, String>) -> (r: Result<
        MatchCalibration,
        CalibrationLoadError,
    >)
        ensures
            match parsed {
                Err(message) => r == Err::<MatchCalibration, CalibrationLoadError>(
                    CalibrationLoadError::Parse(message),
                ),
                Ok(c) => match calibration_fault(c) {
                    None => r == Ok::<MatchCalibration, CalibrationLoadError>(c),
                    Some(fault) => r matches Err(CalibrationLoadError::Invalid(e)) && e@ == fault,
                },
            },
    {
        match parsed {
            Err(message) => Err(CalibrationLoadError::Parse(message)),
            Ok(c) => match c.validate() {
                Ok(_) => Ok(c),
                Err(e) => Err(CalibrationLoadError::Invalid(e)),
            },
        }
    }
}

} // verus!
