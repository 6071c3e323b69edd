//! What a renderer is set up with, and what it is told for each frame.
use crate::calibration::{CameraParams, MatchCalibration, MAX_DIM};
use crate::projection::CylindricalProjectionConfig;
use crate::single::F32;
use crate::text::{decimal, push_decimal};
use vstd::prelude::*;
use vstd::string::StringExecFns;

verus! {

/// The picture that is rendered.
#[derive(Clone, Copy, Debug, PartialEq, Eq, Structural)]
pub struct ViewportConfig {
    pub width: u32,
    pub height: u32,
    /// The vertical angle of view.
    pub fov_degrees: F32,
    /// The width of the seam.
    pub blend_width: F32,
    /// Forward lean of the rig, in radians.
    pub rig_tilt: F32,
    /// Sideways lean of the rig, in radians.
    pub rig_roll: F32,
    pub lens_correction_amount: F32,
}

impl ViewportConfig {
    /// Width over height.
    pub open spec fn ratio(self) -> F32 {
        F32::of_whole(self.width as nat).over(F32::of_whole(self.height as nat))
    }

    /// Width over height.
    pub fn aspect_ratio(&self) -> (r: F32)
        ensures
            r == self.ratio(),
    {
        F32::from_whole(self.width as u64).div(F32::from_whole(self.height as u64))
    }
}

/// How the pixels of a camera's frame are laid out.
#[derive(Clone, Copy, Debug, PartialEq, Eq, Structural)]
pub enum InputFormat {
    Yuv420p,
    Nv12,
    Bgra,
}

/// How the pixels of the rendered picture are laid out.
#[derive(Clone, Copy, Debug, PartialEq, Eq, Structural)]
pub enum OutputFormat {
    Rgba8Unorm,
    Rgba8UnormSrgb,
    Bgra8UnormSrgb,
}

/// Why a renderer cannot be set up.
#[derive(Clone, Debug)]
pub enum PipelineError {
    InvalidConfig { reason: String },
}

/// A renderer for two cameras. `G` is what the graphics processor is reached
/// through.
pub struct StitchPipeline<G> {
    pub gpu: G,
    pub gpu_name: String,
    pub calibration: MatchCalibration,
    pub viewport: ViewportConfig,
    pub input_width: u32,
    pub input_height: u32,
}

impl<G> StitchPipeline<G> {
    /// What the graphics processor is reached through.
    pub fn gpu(&self) -> (r: &G)
        ensures
            *r == self.gpu,
    {
        &self.gpu
    }

    /// The name of the graphics processor.
    pub fn gpu_name(&self) -> (r: &str)
        ensures
            r@ == self.gpu_name@,
    {
        self.gpu_name.as_str()
    }

    /// The calibration in use.
    pub fn calibration(&self) -> (r: &MatchCalibration)
        ensures
            *r == self.calibration,
    {
        &self.calibration
    }

    /// The picture that is rendered.
    pub fn viewport(&self) -> (r: &ViewportConfig)
        ensures
            *r == self.viewport,
    {
        &self.viewport
    }

    /// The vertical angle of view.
    pub fn fov(&self) -> (r: F32)
        ensures
            r == self.viewport.fov_degrees,
    {
        self.viewport.fov_degrees
    }

    /// Changes the angle of view.
    pub fn set_fov(&mut self, fov_degrees: F32)
        ensures
            *final(self) == (StitchPipeline {
                viewport: ViewportConfig { fov_degrees, ..old(self).viewport },
                ..*old(self)
            }),
    {
        self.viewport.fov_degrees = fov_degrees;
    }

    /// Changes the calibration.
    pub fn update_calibration(&mut self, calibration: MatchCalibration)
        ensures
            *final(self) == (StitchPipeline { calibration, ..*old(self) }),
    {
        self.calibration = calibration;
    }

    /// The width and height of the cameras' frames.
    pub fn source_info(&self) -> (r: (u32, u32))
        ensures
            r == (self.input_width, self.input_height),
    {
        (self.input_width, self.input_height)
    }
}

/// The lens of a camera, and how far it is trusted.
#[derive(Clone, Copy, Debug)]
pub struct MonoLens {
    pub camera: CameraParams,
    /// The greatest angle to the axis, in radians.
    pub max_theta_rad: F32,
}

/// A renderer for one camera. Frames are drawn on a cylinder; the lens says what
/// part of the panorama they cover.
pub struct MonoPipeline<G> {
    pub gpu: G,
    pub gpu_name: String,
    pub config: CylindricalProjectionConfig,
    pub lens: MonoLens,
    pub viewport: ViewportConfig,
    pub input_width: u32,
    pub input_height: u32,
    pub input_format: InputFormat,
}

/// Why frames of the given size are refused.
pub open spec fn size_refusal(width: u32, height: u32) -> Option<Seq<char>> {
    let size = decimal(width as nat) + "x"@ + decimal(height as nat);
    if width == 0 || height == 0 {
        Some("input dimensions must be > 0, got "@ + size)
    } else if width > MAX_DIM || height > MAX_DIM {
        Some("input dimensions "@ + size + " exceed MAX_DIM ("@ + decimal(MAX_DIM as nat) + ")"@)
    } else {
        None
    }
}

/// Appends a width and a height.
pub(crate) fn push_size(s: &mut String, width: u32, height: u32)
    ensures
        final(s)@ == old(s)@ + (decimal(width as nat) + "x"@ + decimal(height as nat)),
{
    push_decimal(s, width as u64);
    s.append("x");
    push_decimal(s, height as u64);
    assert(s@ =~= old(s)@ + (decimal(width as nat) + "x"@ + decimal(height as nat)));
}

impl<G> MonoPipeline<G> {
    /// A renderer, unless the picture or the frames have an impossible size.
    /// `viewport_valid` says whether the picture is possible, and if not, why.
    pub fn with_gpu(
        gpu: G,
        gpu_name: String,
        config: CylindricalProjectionConfig,
        lens: MonoLens,
        viewport: ViewportConfig,
        viewport_valid: Result<(), String>,
        input_width: u32,
        input_height: u32,
        input_format: InputFormat,
    ) -> (r: Result<Self, PipelineError>)
        ensures
            match (viewport_valid, size_refusal(input_width, input_height)) {
                (Err(e), _) => r matches Err(PipelineError::InvalidConfig { reason }) && reason@
                    == e@,
                (Ok(_), Some(why)) => r matches Err(PipelineError::InvalidConfig { reason })
                    && reason@ == why,
                (Ok(_), None) => r == Ok::<MonoPipeline<G>, PipelineError>(
                    MonoPipeline {
                        gpu,
                        gpu_name,
                        config,
                        lens,
                        viewport,
                        input_width,
                        input_height,
                        input_format,
                    },
                ),
            },
    {
        if let Err(e) = viewport_valid {
            return Err(PipelineError::InvalidConfig { reason: e });
        }
        if input_width == 0 || input_height == 0 {
            let mut reason: String = String::from_str("input dimensions must be > 0, got ");
            push_size(&mut reason, input_width, input_height);
            return Err(PipelineError::InvalidConfig { reason });
        }
        if input_width > MAX_DIM || input_height > MAX_DIM {
            let mut reason: String = String::from_str("input dimensions ");
            push_size(&mut reason, input_width, input_height);
            reason.append(" exceed MAX_DIM (");
            push_decimal(&mut reason, MAX_DIM as u64);
            reason.append(")");
            return Err(PipelineError::InvalidConfig { reason });
        }
        Ok(
            MonoPipeline {
                gpu,
                gpu_name,
                config,
                lens,
                viewport,
                input_width,
                input_height,
                input_format,
            },
        )
    }

    /// The name of the graphics processor.
    pub fn gpu_name(&self) -> (r: &str)
        ensures
            r@ == self.gpu_name@,
    {
        self.gpu_name.as_str()
    }

    /// What the graphics processor is reached through.
    pub fn gpu(&self) -> (r: &G)
        ensures
            *r == self.gpu,
    {
        &self.gpu
    }

    /// The cylinder that is rendered.
    pub fn projection_config(&self) -> (r: &CylindricalProjectionConfig)
        ensures
            *r == self.config,
    {
        &self.config
    }

    /// The camera's lens, and how far it is trusted.
    pub fn lens(&self) -> (r: &MonoLens)
        ensures
            *r == self.lens,
    {
        &self.lens
    }

    /// The picture that is rendered.
    pub fn viewport(&self) -> (r: &ViewportConfig)
        ensures
            *r == self.viewport,
    {
        &self.viewport
    }

    /// The vertical angle of view.
    pub fn fov(&self) -> (r: F32)
        ensures
            r == self.viewport.fov_degrees,
    {
        self.viewport.fov_degrees
    }

    /// Changes the angle of view.
    pub fn set_fov(&mut self, fov_degrees: F32)
        ensures
            *final(self) == (MonoPipeline {
                viewport: ViewportConfig { fov_degrees, ..old(self).viewport },
                ..*old(self)
            }),
    {
        self.viewport.fov_degrees = fov_degrees;
    }

    /// The width and height of the camera's frames.
    pub fn source_info(&self) -> (r: (u32, u32))
        ensures
            r == (self.input_width, self.input_height),
    {
        (self.input_width, self.input_height)
    }

    /// What the shader is told besides the view: the cylinder, the angle of
    /// view, the picture's shape, and whether two of the planes are one.
    pub open spec fn settings(self) -> Seq<F32> {
        seq![
            self.config.focal_length,
            self.config.angular_sweep_rad,
            self.config.screen_rotation_rad,
            self.config.video_height,
            self.viewport.fov_degrees.radians(),
            self.viewport.ratio(),
            if self.input_format == InputFormat::Nv12 {
                F32 { bits: 0x3F80_0000 }
            } else {
                F32 { bits: 0 }
            },
            F32 { bits: 0 },
        ]
    }

    /// The words that the shader is told for a frame: the view matrix by
    /// columns, then the settings.
    pub fn render_to_target(&self, view: [F32; 16]) -> (r: Vec<F32>)
        ensures
            r@ == view@ + self.settings(),
    {
        let mut words: Vec<F32> = Vec::new();
        let mut i: usize = 0;
        while i < 16
            invariant
                i <= 16,
                words@ == view@.take(i as int),
            decreases 16 - i,
        {
            words.push(view[i]);
            assert(view@.take(i + 1) =~= view@.take(i as int).push(view@[i as int]));
            i += 1;
        }
        words.push(self.config.focal_length);
        words.push(self.config.angular_sweep_rad);
        words.push(self.config.screen_rotation_rad);
        words.push(self.config.video_height);
        words.push(self.viewport.fov_degrees.to_radians());
        words.push(self.viewport.aspect_ratio());
        words.push(
            match self.input_format {
                InputFormat::Nv12 => F32::from_bits(0x3F80_0000),
                _ => F32::from_bits(0),
            },
        );
        words.push(F32::from_bits(0));
        assert(words@ =~= view@ + self.settings());
        words
    }
}

/// What the shader is told fills six rows of four words.
pub proof fn law_uniforms_fill_rows<G>(p: MonoPipeline<G>, view: [F32; 16])
    ensures
        (view@ + p.settings()).len() == 24,
        (view@ + p.settings()).len() % 4 == 0,
{
}

} // verus!
