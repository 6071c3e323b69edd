//! Preparing frames for detection models that run on the processor: one kind
//! wants a frame fitted with grey bars, the other wants it stretched.
use crate::labels::texts;
use crate::ort_session::{LoadedModel, SessionError};
use crate::single::F32;
use crate::text::{decimal, push_decimal};
use vstd::prelude::*;
use vstd::string::StringExecFns;

verus! {

/// The bits of the grey around a fitted frame.
pub const GREY: u32 = 0x3EE4_E4E5;

/// The bits of the largest colour value.
pub const FULL: u32 = 0x437F_0000;

/// The bits of one half.
pub const HALF: u32 = 0x3F00_0000;

/// The bits of one.
pub const ONE: u32 = 0x3F80_0000;

/// The bits of two.
pub const TWO: u32 = 0x4000_0000;

/// The bits of the confidence from which a detection counts, where none is
/// given.
pub const DEFAULT_CONFIDENCE: u32 = 0x3DCC_CCCD;

/// The bits of the mean of each colour in the pictures that a transformer was
/// trained on.
pub const MEAN: [u32; 3] = [0x3EF8_51EC, 0x3EE9_78D5, 0x3ECF_DF3B];

/// The bits of the spread of each colour in those pictures.
pub const STD: [u32; 3] = [0x3E6A_7EFA, 0x3E65_6042, 0x3E66_6666];

/// A frame in colours, row by row.
#[derive(Clone, Debug)]
pub struct Picture {
    pub width: u32,
    pub height: u32,
    /// Red, green and blue, each up to 255.
    pub rgb: Vec<[F32; 3]>,
}

impl Picture {
    /// There is a colour for each pixel, and at least one pixel.
    pub open spec fn wf(self) -> bool {
        &&& self.width >= 1
        &&& self.height >= 1
        &&& self.rgb@.len() == self.width * self.height
    }

    /// One colour of a pixel.
    pub open spec fn at(self, x: int, y: int, channel: int) -> F32 {
        self.rgb@[y * self.width + x]@[channel]
    }

    fn get(&self, x: u32, y: u32, channel: usize) -> (r: F32)
        requires
            self.wf(),
            x < self.width,
            y < self.height,
            channel < 3,
        ensures
            r == self.at(x as int, y as int, channel as int),
    {
        let n: usize = self.rgb.len();
        proof {
            assert(y * self.width + x < self.width * self.height) by (nonlinear_arith)
                requires
                    x < self.width,
                    y < self.height,
            ;
            assert(0 <= y * self.width) by (nonlinear_arith)
                requires
                    0 <= y,
                    0 <= self.width,
            ;
            assert(y * self.width + x < n);
        }
        self.rgb[y as usize * self.width as usize + x as usize][channel]
    }
}

/// Where in the frame a pixel of the model's input comes from, along one axis:
/// two neighbours, and how far towards the second.
#[derive(Clone, Copy, Debug, PartialEq, Eq, Structural)]
pub struct Tap {
    pub first: u32,
    pub second: u32,
    pub share: F32,
}

/// The lesser of two numbers.
pub open spec fn least(a: u32, b: u32) -> u32 {
    if a < b {
        a
    } else {
        b
    }
}

/// The neighbours of a place along an axis of the given extent.
pub open spec fn neighbours(from: u32, share: F32, extent: u32) -> Tap {
    let last = (extent - 1) as u32;
    let first = least(from, last);
    Tap { first, second: least((first + 1) as u32, last), share }
}

fn make_tap(from: u32, share: F32, extent: u32) -> (r: Tap)
    requires
        extent >= 1,
    ensures
        r == neighbours(from, share, extent),
        r.first < extent,
        r.second < extent,
{
    let last: u32 = extent - 1;
    let first: u32 = if from < last {
        from
    } else {
        last
    };
    let next: u32 = if first < last {
        first + 1
    } else {
        last
    };
    Tap { first, second: next, share }
}

/// One colour between four neighbouring pixels.
pub open spec fn blended(p: Picture, x: Tap, y: Tap, channel: int) -> F32 {
    let one = F32 { bits: ONE };
    let a = p.at(x.first as int, y.first as int, channel);
    let b = p.at(x.second as int, y.first as int, channel);
    let c = p.at(x.first as int, y.second as int, channel);
    let d = p.at(x.second as int, y.second as int, channel);
    a.times(one.minus(x.share)).times(one.minus(y.share)).plus(
        b.times(x.share).times(one.minus(y.share)),
    ).plus(c.times(one.minus(x.share)).times(y.share)).plus(d.times(x.share).times(y.share))
}

fn blend(p: &Picture, x: Tap, y: Tap, channel: usize) -> (r: F32)
    requires
        p.wf(),
        x.first < p.width,
        x.second < p.width,
        y.first < p.height,
        y.second < p.height,
        channel < 3,
    ensures
        r == blended(*p, x, y, channel as int),
{
    let one = F32::from_bits(ONE);
    let a = p.get(x.first, y.first, channel);
    let b = p.get(x.second, y.first, channel);
    let c = p.get(x.first, y.second, channel);
    let d = p.get(x.second, y.second, channel);
    let far_x = one.sub(x.share);
    let far_y = one.sub(y.share);
    let upper = a.mul(far_x).mul(far_y).add(b.mul(x.share).mul(far_y));
    upper.add(c.mul(far_x).mul(y.share)).add(d.mul(x.share).mul(y.share))
}

/// How a frame is fitted into a square: its scale, its size there, and the bars
/// beside and above it.
#[derive(Clone, Copy, Debug, PartialEq, Eq, Structural)]
pub struct Letterbox {
    pub scale: F32,
    pub width: u32,
    pub height: u32,
    pub pad_x: F32,
    pub pad_y: F32,
}

/// The scale at which a frame just fits into a square.
pub open spec fn fitting_scale(width: u32, height: u32, size: u32) -> F32 {
    let s = F32::of_whole(size as nat);
    s.over(F32::of_whole(width as nat)).lesser(s.over(F32::of_whole(height as nat)))
}

/// A length at a scale, rounded.
pub open spec fn scaled(extent: u32, scale: F32) -> F32 {
    F32::of_whole(extent as nat).times(scale).rounded()
}

/// How a frame is fitted into a square.
pub open spec fn fitted(width: u32, height: u32, size: u32) -> Letterbox {
    let scale = fitting_scale(width, height, size);
    let w = scaled(width, scale).before_point();
    let h = scaled(height, scale).before_point();
    let two = F32 { bits: TWO };
    Letterbox {
        scale,
        width: w,
        height: h,
        pad_x: F32::of_whole((size - w) as nat).over(two),
        pad_y: F32::of_whole((size - h) as nat).over(two),
    }
}

/// The frame and its bars do not reach beyond the square.
pub open spec fn fits(width: u32, height: u32, size: u32) -> bool {
    let scale = fitting_scale(width, height, size);
    let b = fitted(width, height, size);
    &&& scaled(width, scale).before_point() <= size
    &&& scaled(height, scale).before_point() <= size
    &&& b.pad_x.before_point() + b.width <= size
    &&& b.pad_y.before_point() + b.height <= size
}

/// Whether a frame and its bars do not reach beyond the square.
pub fn check_fit(width: u32, height: u32, size: u32) -> (r: bool)
    ensures
        r == fits(width, height, size),
{
    let (fw, fh) = (F32::from_whole(width as u64), F32::from_whole(height as u64));
    let s = F32::from_whole(size as u64);
    let scale = s.div(fw).min(s.div(fh));
    let w = fw.mul(scale).round().truncate_to_u32();
    let h = fh.mul(scale).round().truncate_to_u32();
    if w > size || h > size {
        return false;
    }
    let b = Letterbox {
        scale,
        width: w,
        height: h,
        pad_x: F32::from_whole((size - w) as u64).div(F32::from_bits(TWO)),
        pad_y: F32::from_whole((size - h) as u64).div(F32::from_bits(TWO)),
    };
    let pad_x: u32 = b.pad_x.truncate_to_u32();
    let pad_y: u32 = b.pad_y.truncate_to_u32();
    pad_x as u64 + w as u64 <= size as u64 && pad_y as u64 + h as u64 <= size as u64
}

/// How a frame is fitted into a square.
pub fn letterbox(width: u32, height: u32, size: u32) -> (r: Letterbox)
    requires
        fits(width, height, size),
    ensures
        r == fitted(width, height, size),
{
    let (fw, fh) = (F32::from_whole(width as u64), F32::from_whole(height as u64));
    let s = F32::from_whole(size as u64);
    let scale = s.div(fw).min(s.div(fh));
    let w = fw.mul(scale).round().truncate_to_u32();
    let h = fh.mul(scale).round().truncate_to_u32();
    let two = F32::from_bits(TWO);
    Letterbox {
        scale,
        width: w,
        height: h,
        pad_x: F32::from_whole((size - w) as u64).div(two),
        pad_y: F32::from_whole((size - h) as u64).div(two),
    }
}

/// The scale and the bars of a frame that was fitted elsewhere.
pub open spec fn fitted_elsewhere(width: u32, height: u32, size: u32) -> (F32, F32, F32) {
    let scale = fitting_scale(width, height, size);
    let s = F32::of_whole(size as nat);
    let two = F32 { bits: TWO };
    (
        scale,
        s.minus(scaled(width, scale)).over(two),
        s.minus(scaled(height, scale)).over(two),
    )
}

/// The scale and the bars of a frame that was fitted elsewhere.
pub fn letterbox_params(width: u32, height: u32, size: u32) -> (r: (F32, F32, F32))
    ensures
        r == fitted_elsewhere(width, height, size),
{
    let (fw, fh) = (F32::from_whole(width as u64), F32::from_whole(height as u64));
    let s = F32::from_whole(size as u64);
    let scale = s.div(fw).min(s.div(fh));
    let two = F32::from_bits(TWO);
    (scale, s.sub(fw.mul(scale).round()).div(two), s.sub(fh.mul(scale).round()).div(two))
}

/// Where a pixel of a fitted frame comes from, along one axis.
pub open spec fn fitted_tap(d: int, scale: F32, extent: u32) -> Tap {
    let from = F32::of_whole(d as nat).over(scale);
    neighbours(from.floored().before_point(), from.minus(from.floored()), extent)
}

fn make_fitted_tap(d: u32, scale: F32, extent: u32) -> (r: Tap)
    requires
        extent >= 1,
    ensures
        r == fitted_tap(d as int, scale, extent),
        r.first < extent,
        r.second < extent,
{
    let from = F32::from_whole(d as u64).div(scale);
    let low = from.floor();
    make_tap(low.truncate_to_u32(), from.sub(low), extent)
}

/// Entry `i` of the model's input for a fitted frame: colour by colour, row by
/// row, grey where the frame does not reach.
pub open spec fn fitted_entry(p: Picture, size: u32, i: int) -> F32 {
    let b = fitted(p.width, p.height, size);
    let plane = size * size;
    let channel = i / plane;
    let y = (i % plane) / size as int - b.pad_y.before_point();
    let x = (i % plane) % size as int - b.pad_x.before_point();
    if 0 <= x < b.width && 0 <= y < b.height {
        blended(
            p,
            fitted_tap(x, b.scale, p.width),
            fitted_tap(y, b.scale, p.height),
            channel,
        ).over(F32 { bits: FULL })
    } else {
        F32 { bits: GREY }
    }
}

/// Where a pixel of a stretched frame comes from, along one axis.
pub open spec fn stretched_tap(d: int, extent: u32, size: u32) -> Tap {
    let half = F32 { bits: HALF };
    let zero = F32 { bits: 0 };
    let scale = F32::of_whole(extent as nat).over(F32::of_whole(size as nat));
    let from = F32::of_whole(d as nat).plus(half).times(scale).minus(half);
    neighbours(
        from.floored().greater(zero).before_point(),
        from.minus(from.floored()).clamped(zero, F32 { bits: ONE }),
        extent,
    )
}

fn make_stretched_tap(d: u32, extent: u32, size: u32) -> (r: Tap)
    requires
        extent >= 1,
    ensures
        r == stretched_tap(d as int, extent, size),
        r.first < extent,
        r.second < extent,
{
    let half = F32::from_bits(HALF);
    let zero = F32::from_bits(0);
    let scale = F32::from_whole(extent as u64).div(F32::from_whole(size as u64));
    let from = F32::from_whole(d as u64).add(half).mul(scale).sub(half);
    let low = from.floor();
    let share = from.sub(low).clamp(zero, F32::from_bits(ONE));
    make_tap(low.max(zero).truncate_to_u32(), share, extent)
}

/// Entry `i` of the model's input for a stretched frame: colour by colour, row
/// by row, relative to the mean and spread of that colour.
pub open spec fn stretched_entry(p: Picture, size: u32, i: int) -> F32 {
    let plane = size * size;
    let channel = i / plane;
    let y = (i % plane) / size as int;
    let x = (i % plane) % size as int;
    blended(
        p,
        stretched_tap(x, p.width, size),
        stretched_tap(y, p.height, size),
        channel,
    ).over(F32 { bits: FULL }).minus(F32 { bits: MEAN@[channel] }).over(
        F32 { bits: STD@[channel] },
    )
}

/// An entry's channel, row and column.
fn locate(i: usize, size: usize) -> (r: (usize, usize, usize))
    requires
        size * size <= usize::MAX,
        i < 3 * (size * size),
    ensures
        r.0 == i as int / (size * size),
        r.1 == (i as int % (size * size)) / size as int,
        r.2 == (i as int % (size * size)) % size as int,
        r.0 < 3,
        r.1 < size,
        r.2 < size,
{
    let plane: usize = size * size;
    let channel: usize = i / plane;
    let o: usize = i % plane;
    proof {
        vstd::arithmetic::div_mod::lemma_fundamental_div_mod(i as int, plane as int);
        assert(channel < 3) by (nonlinear_arith)
            requires
                i == plane * channel + i as int % plane as int,
                0 <= i as int % plane as int,
                i < 3 * plane,
                plane > 0,
        ;
        vstd::arithmetic::div_mod::lemma_fundamental_div_mod(o as int, size as int);
        let q = o as int / size as int;
        let rest = o as int % size as int;
        assert(q < size) by (nonlinear_arith)
            requires
                o == size * q + rest,
                0 <= rest,
                o < size * size,
                size > 0,
        ;
    }
    (channel, o / size, o % size)
}

/// Why a detector cannot look at a frame.
#[derive(Clone, Debug)]
pub enum DetectorError {
    /// The frame is not in the processor's memory.
    UnsupportedFrameKind,
    /// The model could not be run.
    InferenceFailed(String),
}

/// A frame to look at.
pub enum DetectorFrame {
    /// In colours.
    Cpu(Picture),
    /// Already prepared for a model of the given input size.
    PreprocessedChw { data: Vec<F32>, input_size: u32, src_width: u32, src_height: u32 },
    /// In the memory of another device.
    Elsewhere,
}

/// How the detections of a fitted frame lead back to it.
#[derive(Clone, Copy, Debug, PartialEq, Eq, Structural)]
pub struct Unfit {
    pub scale: F32,
    pub pad_x: F32,
    pub pad_y: F32,
    pub src_width: u32,
    pub src_height: u32,
}

/// How a model's outputs are read.
#[derive(Clone, Copy, Debug, PartialEq, Eq, Structural)]
pub enum Decoder {
    /// One output of boxes that were already sorted out.
    EndToEnd,
    /// The first of several outputs, of boxes that were not.
    RawBoxes,
}

/// How outputs are read: by how many there are.
pub fn decoder_for(outputs: usize) -> (r: Decoder)
    ensures
        r == (if outputs > 1 {
            Decoder::RawBoxes
        } else {
            Decoder::EndToEnd
        }),
{
    if outputs > 1 {
        Decoder::RawBoxes
    } else {
        Decoder::EndToEnd
    }
}

/// What is said of an input of the wrong length.
pub open spec fn wrong_length(expected: nat, got: nat) -> Seq<char> {
    "PreprocessedChw: expected "@ + decimal(expected) + " floats, got "@ + decimal(got)
}

fn check_length(data: &Vec<F32>, size: u32) -> (r: Result<(), DetectorError>)
    requires
        3 * (size * size) <= usize::MAX,
    ensures
        if data@.len() == 3 * (size * size) {
            r is Ok
        } else {
            r matches Err(DetectorError::InferenceFailed(e)) && e@ == wrong_length(
                (3 * (size * size)) as nat,
                data@.len(),
            )
        },
{
    let sz: usize = size as usize;
    let expected: usize = 3 * (sz * sz);
    if data.len() != expected {
        let mut e: String = String::from_str("PreprocessedChw: expected ");
        push_decimal(&mut e, expected as u64);
        e.append(" floats, got ");
        push_decimal(&mut e, data.len() as u64);
        Err(DetectorError::InferenceFailed(e))
    } else {
        Ok(())
    }
}

/// A detector whose model wants fitted frames.
pub struct CpuYoloDetector {
    pub input_size: u32,
    pub confidence_threshold: F32,
    pub labels: Vec<String>,
    /// The model's input, used again for each frame.
    pub rgb_chw_buf: Vec<F32>,
}

/// What a detector was asked to prepare can be run.
pub open spec fn can_hold(size: u32) -> bool {
    3 * (size * size) <= usize::MAX
}

impl CpuYoloDetector {
    /// The model's input has three colours of a square.
    pub open spec fn wf(self) -> bool {
        &&& can_hold(self.input_size)
        &&& self.rgb_chw_buf@.len() == 3 * (self.input_size * self.input_size)
    }

    /// A detector for a loaded model, at the usual confidence.
    pub fn from_file(loaded: Result<LoadedModel, SessionError>) -> (r: Result<Self, SessionError>)
        requires
            loaded matches Ok(m) ==> can_hold(m.input_size),
        ensures
            match loaded {
                Ok(m) => {
                    &&& r matches Ok(d)
                    &&& d.wf()
                    &&& d.input_size == m.input_size
                    &&& d.confidence_threshold == (F32 { bits: DEFAULT_CONFIDENCE })
                    &&& texts(d.labels@) == texts(m.labels@)
                    &&& forall|i: int|
                        0 <= i < d.rgb_chw_buf@.len() ==> #[trigger] d.rgb_chw_buf@[i] == (F32 {
                            bits: GREY,
                        })
                },
                Err(e) => r == Err::<CpuYoloDetector, SessionError>(e),
            },
    {
        CpuYoloDetector::with_config(loaded, F32::from_bits(DEFAULT_CONFIDENCE))
    }

    /// A detector for a loaded model.
    pub fn with_config(
        loaded: Result<LoadedModel, SessionError>,
        confidence_threshold: F32,
    ) -> (r: Result<Self, SessionError>)
        requires
            loaded matches Ok(m) ==> can_hold(m.input_size),
        ensures
            match loaded {
                Ok(m) => {
                    &&& r matches Ok(d)
                    &&& d.wf()
                    &&& d.input_size == m.input_size
                    &&& d.confidence_threshold == confidence_threshold
                    &&& texts(d.labels@) == texts(m.labels@)
                    &&& forall|i: int|
                        0 <= i < d.rgb_chw_buf@.len() ==> #[trigger] d.rgb_chw_buf@[i] == (F32 {
                            bits: GREY,
                        })
                },
                Err(e) => r == Err::<CpuYoloDetector, SessionError>(e),
            },
    {
        match loaded {
            Err(e) => Err(e),
            Ok(m) => {
                let buf = filled(m.input_size, F32::from_bits(GREY));
                Ok(
                    CpuYoloDetector {
                        input_size: m.input_size,
                        confidence_threshold,
                        labels: m.labels,
                        rgb_chw_buf: buf,
                    },
                )
            },
        }
    }

    /// What the detector is called.
    pub fn name(&self) -> (r: &'static str)
        ensures
            r@ == "ort-cpu"@,
    {
        "ort-cpu"
    }

    /// The names of the classes, by their numbers.
    pub fn class_names(&self) -> (r: &Vec<String>)
        ensures
            *r == self.labels,
    {
        &self.labels
    }

    /// The side of the square that the model takes.
    pub fn input_size(&self) -> (r: u32)
        ensures
            r == self.input_size,
    {
        self.input_size
    }

    /// Fits a frame into the model's input, and says how detections lead back.
    pub fn preprocess(&mut self, frame: &Picture) -> (r: (F32, F32, F32))
        requires
            old(self).wf(),
            frame.wf(),
            fits(frame.width, frame.height, old(self).input_size),
        ensures
            final(self).wf(),
            final(self).rgb_chw_buf@ == Seq::new(
                (3 * (old(self).input_size * old(self).input_size)) as nat,
                |i: int| fitted_entry(*frame, old(self).input_size, i),
            ),
            *final(self) == (CpuYoloDetector {
                rgb_chw_buf: final(self).rgb_chw_buf,
                ..*old(self)
            }),
            ({
                let b = fitted(frame.width, frame.height, old(self).input_size);
                r == (b.scale, b.pad_x, b.pad_y)
            }),
    {
        let size: u32 = self.input_size;
        let b = letterbox(frame.width, frame.height, size);
        let pad_x: u32 = b.pad_x.truncate_to_u32();
        let pad_y: u32 = b.pad_y.truncate_to_u32();
        let n: usize = self.rgb_chw_buf.len();
        let mut i: usize = 0;
        let ghost before = *self;
        while i < n
            invariant
                i <= n,
                n == 3 * (size * size),
                n == self.rgb_chw_buf@.len(),
                *self == (CpuYoloDetector { rgb_chw_buf: self.rgb_chw_buf, ..before }),
                before.input_size == size,
                frame.wf(),
                fits(frame.width, frame.height, size),
                b == fitted(frame.width, frame.height, size),
                pad_x == b.pad_x.before_point(),
                pad_y == b.pad_y.before_point(),
                forall|k: int|
                    0 <= k < i ==> #[trigger] self.rgb_chw_buf@[k] == fitted_entry(
                        *frame,
                        size,
                        k,
                    ),
            decreases n - i,
        {
            let (channel, row, column) = locate(i, size as usize);
            let inside = column >= pad_x as usize && column < pad_x as usize + b.width as usize
                && row >= pad_y as usize && row < pad_y as usize + b.height as usize;
            let value = if inside {
                let x = make_fitted_tap(column as u32 - pad_x, b.scale, frame.width);
                let y = make_fitted_tap(row as u32 - pad_y, b.scale, frame.height);
                blend(frame, x, y, channel).div(F32::from_bits(FULL))
            } else {
                F32::from_bits(GREY)
            };
            assert(value == fitted_entry(*frame, size, i as int));
            self.rgb_chw_buf.set(i, value);
            i += 1;
        }
        assert(self.rgb_chw_buf@ =~= Seq::new(
            (3 * (size * size)) as nat,
            |k: int| fitted_entry(*frame, size, k),
        ));
        (b.scale, b.pad_x, b.pad_y)
    }

    /// What the model is to be run on: for a frame in colours the detector's own
    /// buffer, filled for it; for a prepared one the data that came with it,
    /// which must be as long as it says. Says how detections lead back.
    pub fn prepare(&mut self, frame: &DetectorFrame) -> (r: Result<Unfit, DetectorError>)
        requires
            old(self).wf(),
            match frame {
                DetectorFrame::Cpu(p) => p.wf() && fits(
                    p.width,
                    p.height,
                    old(self).input_size,
                ),
                DetectorFrame::PreprocessedChw { data, input_size, .. } => can_hold(*input_size),
                DetectorFrame::Elsewhere => true,
            },
        ensures
            final(self).wf(),
            match frame {
                DetectorFrame::Cpu(p) => {
                    let b = fitted(p.width, p.height, old(self).input_size);
                    &&& r == Ok::<Unfit, DetectorError>(
                        Unfit {
                            scale: b.scale,
                            pad_x: b.pad_x,
                            pad_y: b.pad_y,
                            src_width: p.width,
                            src_height: p.height,
                        },
                    )
                    &&& final(self).rgb_chw_buf@ == Seq::new(
                        (3 * (old(self).input_size * old(self).input_size)) as nat,
                        |i: int| fitted_entry(*p, old(self).input_size, i),
                    )
                    &&& *final(self) == (CpuYoloDetector {
                        rgb_chw_buf: final(self).rgb_chw_buf,
                        ..*old(self)
                    })
                },
                DetectorFrame::PreprocessedChw { data, input_size, src_width, src_height } => {
                    let e = fitted_elsewhere(*src_width, *src_height, *input_size);
                    &&& *final(self) == *old(self)
                    &&& if data@.len() == 3 * (*input_size * *input_size) {
                        r == Ok::<Unfit, DetectorError>(
                            Unfit {
                                scale: e.0,
                                pad_x: e.1,
                                pad_y: e.2,
                                src_width: *src_width,
                                src_height: *src_height,
                            },
                        )
                    } else {
                        r matches Err(DetectorError::InferenceFailed(e)) && e@ == wrong_length(
                            (3 * (*input_size * *input_size)) as nat,
                            data@.len(),
                        )
                    }
                },
                DetectorFrame::Elsewhere => *final(self) == *old(self) && r == Err::<
                    Unfit,
                    DetectorError,
                >(DetectorError::UnsupportedFrameKind),
            },
    {
        match frame {
            DetectorFrame::Cpu(p) => {
                let (scale, pad_x, pad_y) = self.preprocess(p);
                Ok(Unfit { scale, pad_x, pad_y, src_width: p.width, src_height: p.height })
            },
            DetectorFrame::PreprocessedChw { data, input_size, src_width, src_height } => {
                match check_length(data, *input_size) {
                    Err(e) => Err(e),
                    Ok(_) => {
                        let (scale, pad_x, pad_y) = letterbox_params(
                            *src_width,
                            *src_height,
                            *input_size,
                        );
                        Ok(
                            Unfit {
                                scale,
                                pad_x,
                                pad_y,
                                src_width: *src_width,
                                src_height: *src_height,
                            },
                        )
                    },
                }
            },
            DetectorFrame::Elsewhere => Err(DetectorError::UnsupportedFrameKind),
        }
    }
}

fn filled(size: u32, value: F32) -> (r: Vec<F32>)
    requires
        can_hold(size),
    ensures
        r@.len() == 3 * (size * size),
        forall|i: int| 0 <= i < r@.len() ==> #[trigger] r@[i] == value,
{
    let sz: usize = size as usize;
    let n: usize = 3 * (sz * sz);
    let mut buf: Vec<F32> = Vec::new();
    let mut i: usize = 0;
    while i < n
        invariant
            i <= n,
            buf@.len() == i,
            forall|k: int| 0 <= k < i ==> #[trigger] buf@[k] == value,
        decreases n - i,
    {
        buf.push(value);
        i += 1;
    }
    buf
}

/// A detector whose model, a transformer, wants stretched frames.
pub struct CpuDetrDetector {
    pub input_size: u32,
    pub confidence_threshold: F32,
    pub labels: Vec<String>,
    /// The model's input, used again for each frame.
    pub rgb_chw_buf: Vec<F32>,
}

impl CpuDetrDetector {
    /// The model's input has three colours of a square.
    pub open spec fn wf(self) -> bool {
        &&& can_hold(self.input_size)
        &&& self.rgb_chw_buf@.len() == 3 * (self.input_size * self.input_size)
    }

    /// A detector for a loaded model. Such a model names no classes: what it
    /// finds is the ball.
    pub fn with_config(
        loaded: Result<LoadedModel, SessionError>,
        confidence_threshold: F32,
    ) -> (r: Result<Self, SessionError>)
        requires
            loaded matches Ok(m) ==> can_hold(m.input_size),
        ensures
            match loaded {
                Ok(m) => {
                    &&& r matches Ok(d)
                    &&& d.wf()
                    &&& d.input_size == m.input_size
                    &&& d.confidence_threshold == confidence_threshold
                    &&& texts(d.labels@) == seq!["ball"@]
                    &&& forall|i: int|
                        0 <= i < d.rgb_chw_buf@.len() ==> #[trigger] d.rgb_chw_buf@[i] == (F32 {
                            bits: 0,
                        })
                },
                Err(e) => r == Err::<CpuDetrDetector, SessionError>(e),
            },
    {
        match loaded {
            Err(e) => Err(e),
            Ok(m) => {
                let buf = filled(m.input_size, F32::from_bits(0));
                let mut labels: Vec<String> = Vec::new();
                labels.push(String::from_str("ball"));
                assert(texts(labels@) =~= seq!["ball"@]);
                Ok(
                    CpuDetrDetector {
                        input_size: m.input_size,
                        confidence_threshold,
                        labels,
                        rgb_chw_buf: buf,
                    },
                )
            },
        }
    }

    /// What the detector is called.
    pub fn name(&self) -> (r: &'static str)
        ensures
            r@ == "ort-cpu-detr"@,
    {
        "ort-cpu-detr"
    }

    /// The names of the classes, by their numbers.
    pub fn class_names(&self) -> (r: &Vec<String>)
        ensures
            *r == self.labels,
    {
        &self.labels
    }

    /// The side of the square that the model takes.
    pub fn input_size(&self) -> (r: u32)
        ensures
            r == self.input_size,
    {
        self.input_size
    }

    /// Stretches a frame to the model's input.
    pub fn preprocess(&mut self, frame: &Picture)
        requires
            old(self).wf(),
            frame.wf(),
        ensures
            final(self).wf(),
            final(self).rgb_chw_buf@ == Seq::new(
                (3 * (old(self).input_size * old(self).input_size)) as nat,
                |i: int| stretched_entry(*frame, old(self).input_size, i),
            ),
            *final(self) == (CpuDetrDetector {
                rgb_chw_buf: final(self).rgb_chw_buf,
                ..*old(self)
            }),
    {
        let size: u32 = self.input_size;
        let n: usize = self.rgb_chw_buf.len();
        let mut i: usize = 0;
        let ghost before = *self;
        while i < n
            invariant
                i <= n,
                n == 3 * (size * size),
                n == self.rgb_chw_buf@.len(),
                *self == (CpuDetrDetector { rgb_chw_buf: self.rgb_chw_buf, ..before }),
                before.input_size == size,
                frame.wf(),
                forall|k: int|
                    0 <= k < i ==> #[trigger] self.rgb_chw_buf@[k] == stretched_entry(
                        *frame,
                        size,
                        k,
                    ),
            decreases n - i,
        {
            let (channel, row, column) = locate(i, size as usize);
            let x = make_stretched_tap(column as u32, frame.width, size);
            let y = make_stretched_tap(row as u32, frame.height, size);
            let shade = blend(frame, x, y, channel).div(F32::from_bits(FULL));
            let value = shade.sub(F32::from_bits(MEAN[channel])).div(
                F32::from_bits(STD[channel]),
            );
            assert(value == stretched_entry(*frame, size, i as int));
            self.rgb_chw_buf.set(i, value);
            i += 1;
        }
        assert(self.rgb_chw_buf@ =~= Seq::new(
            (3 * (size * size)) as nat,
            |k: int| stretched_entry(*frame, size, k),
        ));
    }

    /// What the model is to be run on: for a frame in colours the detector's own
    /// buffer, filled for it; for a prepared one the data that came with it,
    /// which must be as long as it says.
    pub fn prepare(&mut self, frame: &DetectorFrame) -> (r: Result<(), DetectorError>)
        requires
            old(self).wf(),
            match frame {
                DetectorFrame::Cpu(p) => p.wf(),
                DetectorFrame::PreprocessedChw { data, input_size, .. } => can_hold(*input_size),
                DetectorFrame::Elsewhere => true,
            },
        ensures
            final(self).wf(),
            match frame {
                DetectorFrame::Cpu(p) => {
                    &&& r is Ok
                    &&& final(self).rgb_chw_buf@ == Seq::new(
                        (3 * (old(self).input_size * old(self).input_size)) as nat,
                        |i: int| stretched_entry(*p, old(self).input_size, i),
                    )
                    &&& *final(self) == (CpuDetrDetector {
                        rgb_chw_buf: final(self).rgb_chw_buf,
                        ..*old(self)
                    })
                },
                DetectorFrame::PreprocessedChw { data, input_size, .. } => {
                    &&& *final(self) == *old(self)
                    &&& if data@.len() == 3 * (*input_size * *input_size) {
                        r is Ok
                    } else {
                        r matches Err(DetectorError::InferenceFailed(e)) && e@ == wrong_length(
                            (3 * (*input_size * *input_size)) as nat,
                            data@.len(),
                        )
                    }
                },
                DetectorFrame::Elsewhere => *final(self) == *old(self) && r == Err::<
                    (),
                    DetectorError,
                >(DetectorError::UnsupportedFrameKind),
            },
    {
        match frame {
            DetectorFrame::Cpu(p) => {
                self.preprocess(p);
                Ok(())
            },
            DetectorFrame::PreprocessedChw { data, input_size, .. } => check_length(
                data,
                *input_size,
            ),
            DetectorFrame::Elsewhere => Err(DetectorError::UnsupportedFrameKind),
        }
    }
}

/// A fitted frame is grey outside its bars: every entry beyond the frame's own
/// part of the square is.
pub proof fn law_bars_are_grey(p: Picture, size: u32, i: int)
    requires
        p.wf(),
        0 <= i < 3 * (size * size),
        ({
            let b = fitted(p.width, p.height, size);
            let row = (i % (size * size)) / size as int;
            let column = (i % (size * size)) % size as int;
            ||| row < b.pad_y.before_point()
            ||| row >= b.pad_y.before_point() + b.height
            ||| column < b.pad_x.before_point()
            ||| column >= b.pad_x.before_point() + b.width
        }),
    ensures
        fitted_entry(p, size, i) == (F32 { bits: GREY }),
{
}

/// No pixel outside the frame is ever looked at.
pub proof fn law_taps_stay_in_frame(from: u32, share: F32, extent: u32)
    requires
        extent >= 1,
    ensures
        ({
            let t = neighbours(from, share, extent);
            t.first <= t.second && t.second < extent && t.second - t.first <= 1
        }),
{
}

} // verus!
