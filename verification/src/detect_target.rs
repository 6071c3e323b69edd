//! What detection reports, and what can be set up to detect.
use crate::single::F32;
use crate::world::{CameraId, ViewportPosition};
use vstd::prelude::*;

verus! {

/// Something seen in a camera's frame, in coordinates from zero to one.
#[derive(Clone, Copy, Debug, PartialEq, Eq, Structural)]
pub struct Detection {
    pub camera: CameraId,
    pub class_id: u16,
    pub confidence: F32,
    pub center_x: F32,
    pub center_y: F32,
    pub width: F32,
    pub height: F32,
}

/// Something seen, with where it lies in the panorama, if anywhere.
#[derive(Clone, Copy, Debug)]
pub struct MappedDetection {
    pub camera: CameraId,
    pub class_id: u16,
    pub confidence: F32,
    pub camera_center: (F32, F32),
    pub camera_size: (F32, F32),
    pub position: Option<ViewportPosition>,
}

/// A detection at a position of the panorama.
pub open spec fn placed_at(d: Detection, position: Option<ViewportPosition>) -> MappedDetection {
    MappedDetection {
        camera: d.camera,
        class_id: d.class_id,
        confidence: d.confidence,
        camera_center: (d.center_x, d.center_y),
        camera_size: (d.width, d.height),
        position,
    }
}

/// Detections, each at its position of the panorama.
pub open spec fn all_placed(
    detections: Seq<Detection>,
    positions: Seq<Option<ViewportPosition>>,
) -> Seq<MappedDetection> {
    Seq::new(detections.len(), |i: int| placed_at(detections[i], positions[i]))
}

/// Puts each detection at its position of the panorama.
pub fn map_detections_to_panorama(
    detections: &Vec<Detection>,
    positions: &Vec<Option<ViewportPosition>>,
) -> (r: Vec<MappedDetection>)
    requires
        detections@.len() == positions@.len(),
    ensures
        r@ == all_placed(detections@, positions@),
{
    let mut mapped: Vec<MappedDetection> = Vec::new();
    let mut i: usize = 0;
    while i < detections.len()
        invariant
            i <= detections@.len() == positions@.len(),
            mapped@ == all_placed(detections@, positions@).take(i as int),
        decreases detections@.len() - i,
    {
        let d = &detections[i];
        mapped.push(
            MappedDetection {
                camera: d.camera,
                class_id: d.class_id,
                confidence: d.confidence,
                camera_center: (d.center_x, d.center_y),
                camera_size: (d.width, d.height),
                position: positions[i],
            },
        );
        assert(mapped@ =~= all_placed(detections@, positions@).take(i + 1));
        i += 1;
    }
    assert(mapped@ =~= all_placed(detections@, positions@));
    mapped
}

/// An interval of at least one.
pub open spec fn at_least_one(interval: u64) -> u64 {
    if interval < 1 {
        1
    } else {
        interval
    }
}

/// Detection runs on frames whose number is a multiple of the interval.
pub open spec fn detection_due(interval: u64, frame: u64) -> bool {
    interval > 0 && frame % interval == 0
}

/// What can be set up to detect, track and pan. A tracker, a panner, a
/// detector and the way to the graphics processor are whatever the owner
/// brings.
pub trait DetectionTarget {
    type Tracker;

    type Panner;

    type Detector;

    type Gpu;

    /// Sets the detector.
    fn set_detector(&mut self, detector: Self::Detector);

    /// Sets on every how many frames detection runs.
    fn set_detection_interval(&mut self, interval: u64);

    /// Sets the tracker of the ball.
    fn set_ball_tracker(&mut self, tracker: Self::Tracker);

    /// Sets the tracker of the players.
    fn set_player_tracker(&mut self, tracker: Self::Tracker);

    /// Sets the panner.
    fn set_panner(&mut self, panner: Self::Panner);

    /// The width and height of the frames.
    fn source_info(&self) -> (u32, u32);

    /// What the graphics processor is reached through.
    fn gpu(&self) -> &Self::Gpu;
}

} // verus!
