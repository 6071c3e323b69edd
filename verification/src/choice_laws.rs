//! Which class, which detector and which settings an automatic camera comes to.
use crate::autocam::{class_from, label_from, AutocamSetup, Backend, PannerChoice, TrackingMode};
use crate::field_panner::new_panner;
use crate::panner_config::broadcast_config;
use crate::single::F32;
use crate::text::{folded, small};
use vstd::prelude::*;

verus! {

/// Two names are the same but for capital letters.
pub open spec fn same_name(a: Seq<char>, b: Seq<char>) -> bool {
    a.len() == b.len() && forall|i: int|
        0 <= i < a.len() ==> small(#[trigger] a[i]) == small(b[i])
}

/// Names that are the same but for capital letters fold to the same.
proof fn lemma_same_name(a: Seq<char>, b: Seq<char>)
    ensures
        folded(a) == folded(b) <==> same_name(a, b),
{
    if folded(a) == folded(b) {
        assert(folded(a).len() == a.len() && folded(b).len() == b.len());
        assert forall|i: int| 0 <= i < a.len() implies small(#[trigger] a[i]) == small(b[i]) by {
            assert(folded(a)[i] == folded(b)[i]);
        }
    } else if same_name(a, b) {
        assert(folded(a) =~= folded(b));
    }
}

/// The number of a name is that of the first label that is the same but for
/// capital letters; and without one there is none.
pub proof fn law_first_label_with_the_name(names: Seq<String>, name: Seq<char>, from: int)
    requires
        0 <= from <= names.len(),
    ensures
        label_from(names, name, from) matches Some(k) ==> {
            &&& from <= k < names.len()
            &&& same_name(names[k]@, name)
            &&& forall|i: int| from <= i < k ==> !same_name(#[trigger] names[i]@, name)
        },
        label_from(names, name, from) is None ==> forall|i: int|
            from <= i < names.len() ==> !same_name(#[trigger] names[i]@, name),
    decreases names.len() - from,
{
    if from < names.len() {
        lemma_same_name(names[from]@, name);
        if folded(names[from]@) != folded(name) {
            law_first_label_with_the_name(names, name, from + 1);
        }
    }
}

/// The class of several names is that of the first of them that a label has.
pub proof fn law_first_name_counts(names: Seq<String>, a: &str, b: &str)
    ensures
        ({
            let (first, second) = (label_from(names, a@, 0), label_from(names, b@, 0));
            let both = class_from(names, seq![a, b], 0);
            &&& first matches Some(i) ==> both == Some(i as u16)
            &&& first is None && second is Some ==> both == Some(second->0 as u16)
            &&& first is None && second is None ==> both is None
            &&& class_from(names, seq![a], 0) == match first {
                Some(i) => Some(i as u16),
                None => None,
            }
        }),
{
    reveal_with_fuel(class_from, 4);
}

/// What a detector is asked for: the given confidence, or a quarter for the one
/// and a tenth for the others; and to keep to the playing field exactly when one
/// of its outlines has an inside.
pub proof fn law_detector_request(s: AutocamSetup, backend: Backend)
    ensures
        ({
            let r = s.request(backend);
            &&& r.backend == backend && r.is_10bit == s.config.is_10bit
            &&& s.config.confidence_threshold matches Some(c) ==> r.confidence == c
            &&& s.config.confidence_threshold is None ==> r.confidence == (F32 {
                bits: if backend == Backend::Ncnn {
                    0x3E80_0000
                } else {
                    0x3DCC_CCCD
                },
            })
            &&& r.roi <==> (s.config.field_roi matches Some(roi) && (roi.left@.len() >= 3
                || roi.right@.len() >= 3))
            &&& r.roi_person == match label_from(s.class_names@, "person"@, 0) {
                Some(i) => i as u16,
                None => 0,
            }
        }),
{
    reveal_with_fuel(class_from, 3);
}

/// What an active camera follows: the ball by the model's own name for it, or
/// its usual number; players, where the model names them, on a field; detections
/// every frame or at the given interval; and with the given settings, or the
/// usual ones of the mode.
pub proof fn law_active_camera_is_wired(s: AutocamSetup)
    requires
        s.active,
        s.config.tracking_mode != TrackingMode::Sweep,
    ensures
        ({
            let w = s.wiring();
            let n = s.config.detection_interval;
            let named = match label_from(s.class_names@, "ball"@, 0) {
                Some(i) => Some(i as u16),
                None => match label_from(s.class_names@, "sports ball"@, 0) {
                    Some(i) => Some(i as u16),
                    None => None,
                },
            };
            let field = s.config.tracking_mode == TrackingMode::Field;
            &&& w.active && w.ball is Some
            &&& w.ball->0.class_id == match named {
                Some(id) => id,
                None => 32,
            }
            &&& w.ball->0.max_jump_rad == (F32 {
                bits: if field {
                    0x3F4C_CCCD
                } else {
                    0x3F00_0000
                },
            })
            &&& w.detection_interval == if n > 1 {
                Some(n)
            } else {
                None
            }
            &&& w.player_class == if field {
                match label_from(s.class_names@, "person"@, 0) {
                    Some(i) => Some(i as u16),
                    None => None,
                }
            } else {
                None
            }
            &&& field ==> w.panner == Some(
                PannerChoice::Field(
                    new_panner(
                        s.fps,
                        match s.config.field_panner_config {
                            Some(c) => c,
                            None => broadcast_config(),
                        },
                    ),
                ),
            )
        }),
{
    reveal_with_fuel(class_from, 4);
}

} // verus!
