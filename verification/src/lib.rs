//! The decision logic of a panoramic sports camera: lens calibration, automatic
//! panning, detector set-up and the bookkeeping of a stitching session.
pub mod aim_laws;
pub mod algebra;
pub mod arith;
pub mod autocam;
pub mod calibrate_mono;
pub mod calibration;
pub mod chase_laws;
pub mod choice_laws;
pub mod cli;
pub mod cluster;
pub mod cluster_laws;
pub mod colour_laws;
pub mod convert;
pub mod cost_laws;
pub mod court_points;
pub mod cpu_detectors;
pub mod detect_target;
pub mod detector_laws;
pub mod double;
pub mod field_panner;
pub mod fit_laws;
pub mod follow_laws;
pub mod frame_laws;
pub mod gather_laws;
pub mod kb4;
pub mod labels;
pub mod lens_laws;
pub mod mean_laws;
pub mod miss_laws;
pub mod mono_core;
pub mod mono_job;
pub mod mono_optimizer;
pub mod near_laws;
pub mod orient_laws;
pub mod ort_session;
pub mod pair_laws;
pub mod panner_config;
pub mod panner_laws;
pub mod penalty_laws;
pub mod picture_laws;
pub mod pipeline;
pub mod plane_laws;
pub mod polygon_laws;
pub mod projection;
pub mod radius_laws;
pub mod readback;
pub mod real_laws;
pub mod real_single_laws;
pub mod record_laws;
pub mod replay;
pub mod rescale_laws;
pub mod round_trip_laws;
pub mod rounding;
pub mod run_laws;
pub mod scene_laws;
pub mod seed_laws;
pub mod session;
pub mod single;
pub mod size_laws;
pub mod speed_laws;
pub mod stereo;
pub mod stitch_core;
pub mod text;
pub mod value_laws;
pub mod view_laws;
pub mod viewport;
pub mod whole;
pub mod word_laws;
pub mod world;
pub mod zoom_laws;
