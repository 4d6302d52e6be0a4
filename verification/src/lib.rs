//! Face tracking: pictures in, faces with pose and expression out.

pub mod adaptive;
pub mod bench;
pub mod blends;
pub mod blinks;
pub mod capture;
pub mod console;
pub mod crop;
pub mod decode;
pub mod enhance;
pub mod enhance_gpu;
pub mod ext;
pub mod features;
pub mod filter;
pub mod gaze;
pub mod geom;
pub mod glasses;
pub mod gpu_pre;
pub mod ieee;
pub mod heatmap;
pub mod learned;
pub mod levelled;
pub mod measured;
pub mod metrics;
pub mod normal;
pub mod output;
pub mod picture;
pub mod pnp;
pub mod preprocess;
pub mod quat;
pub mod rank;
pub mod retinaface;
pub mod session;
pub mod simd;
pub mod text;
pub mod tracker;
pub mod udp;
pub mod unit;
pub mod viz;
pub mod vmc;
pub mod vrm;

pub use adaptive::{
    center_2x, det_window, face_on_224, nme, pick_lm, AdaptiveCfg, AdaptiveState, DetWindow, FAST_LM,
};
pub use capture::mirror_bgr;
pub use crop::{stable_landmark_bbox, CropSmoothState, CropTrack};
pub use decode::{
    decode_landmarks, detect_faces, detect_faces_n, landmark_bbox, mean_conf, LmSpec, TensorF16, EYE_IDX,
};
pub use enhance::{enhance_bgr, enhance_bgr_in_place, EnhanceCfg, HeMode};
pub use ext::{ExtState, VISEME_COUNT, VISEME_NAMES};
pub use features::{
    FeatureVec, FEATURE_COUNT, FEATURE_NAMES, FEAT_CHEEK_PUFF, FEAT_JAW_OPEN, FEAT_MOUTH_FUNNEL,
    FEAT_MOUTH_OFFSET_X, FEAT_MOUTH_PRESS_LIP_OPEN, FEAT_MOUTH_PUCKER,
};
pub use filter::{unwrap_deg, FilterCfg, FilterKind, FilterQuality, OutputFilter};
pub use glasses::{ear_2d, paint_synthetic_glasses};
pub use metrics::{cosine, max_abs, mean_abs, read_f32_le, Latency, Rss};
pub use output::OutputDriver;
pub use pnp::Camera;
pub use preprocess::{
    crop_box, crop_box_pad, crop_img, face_crop, imagenet_nchw, imagenet_nchw_roi_into, iou, nchw,
    paste_bgr, resize_bgr, retina_nchw, synth_canvas, BgrImage, ColorNorm,
};
pub use session::Device;
pub use tracker::{FaceInfo, FaceReport, Tracker, TrackerConfig};
pub use udp::{
    encode_face, encode_faces, encode_faces_into, FacePacket, PACKET_FRAME_SIZE,
    PACKET_FRAME_SIZE_LEGACY,
};
pub use viz::draw_tracking;
pub use vmc::encode_vmc;
pub use vrm::{VrmCfg, VrmDriver, VrmFrame};
