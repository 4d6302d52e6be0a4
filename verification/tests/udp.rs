use osf_ort::ieee::double;
use osf_ort::ieee::single;
use osf_ort::ieee::single::Single;
use osf_ort::udp::{PACKET_FEATURE_COUNT, PACKET_FRAME_SIZE_17};
use osf_ort::{
    encode_face, encode_faces, encode_faces_into, FacePacket, FEAT_CHEEK_PUFF, FEAT_JAW_OPEN,
    FEAT_MOUTH_FUNNEL, FEAT_MOUTH_OFFSET_X, FEAT_MOUTH_PUCKER, PACKET_FRAME_SIZE,
    PACKET_FRAME_SIZE_LEGACY,
};

fn s(x: f32) -> Single {
    single::of(x.to_bits())
}

fn sample() -> FacePacket {
    let z = s(0.0);
    FacePacket {
        time: double::of(1.0f64.to_bits()),
        id: 0,
        width: s(640.0),
        height: s(360.0),
        eye_blink: [s(1.0), s(1.0)],
        success: true,
        pnp_error: z,
        quaternion: [z, z, z, s(1.0)],
        euler: [z; 3],
        translation: [z; 3],
        lms: vec![[z; 3]; 68],
        pts_3d: [[z; 3]; 70],
        features: [z; 20],
    }
}

#[test]
fn packet_is_1805() {
    assert_eq!(encode_face(&sample()).len(), PACKET_FRAME_SIZE);
    assert_eq!(
        PACKET_FRAME_SIZE,
        8 + 4
            + 2 * 4
            + 2 * 4
            + 1
            + 4
            + 3 * 4
            + 3 * 4
            + 4 * 4
            + 4 * 68
            + 4 * 2 * 68
            + 4 * 3 * 70
            + 4 * PACKET_FEATURE_COUNT
    );
    assert_eq!(PACKET_FRAME_SIZE_17, PACKET_FRAME_SIZE - 4 * 2);
    assert_eq!(PACKET_FRAME_SIZE_LEGACY, PACKET_FRAME_SIZE - 4 * 5);
}

#[test]
fn extra_features_are_appended() {
    let mut f = sample();
    f.features[FEAT_MOUTH_PUCKER] = s(0.5);
    f.features[FEAT_MOUTH_OFFSET_X] = s(-0.25);
    f.features[FEAT_CHEEK_PUFF] = s(0.8);
    f.features[FEAT_JAW_OPEN] = s(0.7);
    f.features[FEAT_MOUTH_FUNNEL] = s(0.4);
    let bytes = encode_face(&f);
    let n = bytes.len();
    let pucker = f32::from_le_bytes(bytes[n - 20..n - 16].try_into().unwrap());
    let offset = f32::from_le_bytes(bytes[n - 16..n - 12].try_into().unwrap());
    let puff = f32::from_le_bytes(bytes[n - 12..n - 8].try_into().unwrap());
    let jaw = f32::from_le_bytes(bytes[n - 8..n - 4].try_into().unwrap());
    let funnel = f32::from_le_bytes(bytes[n - 4..n].try_into().unwrap());
    assert_eq!(pucker, 0.5);
    assert_eq!(offset, -0.25);
    assert_eq!(puff, 0.8);
    assert_eq!(jaw, 0.7);
    assert_eq!(funnel, 0.4);
}

#[test]
fn packets_follow_each_other() {
    let mut a = sample();
    a.id = 3;
    let mut b = sample();
    b.id = 4;
    b.success = false;
    let all = encode_faces(&[a, b]);
    assert_eq!(all.len(), 2 * PACKET_FRAME_SIZE);
    assert_eq!(&all[..8], &1.0f64.to_le_bytes());
    assert_eq!(&all[8..12], &3i32.to_le_bytes());
    assert_eq!(&all[12..16], &640.0f32.to_le_bytes());
    assert_eq!(all[28], 1);
    assert_eq!(&all[PACKET_FRAME_SIZE + 8..PACKET_FRAME_SIZE + 12], &4i32.to_le_bytes());
    assert_eq!(all[PACKET_FRAME_SIZE + 28], 0);
}

#[test]
fn buffers_are_used_again() {
    let mut buf = vec![1, 2, 3];
    encode_faces_into(&mut buf, &[sample()]);
    assert_eq!(buf, encode_face(&sample()));
}
