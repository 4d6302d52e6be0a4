use osf_ort::features::FEAT_MOUTH_OPEN;
use osf_ort::ieee::double;
use osf_ort::ieee::single;
use osf_ort::ieee::single::Single;
use osf_ort::vrm::{convert_quaternion as turn, convert_translation as place, Trig, VrmDraft};
use osf_ort::{FacePacket, OutputDriver, VrmCfg, VrmDriver, VrmFrame, FEAT_MOUTH_PUCKER};

fn s(x: f32) -> Single {
    single::of(x.to_bits())
}

fn f(x: Single) -> f32 {
    f32::from_bits(x.bits)
}

fn sample_packet() -> FacePacket {
    let z = s(0.0);
    FacePacket {
        time: double::of(1.0f64.to_bits()),
        id: 0,
        width: s(640.0),
        height: s(360.0),
        eye_blink: [s(1.0), s(1.0)],
        success: true,
        pnp_error: z,
        quaternion: [z, z, z, s(1.0)],
        euler: [z; 3],
        translation: [z; 3],
        lms: vec![[z; 3]; 68],
        pts_3d: [[z; 3]; 70],
        features: [z; 20],
    }
}

fn finish(d: VrmDraft) -> VrmFrame {
    let a = d.half_angles.map(f);
    let theta = f(d.neck_cosine).acos();
    d.finish(&Trig {
        sin: a.map(|x| s(x.sin())),
        cos: a.map(|x| s(x.cos())),
        neck_rest: s((0.6 * theta).sin()),
        neck_part: s((0.4 * theta).sin()),
    })
}

fn frame_of(drv: &mut VrmDriver, out: &mut OutputDriver, pkt: &FacePacket) -> VrmFrame {
    finish(drv.map(&out.update(pkt, None, 0).unwrap()).unwrap())
}

#[test]
fn quaternion_matches_unity_ik() {
    let q = turn([0.1, 0.2, 0.3, 0.9].map(s)).map(f);
    assert!((q[0] + 0.2).abs() < 1e-5);
    assert!((q[1] + 0.1).abs() < 1e-5);
    assert!((q[2] - 0.3).abs() < 1e-5);
    assert!((q[3] - 0.9).abs() < 1e-5);
}

#[test]
fn translation_matches_unity_ik() {
    let t = place([1.0, 2.0, 3.0].map(s)).map(f);
    assert_eq!(t, [2.0, 1.0, 3.0]);
}

#[test]
fn driver_mouth_a_without_perfect_sync() {
    let mut d = VrmDriver::new(VrmCfg {
        perfect_sync: false,
        ..VrmCfg::default()
    });
    let mut out = OutputDriver::new();
    let mut pkt = sample_packet();
    pkt.features[FEAT_MOUTH_OPEN] = s(0.3);
    let mut a = 0.0;
    for _ in 0..4 {
        a = frame_of(&mut d, &mut out, &pkt).blend("A").map(f).unwrap_or(0.0);
    }
    assert!(a > 0.3, "A {a}");
}

#[test]
fn perfect_sync_mouth_pucker() {
    let mut d = VrmDriver::new(VrmCfg::default());
    let mut out = OutputDriver::new();
    let mut pkt = sample_packet();
    pkt.features[FEAT_MOUTH_PUCKER] = s(0.7);
    let got = frame_of(&mut d, &mut out, &pkt);
    assert!((got.blend("MouthPucker").map(f).unwrap_or(0.0) - 0.7).abs() < 1e-5);
    assert!(got.blend("A").is_none());
}

#[test]
fn first_face_is_where_all_is_measured_from() {
    let mut d = VrmDriver::new(VrmCfg::default());
    let mut out = OutputDriver::new();
    let mut pkt = sample_packet();
    pkt.translation = [3.0, 4.0, 5.0].map(s);
    let first = frame_of(&mut d, &mut out, &pkt);
    assert_eq!(first.root_pos.map(f), [0.0, 0.0, 0.0]);
    pkt.translation = [3.0, 4.0, 7.0].map(s);
    let next = frame_of(&mut d, &mut out, &pkt);
    assert!((f(next.root_pos[2]) - 0.6).abs() < 1e-5);
}

#[test]
fn faces_that_do_not_fit_are_left_out() {
    let mut d = VrmDriver::new(VrmCfg::default());
    let mut out = OutputDriver::new();
    let mut pkt = sample_packet();
    pkt.success = false;
    assert!(out.update(&pkt, None, 0).is_none());
    let good = sample_packet();
    let mut o = out.update(&good, None, 0).unwrap();
    o.packet = &pkt;
    assert!(d.map(&o).is_none());
}

#[test]
fn the_first_face_rests() {
    let mut d = VrmDriver::new(VrmCfg::default());
    let mut out = OutputDriver::new();
    let mut pkt = sample_packet();
    pkt.quaternion = [0.1, -0.3, 0.2, 0.9].map(s);
    pkt.translation = [12.5, -3.0, 60.0].map(s);
    let first = frame_of(&mut d, &mut out, &pkt);
    assert_eq!(first.root_pos.map(f), [0.0; 3]);
    for x in &first.root_rot[..3] {
        assert!(f(*x).abs() < 1e-6);
    }
    assert!((f(first.root_rot[3]) - 1.0).abs() < 1e-4);
    pkt.translation[0] = s(14.5);
    assert!(frame_of(&mut d, &mut out, &pkt).root_pos.map(f) != [0.0; 3]);
}
