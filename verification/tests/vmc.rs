use osf_ort::ext::{OscArg, OscMessage};
use osf_ort::ieee::double;
use osf_ort::ieee::single;
use osf_ort::ieee::single::Single;
use osf_ort::vmc::TIMETAG;
use osf_ort::vrm::{Trig, VrmDraft};
use osf_ort::{
    encode_vmc, ExtState, FacePacket, OutputDriver, VrmCfg, VrmDriver, VrmFrame, FEAT_JAW_OPEN,
    FEAT_MOUTH_PUCKER,
};

fn s(x: f32) -> Single {
    single::of(x.to_bits())
}

fn f(x: Single) -> f32 {
    f32::from_bits(x.bits)
}

fn sample_packet() -> FacePacket {
    let z = s(0.0);
    FacePacket {
        time: double::of(1.0f64.to_bits()),
        id: 0,
        width: s(640.0),
        height: s(360.0),
        eye_blink: [s(1.0), s(1.0)],
        success: true,
        pnp_error: z,
        quaternion: [z, z, z, s(1.0)],
        euler: [z; 3],
        translation: [z; 3],
        lms: vec![[z; 3]; 68],
        pts_3d: [[z; 3]; 70],
        features: [z; 20],
    }
}

fn finish(d: VrmDraft) -> VrmFrame {
    let a = d.half_angles.map(f);
    let theta = f(d.neck_cosine).acos();
    d.finish(&Trig {
        sin: a.map(|x| s(x.sin())),
        cos: a.map(|x| s(x.cos())),
        neck_rest: s((0.6 * theta).sin()),
        neck_part: s((0.4 * theta).sin()),
    })
}

fn update_with(d: &mut VrmDriver, pkt: &FacePacket, ext: Option<&ExtState>) -> Option<VrmFrame> {
    let mut out = OutputDriver::new();
    let o = out.update(pkt, ext, 0)?;
    d.map(&o).map(finish)
}

fn bundle(messages: &[OscMessage]) -> Vec<u8> {
    let content = messages
        .iter()
        .map(|m| {
            rosc::OscPacket::Message(rosc::OscMessage {
                addr: m.addr.to_string(),
                args: m
                    .args
                    .iter()
                    .map(|a| match a {
                        OscArg::Float(x) => rosc::OscType::Float(f(*x)),
                        OscArg::Double(x) => rosc::OscType::Double(f64::from_bits(x.bits)),
                        OscArg::Int(x) => rosc::OscType::Int(*x),
                        OscArg::Text(x) => rosc::OscType::String(x.clone()),
                        OscArg::Other => rosc::OscType::Nil,
                    })
                    .collect(),
            })
        })
        .collect();
    rosc::encoder::encode(&rosc::OscPacket::Bundle(rosc::OscBundle {
        timetag: TIMETAG.into(),
        content,
    }))
    .unwrap()
}

#[test]
fn bundle_contains_apply_and_jaw_open() {
    let mut d = VrmDriver::new(VrmCfg::default());
    let mut pkt = sample_packet();
    pkt.features[FEAT_MOUTH_PUCKER] = s(0.5);
    pkt.features[FEAT_JAW_OPEN] = s(0.4);
    let frame = update_with(&mut d, &pkt, None).unwrap();
    let buf = bundle(&encode_vmc(&frame));
    let text = String::from_utf8_lossy(&buf);
    assert!(text.contains("/VMC/Ext/Blend/Apply"), "{text:?}");
    assert!(text.contains("JawOpen"), "{text:?}");
    assert!(text.contains("/VMC/Ext/Bone/Pos"));
    assert!(text.contains("Head"));
    assert!(text.contains("/OSF/Ext/Visemes"));
    assert!(text.contains("/OSF/Ext/Expression"));
}

#[test]
fn viseme_ext_maps_aa_to_a() {
    let mut d = VrmDriver::new(VrmCfg {
        perfect_sync: false,
        ..VrmCfg::default()
    });
    let mut ext = ExtState::default();
    ext.visemes[10] = s(0.8); // aa
    ext.visemes_at = Some(0);
    let frame = update_with(&mut d, &sample_packet(), Some(&ext)).unwrap();
    let a = frame.blend("A").map(f).unwrap_or(0.0);
    assert!(a > 0.5, "A {a}");
}

#[test]
fn messages_stand_in_order() {
    let mut d = VrmDriver::new(VrmCfg::default());
    let mut pkt = sample_packet();
    pkt.features[FEAT_MOUTH_PUCKER] = s(0.5);
    pkt.features[FEAT_JAW_OPEN] = s(0.4);
    let frame = update_with(&mut d, &pkt, None).unwrap();
    let m = encode_vmc(&frame);
    let apply = m.iter().position(|x| x.addr == "/VMC/Ext/Blend/Apply").unwrap();
    assert!(m[..apply].iter().any(|x| x.addr == "/VMC/Ext/Blend/Val"));
    assert!(m[apply + 1..].iter().all(|x| x.addr != "/VMC/Ext/Blend/Val"));
}
