use osf_ort::ext::{
    apply_packet, cats as cats_of, encode_ext, expr_blend, parse_viseme_name, receive, OscArg,
};
use osf_ort::ieee::single;
use osf_ort::ieee::single::Single;
use osf_ort::{ExtState, VISEME_COUNT, VISEME_NAMES};
use rosc::{OscMessage, OscPacket, OscType};

fn s(x: f32) -> Single {
    single::of(x.to_bits())
}

fn f(x: Single) -> f32 {
    f32::from_bits(x.bits)
}

fn cats(i: usize) -> [f32; 6] {
    cats_of(i).map(f)
}

#[test]
fn aa_cats_and_parse() {
    assert!(cats(10)[0] > 0.99);
    assert_eq!(parse_viseme_name("A"), Some(10));
    assert_eq!(parse_viseme_name("sil"), Some(0));
    assert_eq!(expr_blend("fun"), Some("Fun"));
}

#[test]
fn visemes_roundtrip() {
    let mut v = [0.0f32; VISEME_COUNT];
    v[10] = 0.8;
    let buf = rosc::encoder::encode(&OscPacket::Message(OscMessage {
        addr: "/OSF/Ext/Visemes".into(),
        args: v.iter().map(|x| OscType::Float(*x)).collect(),
    }))
    .unwrap();
    let (_, pkt) = rosc::decoder::decode_udp(&buf).unwrap();
    let mut st = ExtState::default();
    apply_packet(&mut st, &pkt, 5);
    assert!((f(st.visemes[10]) - 0.8).abs() < 1e-5);
}

fn message(addr: &str, args: Vec<OscType>) -> OscPacket {
    OscPacket::Message(OscMessage {
        addr: addr.into(),
        args,
    })
}

#[test]
fn datagrams_reach_the_state() {
    let mut st = ExtState::default();
    let bundle = OscPacket::Bundle(rosc::OscBundle {
        timetag: (0, 1).into(),
        content: vec![
            message("/OSF/Ext/Expression", vec![OscType::String("joy".into()), OscType::Float(0.5)]),
            message("/other", vec![OscType::Int(3)]),
        ],
    });
    let bytes = rosc::encoder::encode(&bundle).unwrap();
    receive(&mut st, &bytes, 7);
    assert_eq!(st.expression, "joy");
    assert_eq!(f(st.expression_weight), 0.5);
    assert_eq!(st.expression_at, Some(7));
    assert_eq!(st.visemes_at, None);
}

#[test]
fn broken_datagrams_change_nothing() {
    let mut st = ExtState::default();
    receive(&mut st, &[1, 2, 3], 7);
    assert_eq!(st.visemes_at, None);
    assert_eq!(st.expression_at, None);
}

#[test]
fn what_is_sent_is_taken_in() {
    let mut v = [0.0f32; VISEME_COUNT];
    v[3] = 0.25;
    let mut st = ExtState::default();
    for m in encode_ext(&v.map(s), "fun", s(0.75), s(0.1)) {
        let args = m
            .args
            .iter()
            .map(|a| match a {
                OscArg::Float(x) => OscType::Float(f(*x)),
                OscArg::Text(t) => OscType::String(t.clone()),
                OscArg::Int(i) => OscType::Int(*i),
                _ => OscType::Nil,
            })
            .collect();
        let bytes = rosc::encoder::encode(&message(m.addr, args)).unwrap();
        receive(&mut st, &bytes, 9);
    }
    assert_eq!(st.visemes.map(f), v);
    assert_eq!(st.expression, "fun");
    assert_eq!(f(st.expression_weight), 0.75);
    assert_eq!(f(st.audio), 0.1);
}

#[test]
fn old_values_no_longer_count() {
    let mut st = ExtState::default();
    let second = 1_000_000_000;
    let args = vec![OscType::Float(1.0); VISEME_COUNT];
    apply_packet(&mut st, &message("/OSF/Ext/Visemes", args), second);
    assert!(st.visemes_live(second).is_some());
    assert!(st.visemes_live(100 * second).is_none());
    assert!(st.expression_live(second).is_none());
}

#[test]
fn every_viseme_has_a_name() {
    for (i, name) in VISEME_NAMES.iter().enumerate() {
        assert_eq!(parse_viseme_name(name), Some(i));
    }
    assert_eq!(parse_viseme_name("nothing"), None);
    assert_eq!(expr_blend("nothing"), None);
}
