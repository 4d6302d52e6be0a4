use osf_ort::ieee::single;
use osf_ort::ieee::single::Single;

fn s(x: f32) -> Single {
    single::of(x.to_bits())
}

fn f(x: Single) -> f32 {
    f32::from_bits(x.bits)
}

fn mouth_states(open: f32, wide: f32) -> [f32; 6] {
    osf_ort::output::mouth_states(s(open), s(wide)).map(f)
}


#[test]
fn mouth_open_maps_to_o_or_a() {
    let o = mouth_states(0.6, 0.0);
    assert!(o[4] > 0.9, "O {}", o[4]);
    let a = mouth_states(0.3, 0.0);
    assert!(a[0] > 0.8, "A {}", a[0]);
}

#[test]
fn mouth_wide_maps_to_i_or_u() {
    let i = mouth_states(0.3, 0.7);
    assert!(i[1] > i[0]);
    let u = mouth_states(0.3, -0.5);
    assert!(u[2] > 0.5);
}
