use osf_ort::ieee::single;
use osf_ort::ieee::single::Single;

fn s(x: f32) -> Single {
    single::of(x.to_bits())
}

fn format_eye_open(open: f32) -> String {
    osf_ort::console::format_eye_open(s(open))
}

#[test]
fn eye_console_shows_analog_levels() {
    assert_eq!(format_eye_open(0.95), "O 0.95");
    assert_eq!(format_eye_open(0.52), "o 0.52");
    assert_eq!(format_eye_open(0.22), "- 0.22");
    assert_eq!(format_eye_open(0.05), "x 0.05");
}

#[test]
fn levels_change_past_their_bounds() {
    assert_eq!(format_eye_open(0.75), "o 0.75");
    assert_eq!(format_eye_open(0.40), "- 0.40");
    assert_eq!(format_eye_open(0.15), "x 0.15");
    assert_eq!(format_eye_open(1.0), "O 1.00");
}

#[test]
fn decimal_places_match_those_of_std() {
    let mut x = 0.000_03f32;
    for i in 0..4000u32 {
        let v = if i % 2 == 0 { x } else { -x };
        let got: String = osf_ort::ieee::fixed::fixed(s(v), 4).iter().collect();
        assert_eq!(got, format!("{v:.4}"));
        let got: String = osf_ort::ieee::fixed::fixed(s(v), 2).iter().collect();
        assert_eq!(got, format!("{v:.2}"));
        x = x * 1.006 + 1e-5;
        if x > 1.6e7 {
            break;
        }
    }
    let large = [16777216.0, 1.5e10, -2.5e20, f32::MAX, f32::MIN];
    for v in [0.125f32, 0.375, 0.5, 2.5, 0.0, -0.0, 16777215.0, 1e-30, 0.045, 0.005].into_iter().chain(large) {
        let got: String = osf_ort::ieee::fixed::fixed(s(v), 2).iter().collect();
        assert_eq!(got, format!("{v:.2}"));
    }
}

#[test]
fn what_is_no_number_is_named() {
    assert_eq!(format_eye_open(f32::NAN), "x NaN");
    assert_eq!(format_eye_open(f32::INFINITY), "O inf");
    assert_eq!(format_eye_open(f32::NEG_INFINITY), "x -inf");
    assert_eq!(format_eye_open(3e10), "O 30000001024.00");
}

#[test]
fn few_faces_are_sent() {

    assert!(!osf_ort::console::sends_packets(0));
    assert!(osf_ort::console::sends_packets(1));
    assert!(osf_ort::console::sends_packets(39));
    assert!(!osf_ort::console::sends_packets(40));
}
