use osf_ort::ieee::single;
use osf_ort::ieee::single::Single;
use osf_ort::pnp::solve::CosSin;
use osf_ort::pnp::solid_face;
use osf_ort::tracker::{plain_eyes, FaceReport};
use osf_ort::viz::{glyph, paint, symmetric_points, window_pixels, Mark};
use osf_ort::{draw_tracking, BgrImage, Camera};

fn s(x: f32) -> Single {
    single::of(x.to_bits())
}

fn f(x: Single) -> f32 {
    f32::from_bits(x.bits)
}

fn black(w: u32, h: u32) -> BgrImage {
    BgrImage {
        width: w,
        height: h,
        data: vec![0; (w * h * 3) as usize],
    }
}

fn report() -> FaceReport {
    let z = s(0.0);
    let mut lms = vec![[s(5.0), s(7.0), s(0.9)]; 66];
    lms[1] = [s(10.2), s(3.6), s(0.9)];
    lms.push([s(20.0), s(20.0), s(0.9)]);
    lms.push([s(30.0), s(30.0), s(0.1)]);
    FaceReport {
        id: 7,
        conf: s(0.5),
        lms,
        eye_state: plain_eyes(),
        rotation: None,
        translation: [z; 3],
        success: true,
        quaternion: [z; 4],
        euler: [z; 3],
        pnp_error: z,
        pts_3d: [[z; 3]; 70],
        eye_blink: [s(1.0); 2],
        bbox: [40.0, 2.0, 10.0, 10.0].map(s),
        current_features: [z; 20],
        face_3d: solid_face(),
        contour: vec![],
    }
}

fn still() -> [CosSin; 1] {
    [CosSin {
        cos: s(1.0),
        sin: s(0.0),
    }]
}

#[test]
fn landmarks_and_pupils_are_drawn() {
    let cam = Camera::from_frame(64, 48);
    let mut im = black(64, 48);
    draw_tracking(&mut im, &[report()], &still(), 1, 0, &cam);
    assert_eq!(im.get(7, 5), [0, 255, 0]);
    assert_eq!(im.get(4, 10), [0, 255, 0]);
    assert_eq!(im.get(20, 20), [0, 255, 255]);
    assert_eq!(im.get(30, 30), [0, 0, 0]);
}

#[test]
fn numbers_are_drawn_from_level_two() {
    let cam = Camera::from_frame(64, 48);
    let mut im = black(64, 48);
    draw_tracking(&mut im, &[report()], &still(), 2, 0, &cam);
    let g = glyph('7');
    for row in 0..7 {
        for col in 0..5 {
            let set = g[row] >> (4 - col) & 1 == 1;
            let want = if set { [255, 0, 255] } else { [0, 0, 0] };
            assert_eq!(im.get(40 + col as i32, 2 + row as i32), want);
        }
    }
}

#[test]
fn solid_faces_are_drawn() {
    let cam = Camera::from_frame(64, 48);
    let mut r = report();
    r.lms.clear();
    r.rotation = Some([s(0.0); 3]);
    r.translation = [s(0.0), s(0.0), s(4.0)];
    r.contour = vec![[s(0.0); 3]];
    let mut im = black(64, 48);
    draw_tracking(&mut im, &[r], &still(), 1, 1, &cam);
    let lit: Vec<(i32, i32)> = (0..48)
        .flat_map(|y| (0..64).map(move |x| (x, y)))
        .filter(|(x, y)| im.get(*x, *y) == [0, 255, 255])
        .collect();
    assert_eq!(lit.len(), 4);
    assert!(lit.windows(2).all(|w| w[1].0 == w[0].0 && w[1].1 == w[0].1 + 1), "{lit:?}");
}

#[test]
fn later_marks_win_and_far_ones_are_left_out() {
    let mut im = black(4, 4);
    let m = |x: i64, y: i64, v: u8| Mark { x, y, color: [v; 3] };
    paint(&mut im, &[m(1, 1, 5), m(1, 1, 6), m(9, 9, 7), m(-1, 0, 8)]);
    assert_eq!(im.get(1, 1), [6; 3]);
    assert_eq!(im.data.iter().filter(|v| **v != 0).count(), 3);
}

#[test]
fn windows_show_the_frame() {
    let mut im = black(2, 2);
    im.set(1, 0, [1, 2, 3]);
    assert_eq!(window_pixels(&im, 3, 1), vec![0, 0x03_0201, 0]);
}

#[test]
fn symmetric_faces() {
    let pairs = [
        (0, 16), (1, 15), (2, 14), (3, 13), (4, 12), (5, 11), (6, 10), (7, 9), (17, 26), (18, 25),
        (19, 24), (20, 23), (21, 22), (31, 35), (32, 34), (36, 45), (37, 44), (38, 43), (39, 42),
        (40, 47), (41, 46), (48, 52), (49, 51), (56, 54), (57, 53), (58, 62), (59, 61), (65, 63),
    ];
    let face: Vec<[f32; 3]> = solid_face()
        .into_iter()
        .enumerate()
        .map(|(i, p)| {
            let q = p.map(f);
            [q[0] + i as f32 * 0.01, q[1] - i as f32 * 0.02, q[2] + 0.1]
        })
        .collect();
    let mut want = face.clone();
    for (a, b) in pairs {
        let x = (want[a][0] - want[b][0]) / 2.0;
        let y = (want[a][1] + want[b][1]) / 2.0;
        let z = (want[a][2] + want[b][2]) / 2.0;
        want[a] = [x, y, z];
        want[b] = [-x, y, z];
    }
    for i in [8, 27, 28, 29, 33, 50, 55, 60, 64] {
        want[i][0] = 0.0;
    }
    want[30] = [0.0; 3];
    let words: Vec<[Single; 3]> = face.iter().map(|p| p.map(s)).collect();
    let got: Vec<[f32; 3]> = symmetric_points(&words).into_iter().map(|p| p.map(f)).collect();
    assert_eq!(got, want);
}
