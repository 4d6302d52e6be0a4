use osf_ort::ieee::single;
use osf_ort::ieee::single::Single;
use osf_ort::geom::{angle, clamp_to_im, compensate, group_rects, intersects, matrix_to_quaternion, rotate};
use osf_ort::quat;

fn s(x: f32) -> Single {
    single::of(x.to_bits())
}

fn f(x: Single) -> f32 {
    f32::from_bits(x.bits)
}

fn quaternion(q: nalgebra::UnitQuaternion<f32>) -> [f32; 4] {
    [q.i, q.j, q.k, q.w]
}

#[test]
fn points_stay_on_the_picture() {
    assert_eq!(clamp_to_im(s(-5.0), s(7.5), s(64.0), s(48.0)), (0, 8));
    assert_eq!(clamp_to_im(s(99.0), s(99.0), s(64.0), s(48.0)), (63, 48));
}

#[test]
fn angles_are_not_negative() {
    assert_eq!(f(angle(s(0.5))), 0.5);
    let a = f(angle(s(-0.5)));
    assert!((a - (2.0 * std::f32::consts::PI - 0.5)).abs() < 1e-6);
}

#[test]
fn points_are_turned_level() {
    let a = 0.3f32;
    let (c, n) = (s((-a).cos()), s((-a).sin()));
    let (x, y) = rotate((s(1.0), s(1.0)), (s(1.0 + a.cos()), s(1.0 + a.sin())), c, n);
    assert!((f(x) - 2.0).abs() < 1e-6 && (f(y) - 1.0).abs() < 1e-6);
    let p = [1.0 + a.cos(), 1.0 + a.sin()].map(s);
    let ((x, y), b) = compensate([s(1.0); 2], p, s(a), c, n);
    assert!((f(x) - 2.0).abs() < 1e-6 && (f(y) - 1.0).abs() < 1e-6);
    assert_eq!(f(b), a);
}

#[test]
fn boxes_in_chains_are_one_group() {
    let b = |x: f32| [x, 0.0, 10.0, 10.0].map(s);
    assert!(intersects(b(0.0), b(5.0), s(0.3)));
    assert!(!intersects(b(0.0), b(10.0), s(0.3)));
    assert_eq!(group_rects(&[b(0.0), b(40.0), b(10.0), b(5.0)]), vec![0, 1, 0, 0]);
    assert_eq!(group_rects(&[]), Vec::<usize>::new());
}

#[test]
fn quaternions_match_nalgebra() {
    let p: nalgebra::UnitQuaternion<f32> = nalgebra::UnitQuaternion::from_euler_angles(0.3, -0.4, 0.5);
    let q = nalgebra::UnitQuaternion::from_euler_angles(-0.1, 0.2, 0.7);
    let got = quat::product(quaternion(p).map(s), quaternion(q).map(s)).map(f);
    for (a, b) in got.iter().zip(quaternion(p * q)) {
        assert!((a - b).abs() < 1e-6);
    }
    let inv = quat::conjugate(quaternion(p).map(s)).map(f);
    for (a, b) in inv.iter().zip(quaternion(p.inverse())) {
        assert!((a - b).abs() < 1e-6);
    }
    assert!((f(quat::dot(quaternion(p).map(s), quaternion(q).map(s))) - p.coords.dot(&q.coords)).abs() < 1e-6);
}

#[test]
fn turns_part_of_the_way_match_nalgebra() {
    let q: nalgebra::UnitQuaternion<f32> = nalgebra::UnitQuaternion::from_euler_angles(0.3, -0.4, 0.5);
    let theta = q.w.acos();
    let got = quat::part_way(quaternion(q).map(s), s((0.6 * theta).sin()), s((0.4 * theta).sin())).map(f);
    let want = nalgebra::UnitQuaternion::identity().slerp(&q, 0.4);
    for (a, b) in got.iter().zip(quaternion(want)) {
        assert!((a - b).abs() < 1e-5, "{got:?}");
    }
}

#[test]
fn matrices_give_unit_quaternions() {
    let r: nalgebra::Rotation3<f32> = nalgebra::Rotation3::from_euler_angles(0.2, 0.1, -0.3);
    let m: [[Single; 3]; 3] = std::array::from_fn(|i| std::array::from_fn(|j| s(r[(i, j)])));
    let q = matrix_to_quaternion(&m).map(f);
    let n: f32 = q.iter().map(|x| x * x).sum();
    assert!((n - 1.0).abs() < 1e-5, "{q:?}");
}
