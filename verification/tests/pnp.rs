use nalgebra::{Matrix3, Rotation3, SMatrix, SVector, Vector3};
use osf_ort::ieee::double;
use osf_ort::ieee::double::Double;
use osf_ort::ieee::single;
use osf_ort::ieee::single::Single;
use osf_ort::pnp::solve::CosSin;
use osf_ort::pnp::{
    estimate_depth, project_points, rodrigues, rotation_angle, solid_face, times, try_inverse, PnpSolver,
    CONTOUR_PTS,
};
use osf_ort::pnp::depth::{contour, euler_pairs};
use osf_ort::Camera;

fn s(x: f32) -> Single {
    single::of(x.to_bits())
}

fn f(x: Single) -> f32 {
    f32::from_bits(x.bits)
}

fn trig(angle: Single) -> CosSin {
    CosSin {
        cos: s(f(angle).cos()),
        sin: s(f(angle).sin()),
    }
}

fn matrix(m: &[[Single; 3]; 3]) -> Matrix3<f32> {
    Matrix3::from_fn(|r, c| f(m[r][c]))
}

fn solve(obj: &[[Single; 3]], img: &[[Single; 2]], cam: &Camera) -> Option<([Single; 3], [Single; 3])> {
    let mut p = PnpSolver::start(obj, img, cam, None)?;
    loop {
        let t = p.angles().map(trig);
        let e = p.equations(obj, img, cam, &t);
        let a = SMatrix::<f64, 6, 6>::from_fn(|r, c| f64::from_bits(e.a[r][c].bits));
        let b = SVector::<f64, 6>::from_fn(|r, _| f64::from_bits(e.b[r].bits));
        let dx = a.lu().solve(&b).map(|x| {
            let mut d = [double::of(0); 6];
            for k in 0..6 {
                d[k] = Double { bits: x[k].to_bits() };
            }
            d
        });
        if !p.step(dx) {
            break;
        }
    }
    Some(p.finish(obj, img, cam, trig(p.angle())))
}

#[test]
fn inverse_and_product_match_nalgebra() {
    let rows = [[2.0, 1.0, 0.5], [0.25, -3.0, 1.0], [1.0, 0.0, 4.0]];
    let m = rows.map(|r| r.map(s));
    let want = Matrix3::from_fn(|r, c| rows[r][c]).try_inverse().unwrap();
    let got = matrix(&try_inverse(&m).unwrap());
    assert!((want - got).norm() < 1e-6, "{want} {got}");
    let v = times(&m, [1.0, 2.0, 3.0].map(s)).map(f);
    let u = Matrix3::from_fn(|r, c| rows[r][c]) * Vector3::new(1.0, 2.0, 3.0);
    assert_eq!(v, [u[0], u[1], u[2]]);
    let flat = [[1.0, 2.0, 3.0], [2.0, 4.0, 6.0], [0.0, 0.0, 1.0]].map(|r| r.map(s));
    assert!(try_inverse(&flat).is_none());
}

#[test]
fn rotation_vectors_match_nalgebra() {
    let r = [0.3, -0.2, 0.5];
    let a = rotation_angle(r.map(s));
    let t = trig(a);
    let got = matrix(&rodrigues(r.map(s), t.cos, t.sin));
    let want = Rotation3::from_scaled_axis(Vector3::new(r[0], r[1], r[2]));
    assert!((got - want.matrix()).norm() < 1e-5);
}

fn pose_of(r: [f32; 3], t: [f32; 3]) -> (Vec<[Single; 3]>, Camera) {
    let cam = Camera::from_frame(640, 480);
    let face = solid_face();
    let a = trig(rotation_angle(r.map(s)));
    let seen = project_points(&face[..66], r.map(s), a.cos, a.sin, t.map(s), &cam);
    let lms = seen.iter().map(|p| [p[0], p[1], s(1.0)]).collect();
    (lms, cam)
}

#[test]
fn poses_are_found_again() {
    let (mut lms, cam) = pose_of([0.1, 0.2, -0.1], [0.1, -0.2, 6.0]);
    let face = solid_face();
    lms.push([s(0.0); 3]);
    lms.push([s(0.0); 3]);
    let (obj, img) = contour(&face, &lms, &CONTOUR_PTS);
    let (rotation, translation) = solve(&obj, &img, &cam).unwrap();
    for (got, want) in rotation.map(f).iter().zip([0.1, 0.2, -0.1]) {
        assert!((got - want).abs() < 1e-2, "{:?}", rotation.map(f));
    }
    assert!((f(translation[2]) - 6.0).abs() < 0.1, "{:?}", translation.map(f));
    let t = trig(rotation_angle(rotation));
    let m = rodrigues(rotation, t.cos, t.sin);
    let arcs = euler_pairs(&m).map(|(y, x)| s(f(y).atan2(f(x))));
    let d = estimate_depth(lms, &face, 14, &cam, Some((rotation, translation)), t.cos, t.sin, arcs);
    assert!(d.success);
    assert!(f(d.pnp_error) < 1.0, "{}", f(d.pnp_error));
    let n: f32 = d.quaternion.iter().map(|x| f(*x) * f(*x)).sum();
    assert!((n - 1.0).abs() < 1e-3);
}

#[test]
fn no_pose_no_depth() {
    let (mut lms, cam) = pose_of([0.0; 3], [0.0, 0.0, 5.0]);
    lms.push([s(0.0); 3]);
    lms.push([s(0.0); 3]);
    let face = solid_face();
    let z = s(0.0);
    let d = estimate_depth(lms, &face, 14, &cam, None, s(1.0), z, [z; 3]);
    assert!(!d.success);
    assert_eq!(f(d.pnp_error), 99999.0);
    assert!(PnpSolver::start(&face[..3], &[[z; 2]; 3], &cam, None).is_none());
    assert!(PnpSolver::start(&face[..5], &[[z; 2]; 4], &cam, None).is_none());
}
