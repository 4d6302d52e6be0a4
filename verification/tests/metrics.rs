use osf_ort::ieee::double;
use osf_ort::ieee::double::Double;
use osf_ort::ieee::single;
use osf_ort::ieee::single::Single;
use osf_ort::metrics::{pct, sort};
use osf_ort::{cosine, max_abs, mean_abs, read_f32_le, Latency};

fn d(x: f64) -> Double {
    double::of(x.to_bits())
}

fn g(x: Double) -> f64 {
    f64::from_bits(x.bits)
}

fn s(x: f32) -> Single {
    single::of(x.to_bits())
}

fn f(x: Single) -> f32 {
    f32::from_bits(x.bits)
}

#[test]
fn figures_of_samples() {
    let v: Vec<Double> = [4.0, 1.0, 3.0, 2.0].iter().map(|x| d(*x)).collect();
    let l = Latency::from_samples(7, &v);
    assert_eq!((l.warmup, l.iters), (7, 4));
    assert_eq!(g(l.mean_ms), 2.5);
    assert_eq!(g(l.p50_ms), 2.5);
    assert_eq!((g(l.min_ms), g(l.max_ms)), (1.0, 4.0));
    assert!((g(l.p90_ms) - 3.7).abs() < 1e-12);
    let none = Latency::from_samples(0, &[]);
    assert_eq!(none.iters, 0);
    assert_eq!(g(none.p50_ms), 0.0);
}

#[test]
fn sorting_and_shares() {
    let v: Vec<Double> = [2.0, -1.0, 5.0].iter().map(|x| d(*x)).collect();
    let r: Vec<f64> = sort(&v).into_iter().map(g).collect();
    assert_eq!(r, vec![-1.0, 2.0, 5.0]);
    assert_eq!(g(pct(&sort(&v), d(1.0))), 5.0);
    assert_eq!(g(pct(&sort(&v), d(0.25))), 0.5);
}

#[test]
fn distances_of_vectors() {
    let a = [1.0, 2.0, 3.0].map(s);
    let b = [1.0, 4.0, 0.0].map(s);
    assert_eq!(f(max_abs(&a, &b)), 3.0);
    assert!((f(mean_abs(&a, &b)) - 5.0 / 3.0).abs() < 1e-6);
    let want = 9.0 / (14.0f64.sqrt() * 17.0f64.sqrt());
    assert!((f(cosine(&a, &b)) as f64 - want).abs() < 1e-6);
    assert_eq!(f(cosine(&a, &[0.0; 3].map(s))), 0.0);
}

#[test]
fn numbers_out_of_bytes() {
    let mut bytes = 1.5f32.to_le_bytes().to_vec();
    bytes.extend((-2.0f32).to_le_bytes());
    bytes.push(9);
    let r: Vec<f32> = read_f32_le(&bytes).into_iter().map(f).collect();
    assert_eq!(r, vec![1.5, -2.0]);
}
