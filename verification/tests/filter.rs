use osf_ort::filter::{euler_to_quat, wrap_deg, OneEuro};
use osf_ort::ieee::single;
use osf_ort::ieee::single::Single;
use osf_ort::{unwrap_deg, FilterCfg, FilterKind, FilterQuality};

fn s(x: f32) -> Single {
    single::of(x.to_bits())
}

fn f(x: Single) -> f32 {
    f32::from_bits(x.bits)
}

struct Euro(OneEuro);

impl Euro {
    fn new() -> Self {
        Euro(OneEuro::new())
    }

    fn filter(&mut self, x: f32, dt: f32, cfg: &FilterCfg) -> f32 {
        f(self.0.filter(s(x), s(dt), cfg))
    }
}

struct OutputFilter {
    inner: osf_ort::OutputFilter,
}

impl OutputFilter {
    fn new(cfg: FilterCfg) -> Self {
        OutputFilter {
            inner: osf_ort::OutputFilter::new(cfg),
        }
    }

    fn reset(&mut self) {
        self.inner.reset();
    }

    fn unwrapped(&self) -> Option<[f32; 3]> {
        self.inner.unwrapped.map(|u| u.map(f))
    }

    fn apply(
        &mut self,
        e: &mut [f32; 3],
        t: &mut [f32; 3],
        q: &mut [f32; 4],
        lms: &mut Vec<[f32; 3]>,
        pts: &mut Vec<[f32; 3]>,
        dt: f32,
    ) {
        let mut es = e.map(s);
        let mut ts = t.map(s);
        let mut ls: Vec<[Single; 3]> = lms.iter().map(|p| p.map(s)).collect();
        let mut ps: Vec<[Single; 3]> = pts.iter().map(|p| p.map(s)).collect();
        let angles = self.inner.apply(&mut es, &mut ts, &mut ls, &mut ps, s(dt));
        *e = es.map(f);
        *t = ts.map(f);
        *lms = ls.iter().map(|p| p.map(f)).collect();
        *pts = ps.iter().map(|p| p.map(f)).collect();
        if let Some(a) = angles {
            let c = a.map(|x| s(f(x).cos()));
            let n = a.map(|x| s(f(x).sin()));
            *q = euler_to_quat(c, n).map(f);
        }
    }
}

fn cfg_of(kind: FilterKind, mincutoff: f32, beta: f32) -> FilterCfg {
    FilterCfg::new(kind, s(mincutoff), s(beta))
}


fn var(v: &[f32]) -> f32 {
    if v.is_empty() {
        return 0.0;
    }
    let m = v.iter().sum::<f32>() / v.len() as f32;
    v.iter().map(|x| (x - m) * (x - m)).sum::<f32>() / v.len() as f32
}

fn q_norm(q: [f32; 4]) -> f32 {
    (q[0] * q[0] + q[1] * q[1] + q[2] * q[2] + q[3] * q[3]).sqrt()
}

#[test]
fn one_euro_damps_static_noise() {
    let mut f = Euro::new();
    let cfg = FilterCfg {
        kind: FilterKind::OneEuro,
        ..FilterCfg::default()
    };
    let dt = 1.0 / 30.0;
    let mut xin = Vec::new();
    let mut yout = Vec::new();
    for i in 0..180 {
        let x = 0.15 * ((i as f32) * 1.7).sin();
        xin.push(x);
        yout.push(f.filter(x, dt, &cfg));
    }
    assert!(
        var(&yout) < 0.45 * var(&xin),
        "out var {} vs in {}",
        var(&yout),
        var(&xin)
    );
}

#[test]
fn one_euro_follows_step_in_three_frames() {
    let mut f = Euro::new();
    let cfg = FilterCfg {
        kind: FilterKind::OneEuro,
        beta: s(1.0),
        mincutoff: s(1.0),
        ..FilterCfg::default()
    };
    let dt = 1.0 / 30.0;
    for _ in 0..8 {
        f.filter(0.0, dt, &cfg);
    }
    let mut y = 0.0;
    for _ in 0..3 {
        y = f.filter(1.0, dt, &cfg);
    }
    assert!(y >= 0.85, "step y={y}");
}

#[test]
fn euler_unwrap_does_not_jump() {
    let mut flt = OutputFilter::new(cfg_of(FilterKind::OneEuro, 1.0, 0.05));
    let dt = 1.0 / 30.0;
    let seq = [170.0, 175.0, 179.0, -179.0, -175.0, -170.0];
    let mut prev: Option<f32> = None;
    for &m in &seq {
        let mut e = [m, 0.0, 0.0];
        let mut t = [0.0; 3];
        let mut q = [0.0, 0.0, 0.0, 1.0];
        let mut lms = vec![[0.0; 3]; 4];
        let mut pts = vec![[0.0; 3]; 4];
        flt.apply(&mut e, &mut t, &mut q, &mut lms, &mut pts, dt);
        let u = flt.unwrapped().unwrap()[0];
        if let Some(p) = prev {
            assert!((u - p).abs() < 20.0, "unwrap jump {p} -> {u} from meas {m}");
        }
        prev = Some(u);
        assert!((q_norm(q) - 1.0).abs() < 1e-4, "quat norm {}", q_norm(q));
    }
}

#[test]
fn dt_change_stays_finite() {
    let mut f = Euro::new();
    let cfg = cfg_of(FilterKind::OneEuro, 1.0, 0.007);
    for (i, dt) in [1.0 / 15.0, 1.0 / 30.0, 1.0 / 60.0, 1.0 / 24.0]
        .into_iter()
        .enumerate()
    {
        let y = f.filter(i as f32 * 0.1, dt, &cfg);
        assert!(y.is_finite());
    }
}

#[test]
fn reset_first_frame_equals_measurement() {
    let mut flt = OutputFilter::new(cfg_of(FilterKind::OneEuro, 1.0, 0.007));
    let dt = 1.0 / 30.0;
    let mut e = [3.0, 1.0, -2.0];
    let mut t = [10.0, 20.0, 30.0];
    let mut q = [0.0, 0.0, 0.0, 1.0];
    let mut lms = vec![[5.0, 6.0, 0.9]];
    let mut pts = vec![[1.0, 2.0, 3.0]];
    flt.apply(&mut e, &mut t, &mut q, &mut lms, &mut pts, dt);
    for _ in 0..5 {
        let mut e2 = [0.0, 0.0, 0.0];
        let mut t2 = [0.0; 3];
        let mut q2 = q;
        flt.apply(&mut e2, &mut t2, &mut q2, &mut lms, &mut pts, dt);
    }
    flt.reset();
    let mut e = [12.0, -4.0, 8.0];
    let mut t = [100.0, 50.0, 7.0];
    let mut q = [0.0, 0.0, 0.0, 1.0];
    let mut lms = vec![[9.0, 11.0, 0.8]];
    let mut pts = vec![[4.0, 5.0, 6.0]];
    flt.apply(&mut e, &mut t, &mut q, &mut lms, &mut pts, dt);
    assert!((t[0] - 100.0).abs() < 1e-4);
    assert!((lms[0][0] - 9.0).abs() < 1e-4);
    assert!((q_norm(q) - 1.0).abs() < 1e-4);
}

#[test]
fn none_is_identity() {
    let mut flt = OutputFilter::new(FilterCfg::default());
    let mut e = [11.0, -8.0, 3.0];
    let mut t = [1.0, 2.0, 3.0];
    let mut q = [0.1, 0.2, 0.3, 0.9];
    let mut lms = vec![[4.0, 5.0, 0.7]];
    let mut pts = vec![[6.0, 7.0, 8.0]];
    flt.apply(&mut e, &mut t, &mut q, &mut lms, &mut pts, 1.0 / 30.0);
    assert_eq!(e, [11.0, -8.0, 3.0]);
    assert_eq!(t, [1.0, 2.0, 3.0]);
    assert_eq!(lms[0], [4.0, 5.0, 0.7]);
}

#[test]
fn parse_kinds() {
    assert_eq!(
        "one-euro".parse::<FilterKind>().unwrap(),
        FilterKind::OneEuro
    );
    assert_eq!("none".parse::<FilterKind>().unwrap(), FilterKind::Off);
    assert!("ema".parse::<FilterKind>().is_err());
    assert!("kalman".parse::<FilterKind>().is_err());
}

#[test]
fn names_are_found_again() {
    for kind in [FilterKind::Off, FilterKind::OneEuro] {
        assert_eq!(kind.as_str().parse::<FilterKind>().unwrap(), kind);
    }
    assert_eq!("One_Euro".parse::<FilterKind>().unwrap(), FilterKind::OneEuro);
    let e = "ema".parse::<FilterKind>().unwrap_err();
    assert_eq!(e.name.iter().collect::<String>(), "ema");
}

#[test]
fn angles_wrap_and_unwrap() {
    assert_eq!(f(wrap_deg(s(190.0))), -170.0);
    assert_eq!(f(wrap_deg(s(-190.0))), 170.0);
    assert_eq!(f(unwrap_deg(s(179.0), s(-179.0))), 181.0);
    assert_eq!(f(unwrap_deg(s(10.0), s(20.0))), 20.0);
}

#[test]
fn first_measurement_passes() {
    let mut e = Euro::new();
    let cfg = cfg_of(FilterKind::OneEuro, 1.0, 0.007);
    assert_eq!(e.filter(0.37, 1.0 / 30.0, &cfg), 0.37);
}

#[test]
fn quality_scales_the_cutoff() {
    let cfg = FilterCfg::new(FilterKind::OneEuro, s(1.5), s(0.007));
    let rate = |conf: f32, pnp_error: f32, success: bool| {
        cfg.rated(FilterQuality {
            conf: s(conf),
            pnp_error: s(pnp_error),
            success,
        })
    };
    assert_eq!(rate(1.0, 0.0, true), cfg);
    assert_eq!(f(rate(0.5, 200.0, true).mincutoff), 0.375);
    assert_eq!(f(rate(0.5, 99999.0, false).mincutoff), 0.1875);
    assert_eq!(f(rate(0.5, 0.0, false).mincutoff), 0.75);
    assert_eq!(rate(0.5, 200.0, true).beta, cfg.beta);
}

#[test]
fn poor_frames_are_smoothed_more() {
    let step = |conf: f32| {
        let mut flt = osf_ort::OutputFilter::new(FilterCfg::new(FilterKind::OneEuro, s(1.0), s(0.0)));
        let mut x = 0.0;
        for to in [0.0, 10.0] {
            let mut e = [s(0.0); 3];
            let mut t = [s(to), s(0.0), s(0.0)];
            let q = FilterQuality {
                conf: s(conf),
                pnp_error: s(0.0),
                success: true,
            };
            flt.apply_rated(&mut e, &mut t, &mut [], &mut [], s(1.0 / 30.0), q);
            x = f(t[0]);
        }
        x
    };
    assert!(step(0.25) < step(0.5) && step(0.5) < step(1.0));
}

#[test]
fn wrapping_keeps_the_angle() {
    for a in [-720.5f32, -180.0, -179.9, 0.25, 180.0, 359.0, 540.75, 4000.125] {
        let turns = (a - f(wrap_deg(s(a)))) / 360.0;
        assert!((turns - turns.round()).abs() < 1e-5, "{a}");
    }
}

#[test]
fn names_are_parsed_by_the_trait() {
    for k in [FilterKind::Off, FilterKind::OneEuro] {
        assert_eq!(k.as_str().parse::<FilterKind>().unwrap(), k);
    }
    let e = "Ka_lman".parse::<FilterKind>().unwrap_err();
    assert_eq!(e.name.iter().collect::<String>(), "ka-lman");
}

#[test]
fn quaternions_have_unit_length() {
    for (x, y, z) in [(0.0f32, 0.0f32, 0.0f32), (0.4, -1.1, 2.9), (3.1, 1.5, -0.2), (-2.0, 0.01, 1.0)] {
        let q = euler_to_quat(
            [s(x.cos()), s(y.cos()), s(z.cos())],
            [s(x.sin()), s(y.sin()), s(z.sin())],
        );
        let sum: f64 = q.iter().map(|v| (f(*v) as f64) * (f(*v) as f64)).sum();
        assert!((sum - 1.0).abs() <= 1.0 / 32768.0, "{sum}");
    }
}

#[test]
fn poorer_frames_move_less() {
    let cfg = FilterCfg {
        kind: FilterKind::OneEuro,
        ..FilterCfg::default()
    };
    let rated = |conf: f32, err: f32| {
        cfg.rated(FilterQuality {
            conf: s(conf),
            pnp_error: s(err),
            success: true,
        })
    };
    for (last, x) in [(100.0f32, 103.0f32), (-7.5, 20.0), (135.39783, 135.3979)] {
        let out = |c: &FilterCfg| {
            let mut e = Euro::new();
            e.filter(last, 1.0 / 30.0, c);
            e.filter(x, 1.0 / 30.0, c)
        };
        let good = out(&rated(0.9, 10.0));
        for poor in [rated(0.4, 10.0), rated(0.9, 300.0), rated(0.2, 400.0)] {
            assert!((out(&poor) - last).abs() <= (good - last).abs() + 256.0 / 1048576.0);
        }
    }
}
