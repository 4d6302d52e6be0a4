use osf_ort::ieee::single;
use osf_ort::ieee::single::Single;
use osf_ort::retinaface::{decode_boxes, exp_args, flatten4, flatten_conf, nms, overlap, parse_priors, Det, RetinaFace};
use osf_ort::{BgrImage, TensorF16};

fn s(x: f32) -> Single {
    single::of(x.to_bits())
}

fn f(x: Single) -> f32 {
    f32::from_bits(x.bits)
}

fn det(x1: f32, y1: f32, x2: f32, y2: f32, score: f32) -> Det {
    Det {
        x1: s(x1),
        y1: s(y1),
        x2: s(x2),
        y2: s(y2),
        score: s(score),
    }
}

#[test]
fn strongest_of_overlapping_boxes_stay() {
    let dets = [
        det(0.0, 0.0, 10.0, 10.0, 0.6),
        det(1.0, 1.0, 11.0, 11.0, 0.9),
        det(50.0, 50.0, 60.0, 60.0, 0.7),
    ];
    assert_eq!(nms(&dets, s(0.4)), vec![1, 2]);
    assert!(f(overlap(dets[0], dets[1])) > 0.4);
    assert_eq!(nms(&[], s(0.4)), Vec::<usize>::new());
}

#[test]
fn priors_and_offsets_give_boxes() {
    let priors = parse_priors(&[[0.5, 0.5, 0.2, 0.4].map(s).to_vec(), vec![s(1.0)]]);
    assert_eq!(priors[0].map(f), [0.5, 0.5, 0.2, 0.4]);
    let loc = [[0.0; 4].map(s)];
    let a = exp_args(&loc);
    assert_eq!(a[0].map(f), [0.0, 0.0]);
    let b = decode_boxes(&loc, &priors, &[[s(1.0), s(1.0)]]);
    let got = b[0].map(f);
    for (x, y) in got.iter().zip([0.4, 0.3, 0.6, 0.7]) {
        assert!((x - y).abs() < 1e-6, "{got:?}");
    }
}

#[test]
fn tensors_are_flattened() {
    let t = TensorF16::from_f32(vec![1, 2, 4], &[1.0, 2.0, 3.0, 4.0, 5.0, 6.0, 7.0, 8.0].map(s));
    let rows: Vec<[f32; 4]> = flatten4(&t).into_iter().map(|r| r.map(f)).collect();
    assert_eq!(rows, vec![[1.0, 2.0, 3.0, 4.0], [5.0, 6.0, 7.0, 8.0]]);
    assert!(!flatten_conf(&t).is_empty());
}

#[test]
fn frames_wait_one_at_a_time() {
    let mut r = RetinaFace::new(vec![], 2);
    let a = BgrImage::zeros(4, 2);
    let b = BgrImage::zeros(8, 8);
    r.background_detect(&a);
    r.background_detect(&b);
    let p = r.take_pending().unwrap();
    assert_eq!((p.width, p.height), (4, 2));
    assert!(r.take_pending().is_none());
    let got = r.get_results(true, Some(vec![[1.0; 4].map(s)]));
    assert_eq!(got.len(), 1);
    assert!(r.get_results(false, None).is_empty());
}

#[test]
fn what_is_dropped_overlaps_with_a_stronger_box() {
    let dets: Vec<Det> = (0..40)
        .map(|i| {
            let x = ((i * 37) % 23) as f32;
            let y = ((i * 17) % 19) as f32;
            det(x, y, x + 9.0, y + 8.0, ((i * 29) % 31) as f32 / 31.0)
        })
        .collect();
    let limit = s(0.4);
    let keep = nms(&dets, limit);
    for (a, i) in keep.iter().enumerate() {
        for j in &keep[a + 1..] {
            assert!(i != j && f(dets[*i].score) >= f(dets[*j].score));
            assert!(f(overlap(dets[*i], dets[*j])) <= 0.4);
        }
    }
    for (i, d) in dets.iter().enumerate() {
        let held = keep
            .iter()
            .any(|k| f(overlap(dets[*k], *d)) > 0.4 && f(dets[*k].score) >= f(d.score));
        assert!(keep.contains(&i) || held, "{i}");
    }
}
