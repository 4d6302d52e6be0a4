use osf_ort::ieee::convert;
use osf_ort::ieee::double;
use osf_ort::ieee::double::Double;
use osf_ort::ieee::single;
use osf_ort::ieee::single::Single;

fn s(x: f32) -> Single {
    single::of(x.to_bits())
}

fn d(x: f64) -> Double {
    double::of(x.to_bits())
}

fn same32(a: Single, b: f32) -> bool {
    let x = f32::from_bits(a.bits);
    (x.is_nan() && b.is_nan()) || a.bits == b.to_bits()
}

fn same64(a: Double, b: f64) -> bool {
    let x = f64::from_bits(a.bits);
    (x.is_nan() && b.is_nan()) || a.bits == b.to_bits()
}

struct Rng(u64);

impl Rng {
    fn next(&mut self) -> u64 {
        self.0 ^= self.0 << 13;
        self.0 ^= self.0 >> 7;
        self.0 ^= self.0 << 17;
        self.0
    }
}

const EDGES: [u32; 22] = [
    0x0000_0000, 0x8000_0000, 0x0000_0001, 0x8000_0001, 0x007f_ffff, 0x0080_0000, 0x0080_0001,
    0x3f80_0000, 0xbf80_0000, 0x3f7f_ffff, 0x3f80_0001, 0x4b80_0000, 0x4b7f_ffff, 0x7f7f_ffff,
    0xff7f_ffff, 0x7f80_0000, 0xff80_0000, 0x7fc0_0000, 0x3f00_0000, 0xbf00_0000, 0x3fc0_0000,
    0x4f80_0000,
];

fn check_pair(a: u32, b: u32) {
    let (x, y) = (f32::from_bits(a), f32::from_bits(b));
    let (p, q) = (single::of(a), single::of(b));
    assert!(same32(p + q, x + y), "{a:x} + {b:x}");
    assert!(same32(p - q, x - y), "{a:x} - {b:x}");
    assert!(same32(p * q, x * y), "{a:x} * {b:x}");
    assert!(same32(p / q, x / y), "{a:x} / {b:x}");
    assert_eq!(p.lt(q), x < y);
    assert_eq!(p.le(q), x <= y);
    assert_eq!(p.gt(q), x > y);
    assert_eq!(p.ge(q), x >= y);
    assert_eq!(p.same(q), x == y);
    assert_eq!(f32::from_bits(p.max(q).bits) == x.max(y), !x.max(y).is_nan());
    assert_eq!(f32::from_bits(p.min(q).bits) == x.min(y), !x.min(y).is_nan());
}

fn check_one(a: u32) {
    let x = f32::from_bits(a);
    let p = single::of(a);
    assert!(same32(p.floor(), x.floor()), "floor {a:x}");
    assert!(same32(p.ceil(), x.ceil()), "ceil {a:x}");
    assert!(same32(p.round(), x.round()), "round {a:x}");
    assert!(same32(p.sqrt(), x.sqrt()), "sqrt {a:x}");
    assert!(same32(p.abs(), x.abs()), "abs {a:x}");
    assert!(same32(p.negated(), -x), "neg {a:x}");
    assert_eq!(p.to_i32(), x as i32, "i32 {a:x}");
    assert_eq!(p.to_u32(), x as u32, "u32 {a:x}");
    assert_eq!(p.to_u8(), x as u8, "u8 {a:x}");
    assert_eq!(p.is_nan(), x.is_nan());
    assert_eq!(p.is_finite(), x.is_finite());
    assert!(same64(convert::to_double(p), x as f64), "widen {a:x}");
    if !x.is_nan() {
        assert_eq!(convert::half_word(p), half::f16::from_f32(x).to_bits(), "half {a:x}");
    }
}

#[test]
fn single_edges_match_hardware() {
    for a in EDGES {
        check_one(a);
        for b in EDGES {
            check_pair(a, b);
        }
    }
}

#[test]
fn single_random_words_match_hardware() {
    let mut r = Rng(0x9e37_79b9_7f4a_7c15);
    for _ in 0..60_000 {
        let v = r.next();
        check_pair(v as u32, (v >> 32) as u32);
        check_one(v as u32);
    }
}

#[test]
fn single_close_magnitudes_match_hardware() {
    let mut r = Rng(0x1234_5678_9abc_def1);
    for _ in 0..60_000 {
        let v = r.next();
        let a = 0x3f00_0000 + (v as u32 & 0x01ff_ffff);
        let b = 0x3e80_0000 + ((v >> 32) as u32 & 0x03ff_ffff);
        check_pair(a, b);
        check_pair(a | 0x8000_0000, b);
        check_one(a + (v as u32 % 40) * 0x0080_0000 - 0x0a00_0000);
    }
}

#[test]
fn double_random_words_match_hardware() {
    let mut r = Rng(0xdead_beef_cafe_f00d);
    for i in 0..40_000 {
        let (a, mut b) = (r.next(), r.next());
        if i % 2 == 0 {
            b = (a & 0x7ff0_0000_0000_0000) | (b & 0x800f_ffff_ffff_ffff);
        }
        let (x, y) = (f64::from_bits(a), f64::from_bits(b));
        let (p, q) = (double::of(a), double::of(b));
        assert!(same64(p + q, x + y), "{a:x} + {b:x}");
        assert!(same64(p - q, x - y), "{a:x} - {b:x}");
        assert!(same64(p * q, x * y), "{a:x} * {b:x}");
        assert!(same64(p / q, x / y), "{a:x} / {b:x}");
        assert!(same64(p.sqrt(), x.sqrt()), "sqrt {a:x}");
        assert!(same64(p.floor(), x.floor()), "floor {a:x}");
        assert_eq!(p.lt(q), x < y);
        assert!(same32(convert::to_single(p), x as f32), "narrow {a:x}");
        let c = (a & 0x800f_ffff_ffff_ffff) | 0x3ff0_0000_0000_0000 | ((a >> 3) & 0x00f0_0000_0000_0000);
        assert!(same32(convert::to_single(double::of(c)), f64::from_bits(c) as f32), "narrow {c:x}");
    }
}

#[test]
fn integers_match_hardware() {
    let mut r = Rng(77);
    for _ in 0..20_000 {
        let n = r.next();
        let k = n >> (n % 60);
        assert!(same32(single::from_u64(k), k as f32), "{k}");
        assert!(same64(double::from_u64(k), k as f64), "{k}");
        let i = (k >> 1) as i64;
        assert!(same32(single::from_i64(-i), (-i) as f32), "{i}");
        assert!(same64(double::from_i64(-i), (-i) as f64), "{i}");
    }
}

#[test]
fn every_half_word_widens_as_the_half_crate_does() {
    for h in 0..=u16::MAX {
        let want = half::f16::from_bits(h).to_f32();
        let got = convert::from_half(h);
        assert!(same32(got, want), "{h:x}");
        if !want.is_nan() {
            assert_eq!(convert::half_word(got), h);
        }
    }
}

#[test]
fn rounding_keeps_what_is_representable() {
    for n in [0u64, 1, 2, 3, 255, 256, 0xff_ffff, 0x100_0000] {
        assert_eq!(single::from_u64(n).to_u32() as u64, n);
    }
    assert_eq!(single::from_u64(0x100_0001).to_u32(), 0x100_0000);
    assert_eq!(s(1.5) + s(2.25), s(3.75));
    assert_eq!(d(0.1) + d(0.2), d(0.1 + 0.2));
    assert_eq!(s(-3.7).clamp(s(-1.0), s(1.0)), s(-1.0));
}
