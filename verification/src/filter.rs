//! Smoothing of the pose and of the landmarks that are sent out, with the 1€ filter.

use crate::geom;
use crate::ieee::binary;
use crate::ieee::decimal;
use crate::ieee::facts;
use crate::ieee::maths;
use crate::ieee::order;
use crate::ieee::round;
use crate::ieee::single;
use crate::ieee::single::Single;
use crate::text;
use crate::unit;
use std::str::FromStr;
use vstd::arithmetic::div_mod::*;
use vstd::arithmetic::power2::*;
use vstd::prelude::*;

verus! {

/// The word of the shortest time step of one number, 1e-6 s.
pub const TINY_STEP: u32 = 0x3586_37bd;

/// The word of the lowest cutoff, 1e-4 Hz.
pub const TINY_CUTOFF: u32 = 0x38d1_b717;

/// The word of the shortest length that a quaternion is divided by, 1e-8.
pub const TINY_NORM: u32 = 0x322b_cc77;

/// The word of the shortest time step of a frame, 1/240 s.
pub const SHORTEST: u32 = 0x3b88_8889;

/// The word of the longest time step of a frame, 1/4 s.
pub const LONGEST: u32 = 0x3e80_0000;

/// The word of a full turn in degrees.
pub const CIRCLE: u32 = 0x43b4_0000;

/// The word of half a turn in degrees.
pub const HALF_CIRCLE: u32 = 0x4334_0000;

/// The word of how much the speed raises the cutoff by default, 0.007.
pub const DEFAULT_BETA: u32 = 0x3be5_6042;

/// How the output is smoothed.
#[derive(Clone, Copy, Debug, PartialEq, Eq, Structural)]
pub enum FilterKind {
    Off,
    OneEuro,
}

impl Default for FilterKind {
    fn default() -> (r: FilterKind)
        ensures
            r == FilterKind::Off,
    {
        FilterKind::Off
    }
}

/// A filter name that is not known, in lower case and with `-` for `_`.
#[derive(Debug)]
pub struct UnknownFilter {
    pub name: Vec<char>,
}

/// A name as it is compared: ASCII letters in lower case, `-` for `_`.
pub open spec fn normal_name(s: Seq<char>) -> Seq<char> {
    text::lowered(s).map_values(
        |c: char|
            if c == '_' {
                '-'
            } else {
                c
            },
    )
}

/// The kind with the given name.
pub open spec fn kind_named(name: Seq<char>) -> Option<FilterKind> {
    if name == "none"@ || name == "off"@ || name == "0"@ {
        Some(FilterKind::Off)
    } else if name == "one-euro"@ || name == "oneeuro"@ || name == "1e"@ || name == "euro"@ {
        Some(FilterKind::OneEuro)
    } else {
        None
    }
}

fn normalise(s: &str) -> (r: Vec<char>)
    ensures
        r@ == normal_name(s@),
{
    let c = text::chars(s);
    let mut r = text::lower_all(c.as_slice());
    let mut i: usize = 0;
    while i < r.len()
        invariant
            i <= r@.len(),
            r@.len() == s@.len(),
            forall|j: int| 0 <= j < i ==> r@[j] == normal_name(s@)[j],
            forall|j: int| i <= j < r@.len() ==> r@[j] == text::lowered(s@)[j],
        decreases r@.len() - i,
    {
        if r[i] == '_' {
            r.set(i, '-');
        }
        i = i + 1;
    }
    assert(r@ =~= normal_name(s@));
    r
}

impl FilterKind {
    /// The name of the kind.
    pub fn as_str(self) -> (r: &'static str)
        ensures
            r@ == (match self {
                FilterKind::Off => "none"@,
                FilterKind::OneEuro => "one-euro"@,
            }),
    {
        match self {
            FilterKind::Off => "none",
            FilterKind::OneEuro => "one-euro",
        }
    }

    /// The kind with the given name, in any case and with `_` or `-`.
    pub fn parse(s: &str) -> (r: Result<FilterKind, UnknownFilter>)
        ensures
            match r {
                Ok(k) => kind_named(normal_name(s@)) == Some(k),
                Err(e) => kind_named(normal_name(s@)) is None && e.name@ == normal_name(s@),
            },
    {
        let n = normalise(s);
        let v = n.as_slice();
        if text::spells(v, "none") || text::spells(v, "off") || text::spells(v, "0") {
            Ok(FilterKind::Off)
        } else if text::spells(v, "one-euro") || text::spells(v, "oneeuro") || text::spells(v, "1e")
            || text::spells(v, "euro") {
            Ok(FilterKind::OneEuro)
        } else {
            Err(UnknownFilter { name: n })
        }
    }
}

impl FromStr for FilterKind {
    type Err = UnknownFilter;

    fn from_str(s: &str) -> (r: Result<FilterKind, UnknownFilter>)
        ensures
            match r {
                Ok(k) => kind_named(normal_name(s@)) == Some(k),
                Err(e) => kind_named(normal_name(s@)) is None && e.name@ == normal_name(s@),
            },
    {
        FilterKind::parse(s)
    }
}

/// The name of a kind names that kind.
pub proof fn lemma_names_round_trip(kind: FilterKind)
    ensures
        kind_named(
            normal_name(
                match kind {
                    FilterKind::Off => "none"@,
                    FilterKind::OneEuro => "one-euro"@,
                },
            ),
        ) == Some(kind),
{
    reveal_strlit("none");
    reveal_strlit("off");
    reveal_strlit("0");
    reveal_strlit("one-euro");
    assert(normal_name("none"@) =~= "none"@);
    assert(normal_name("one-euro"@) =~= "one-euro"@);
    assert("one-euro"@.len() == 8);
}

/// The parameters of the filter.
#[derive(Clone, Copy, Debug, PartialEq, Eq, Structural)]
pub struct FilterCfg {
    pub kind: FilterKind,
    pub mincutoff: Single,
    pub beta: Single,
    pub dcutoff: Single,
}

impl Default for FilterCfg {
    fn default() -> (r: FilterCfg)
        ensures
            r == (FilterCfg {
                kind: FilterKind::Off,
                mincutoff: single::of(single::ONE),
                beta: single::of(DEFAULT_BETA),
                dcutoff: single::of(single::ONE),
            }),
    {
        FilterCfg {
            kind: FilterKind::Off,
            mincutoff: single::of(single::ONE),
            beta: single::of(DEFAULT_BETA),
            dcutoff: single::of(single::ONE),
        }
    }
}

impl FilterCfg {
    /// A filter with the default cutoff of the speed.
    pub fn new(kind: FilterKind, mincutoff: Single, beta: Single) -> (r: FilterCfg)
        ensures
            r == (FilterCfg { kind, mincutoff, beta, dcutoff: single::of(single::ONE) }),
    {
        FilterCfg { kind, mincutoff, beta, dcutoff: single::of(single::ONE) }
    }
}

/// How good the measurement of a frame is: how sure its landmarks are, and how well the pose fits
/// them, if there is one.
#[derive(Clone, Copy, Debug, PartialEq, Eq, Structural)]
pub struct FilterQuality {
    pub conf: Single,
    pub pnp_error: Single,
    pub success: bool,
}

impl FilterQuality {
    pub open spec fn stability_spec(self) -> Single {
        let one = single::of(single::ONE);
        let s = one / (one + self.pnp_error / single::of(decimal::N200));
        if self.success {
            s
        } else {
            s.max(single::of(decimal::N0_25))
        }
    }

    /// How steady the pose is: the less the larger its error, but no less than a quarter where there
    /// is none.
    #[verifier::when_used_as_spec(stability_spec)]
    pub fn stability(self) -> (r: Single)
        ensures
            r == self.stability_spec(),
    {
        let one: Single = single::of(single::ONE);
        let s: Single = one / (one + self.pnp_error / single::of(decimal::N200));
        if self.success {
            s
        } else {
            s.max(single::of(decimal::N0_25))
        }
    }
}

impl FilterCfg {
    pub open spec fn rated_spec(self, quality: FilterQuality) -> FilterCfg {
        FilterCfg {
            mincutoff: self.mincutoff * (quality.conf * quality.stability()),
            ..self
        }
    }

    /// The parameters for a frame of the given quality: the poorer it is, the lower the cutoff at
    /// rest.
    #[verifier::when_used_as_spec(rated_spec)]
    pub fn rated(self, quality: FilterQuality) -> (r: FilterCfg)
        ensures
            r == self.rated_spec(quality),
    {
        FilterCfg {
            kind: self.kind,
            mincutoff: self.mincutoff * (quality.conf * quality.stability()),
            beta: self.beta,
            dcutoff: self.dcutoff,
        }
    }
}

/// A frame of full quality is filtered by the speed alone.
pub proof fn lemma_full_quality(cfg: FilterCfg)
    requires
        !cfg.mincutoff.is_nan(),
    ensures
        cfg.rated(
            FilterQuality { conf: single::of(single::ONE), pnp_error: single::of(0), success: true },
        ) == cfg,
{
    let one = single::of(single::ONE);
    facts::lemma_one_and_nothing(single::of(decimal::N200));
    facts::lemma_one_by_one();
    facts::lemma_times_one(one);
    facts::lemma_times_one(cfg.mincutoff);
}

pub open spec fn alpha_spec(cutoff: Single, dt: Single) -> Single {
    let one = single::of(single::ONE);
    let tau = one / (single::of(maths::TURN) * cutoff.max(single::of(TINY_CUTOFF)));
    one / (one + tau / dt.max(single::of(TINY_STEP)))
}

/// The weight of a new value, for a cutoff frequency and a time step.
#[verifier::when_used_as_spec(alpha_spec)]
pub fn alpha(cutoff: Single, dt: Single) -> (r: Single)
    ensures
        r == alpha_spec(cutoff, dt),
{
    let one: Single = single::of(single::ONE);
    let tau: Single = one / (single::of(maths::TURN) * cutoff.max(single::of(TINY_CUTOFF)));
    one / (one + tau / dt.max(single::of(TINY_STEP)))
}

/// The filter of one number: what it put out, the smoothed speed, and what it took in.
#[derive(Clone, Copy, Debug, PartialEq, Eq, Structural)]
pub struct OneEuro {
    pub xhat: Option<Single>,
    pub dxhat: Single,
    pub xprev: Option<Single>,
}

/// A weighted mean of a new value and an old one.
pub open spec fn blend(a: Single, x: Single, old_x: Single) -> Single {
    a * x + (single::of(single::ONE) - a) * old_x
}

/// A filter that has seen nothing.
pub open spec fn fresh() -> OneEuro {
    OneEuro { xhat: None, dxhat: single::of(0), xprev: None }
}

impl OneEuro {
    /// The smoothed speed once `x` has come in.
    pub open spec fn speed(self, x: Single, dt: Single, cfg: FilterCfg) -> Single {
        match self.xprev {
            None => single::of(0),
            Some(p) => blend(
                alpha(cfg.dcutoff, dt.max(single::of(TINY_STEP))),
                (x - p) / dt.max(single::of(TINY_STEP)),
                self.dxhat,
            ),
        }
    }

    /// The weight that `x` gets against what was put out last.
    pub open spec fn weight(self, x: Single, dt: Single, cfg: FilterCfg) -> Single {
        let cutoff = (cfg.mincutoff + cfg.beta * self.speed(x, dt, cfg).abs()).max(
            single::of(TINY_CUTOFF),
        );
        alpha(cutoff, dt.max(single::of(TINY_STEP)))
    }

    /// What comes out for `x`.
    pub open spec fn out(self, x: Single, dt: Single, cfg: FilterCfg) -> Single {
        match self.xhat {
            None => x,
            Some(p) => blend(self.weight(x, dt, cfg), x, p),
        }
    }

    /// The filter once `x` has come in.
    #[verifier::opaque]
    pub open spec fn after(self, x: Single, dt: Single, cfg: FilterCfg) -> OneEuro {
        OneEuro {
            xhat: Some(self.out(x, dt, cfg)),
            dxhat: self.speed(x, dt, cfg),
            xprev: Some(x),
        }
    }

    /// A filter that has seen nothing.
    pub fn new() -> (r: OneEuro)
        ensures
            r == fresh(),
    {
        OneEuro { xhat: None, dxhat: single::of(0), xprev: None }
    }

    fn stepped(self, x: Single, dt: Single, cfg: &FilterCfg) -> (r: (OneEuro, Single))
        ensures
            r.0 == self.after(x, dt, *cfg),
            self.after(x, dt, *cfg).xhat == Some(r.1),
    {
        proof {
            reveal(OneEuro::after);
        }
        let one: Single = single::of(single::ONE);
        let dt: Single = dt.max(single::of(TINY_STEP));
        let speed: Single = match self.xprev {
            Some(p) => {
                let a: Single = alpha(cfg.dcutoff, dt);
                a * ((x - p) / dt) + (one - a) * self.dxhat
            },
            None => single::of(0),
        };
        let cutoff: Single = (cfg.mincutoff + cfg.beta * speed.abs()).max(single::of(TINY_CUTOFF));
        let a: Single = alpha(cutoff, dt);
        let y: Single = match self.xhat {
            Some(p) => a * x + (one - a) * p,
            None => x,
        };
        (OneEuro { xhat: Some(y), dxhat: speed, xprev: Some(x) }, y)
    }

    /// Takes in `x`, `dt` seconds after the last value, and gives the smoothed value.
    pub fn filter(&mut self, x: Single, dt: Single, cfg: &FilterCfg) -> (r: Single)
        ensures
            *final(self) == old(self).after(x, dt, *cfg),
            final(self).xhat == Some(r),
    {
        let (next, y) = self.stepped(x, dt, cfg);
        *self = next;
        y
    }
}

/// The first value passes through unchanged.
pub proof fn lemma_first_passes(x: Single, dt: Single, cfg: FilterCfg)
    ensures
        fresh().after(x, dt, cfg).xhat == Some(x),
{
    reveal(OneEuro::after);
}

/// A poorer frame is smoothed more: with less confidence and a less steady pose, a new value gets no
/// more weight against what was put out last.
pub proof fn lemma_poorer_weighs_less(
    f: OneEuro,
    x: Single,
    dt: Single,
    cfg: FilterCfg,
    good: FilterQuality,
    poor: FilterQuality,
)
    requires
        single::of(0).le(cfg.mincutoff),
        cfg.mincutoff.is_finite(),
        single::of(0).le(cfg.beta * f.speed(x, dt, cfg).abs()),
        dt.is_finite(),
        single::of(0).le(poor.conf),
        poor.conf.le(good.conf),
        good.conf.is_finite(),
        single::of(0).le(poor.stability()),
        poor.stability().le(good.stability()),
        good.stability().is_finite(),
        (good.conf * good.stability()).is_finite(),
    ensures
        f.weight(x, dt, cfg.rated(poor)).le(f.weight(x, dt, cfg.rated(good))),
{
    let zero = single::of(0);
    let one = single::of(single::ONE);
    let (qa, qb) = (good.conf * good.stability(), poor.conf * poor.stability());
    order::lemma_mul_order(poor.conf, good.conf, poor.stability());
    order::lemma_mul_order(poor.stability(), good.stability(), good.conf);
    assert(zero.le(qb) && qb.le(qa));
    order::lemma_mul_order(qb, qa, cfg.mincutoff);
    let (ma, mb) = (cfg.rated(good).mincutoff, cfg.rated(poor).mincutoff);
    assert(zero.le(mb) && mb.le(ma));
    let s = cfg.beta * f.speed(x, dt, cfg).abs();
    assert(f.speed(x, dt, cfg.rated(good)) == f.speed(x, dt, cfg));
    assert(f.speed(x, dt, cfg.rated(poor)) == f.speed(x, dt, cfg));
    order::lemma_add_order(mb, ma, s);
    let tiny = single::of(TINY_CUTOFF);
    let (ka, kb) = ((ma + s).max(tiny).max(tiny), (mb + s).max(tiny).max(tiny));
    assert(zero.lt(kb) && kb.le(ka));
    let turn = single::of(maths::TURN);
    order::lemma_mul_order(kb, ka, turn);
    order::lemma_mul_order(one, turn, tiny);
    order::lemma_mul_order(tiny, kb, turn);
    facts::lemma_times_one(tiny);
    assert(zero.lt(turn * kb));
    order::lemma_div_order(one, one, turn * kb, turn * ka);
    let (ta, tb) = (one / (turn * ka), one / (turn * kb));
    let step = dt.max(single::of(TINY_STEP)).max(single::of(TINY_STEP));
    order::lemma_div_order(ta, tb, step, step);
    let (za, zb) = (ta / step, tb / step);
    order::lemma_add_order(za, zb, one);
    assert(one.le(one + za)) by {
        order::lemma_add_order(one, one, za);
    }
    order::lemma_div_order(one, one, one + za, one + zb);
}

/// The weight of a new value lies between nothing and one.
proof fn lemma_weight_is_share(f: OneEuro, x: Single, dt: Single, cfg: FilterCfg)
    requires
        !f.weight(x, dt, cfg).is_nan(),
        dt.is_finite(),
    ensures
        single::of(0).le(f.weight(x, dt, cfg)),
        f.weight(x, dt, cfg).le(single::of(single::ONE)),
{
    let one = single::of(single::ONE);
    let tiny = single::of(TINY_CUTOFF);
    let cutoff = (cfg.mincutoff + cfg.beta * f.speed(x, dt, cfg).abs()).max(tiny);
    let k = cutoff.max(tiny);
    let step = dt.max(single::of(TINY_STEP)).max(single::of(TINY_STEP));
    let turn = single::of(maths::TURN);
    order::lemma_mul_order(tiny, k, turn);
    let tau = one / (turn * k);
    order::lemma_mul_order(one, turn, tiny);
    facts::lemma_times_one(tiny);
    order::lemma_div_order(one, one, turn * k, turn * k);
    order::lemma_div_order(tau, tau, step, step);
    let z = tau / step;
    order::lemma_add_order(one, one, z);
    order::lemma_div_order(one, one, one, one + z);
    facts::lemma_one_by_one();
}

/// A mean of a new value and an old one lies from the old one by the new one's weight of their
/// distance, but for rounding.
proof fn lemma_blend_close(a: Single, x: Single, p: Single, k: nat)
    requires
        single::of(0).le(a),
        a.le(single::of(single::ONE)),
        x.is_finite(),
        p.is_finite(),
        150 <= k <= 260,
        -pow2(k) < order::val(x) < pow2(k),
        -pow2(k) < order::val(p) < pow2(k),
    ensures
        blend(a, x, p).is_finite(),
        ({
            let off = (order::val(blend(a, x, p)) - order::val(p)) * pow2(149);
            let ideal = order::val(a) * (order::val(x) - order::val(p));
            -5 * (pow2((k - 24) as nat) * pow2(149)) <= off - ideal <= 5 * (pow2((k - 24) as nat)
                * pow2(149))
        }),
{
    let one = single::of(single::ONE);
    let u = pow2(149);
    let e = pow2((k - 24) as nat);
    let b = pow2(k);
    facts::lemma_single_one();
    order::lemma_val_order(single::of(0), a);
    order::lemma_val_order(a, one);
    let (al, vx, vp) = (order::val(a), order::val(x), order::val(p));
    assert(0 <= al <= u) by {
        lemma2_to64();
        assert(round::units(0, 24) == 0);
    }
    lemma2_to64();
    lemma_pow2_pos((k - 24) as nat);
    lemma_pow2_pos(125);
    lemma_pow2_adds(24, (k - 24) as nat);
    lemma_pow2_adds(24, 125);
    lemma_pow2_unfold(150);
    lemma_pow2_unfold(126);
    lemma_pow2_unfold(k + 1);
    lemma_pow2_unfold(k + 2);
    lemma_pow2_unfold((k - 23) as nat);
    lemma_pow2_unfold((k - 22) as nat);
    assert(-(b * u) < al * vx < b * u) by (nonlinear_arith)
        requires
            0 <= al <= u,
            -b < vx < b,
            u > 0,
    ;
    order::lemma_product_close(a, x, k);
    let ax = a * x;
    order::lemma_val_negated(a);
    order::lemma_sum_close(one, a.negated(), 150);
    let c = one - a;
    let vc = order::val(c);
    let d = vc - (u - al);
    assert(-pow2(125) <= d <= pow2(125));
    assert(-((2 * b) * u) < vc * vp < (2 * b) * u) by (nonlinear_arith)
        requires
            -2 * u < vc < 2 * u,
            -b < vp < b,
            u > 0,
    ;
    order::lemma_product_close(c, p, k + 1);
    let cp = c * p;
    assert(-(e * u) <= d * vp <= e * u) by (nonlinear_arith)
        requires
            -pow2(125) <= d <= pow2(125),
            -b < vp < b,
            b == 0x100_0000 * e,
            u == 0x100_0000 * pow2(125),
            e > 0,
    ;
    let (m, n) = (order::val(ax), order::val(cp));
    assert(2 * (m * u - al * vx) <= u * e && 2 * (al * vx - m * u) <= u * e);
    assert(2 * (n * u - vc * vp) <= u * (2 * e) && 2 * (vc * vp - n * u) <= u * (2 * e));
    assert(u * (2 * e) == 2 * (e * u) && u * e == e * u) by (nonlinear_arith);
    assert(vc * vp == (u - al) * vp + d * vp) by (nonlinear_arith)
        requires
            d == vc - (u - al),
    ;
    assert(-(2 * b) < m < 2 * b) by (nonlinear_arith)
        requires
            2 * (m * u - al * vx) <= e * u,
            2 * (al * vx - m * u) <= e * u,
            -(b * u) < al * vx < b * u,
            b == 0x100_0000 * e,
            e > 0,
            u > 0,
    ;
    assert(-((b + e) * u) <= vc * vp <= (b + e) * u) by (nonlinear_arith)
        requires
            -pow2(125) <= vc <= u + pow2(125),
            -b < vp < b,
            b == 0x100_0000 * e,
            u == 0x100_0000 * pow2(125),
            e > 0,
            u > 0,
    ;
    assert(-(2 * b) < n < 2 * b) by (nonlinear_arith)
        requires
            n * u - vc * vp <= e * u,
            vc * vp - n * u <= e * u,
            -((b + e) * u) <= vc * vp <= (b + e) * u,
            b == 0x100_0000 * e,
            e > 0,
            u > 0,
    ;
    order::lemma_sum_close(ax, cp, k + 2);
    let o = order::val(blend(a, x, p));
    let w = o - (m + n);
    assert(-2 * e <= w <= 2 * e);
    assert((o - vp) * u == w * u + m * u + n * u - vp * u) by (nonlinear_arith)
        requires
            w == o - (m + n),
    ;
    assert(-2 * (e * u) <= w * u <= 2 * (e * u)) by (nonlinear_arith)
        requires
            -2 * e <= w <= 2 * e,
            u > 0,
    ;
    assert((u - al) * vp == vp * u - al * vp && al * (vx - vp) == al * vx - al * vp) by (nonlinear_arith);
}

/// A poorer frame moves the output no farther from where it was last, but for rounding: of two frames
/// with the same new value, the one with less confidence and a less steady pose comes out no farther
/// from the last output by more than the 2^20th part of the power of two above the numbers.
pub proof fn lemma_poorer_moves_less(
    f: OneEuro,
    x: Single,
    dt: Single,
    cfg: FilterCfg,
    good: FilterQuality,
    poor: FilterQuality,
    k: nat,
)
    requires
        single::of(0).le(cfg.mincutoff),
        cfg.mincutoff.is_finite(),
        dt.is_finite(),
        at_least_as_good(good, poor),
        150 <= k <= 260,
        follows(f, x, dt, cfg, k),
    ensures
        no_farther(
            f.xhat->0,
            f.out(x, dt, cfg.rated(good)),
            f.out(x, dt, cfg.rated(poor)),
            k,
        ),
{
    let p = f.xhat->0;
    let (g, h) = (cfg.rated(good), cfg.rated(poor));
    lemma_poorer_weighs_less(f, x, dt, cfg, good, poor);
    lemma_weight_is_share(f, x, dt, g);
    lemma_weight_is_share(f, x, dt, h);
    let (wa, wb) = (f.weight(x, dt, g), f.weight(x, dt, h));
    lemma_blend_close(wa, x, p, k);
    lemma_blend_close(wb, x, p, k);
    order::lemma_val_order(wb, wa);
    order::lemma_val_order(single::of(0), wb);
    let u = pow2(149);
    let e = pow2((k - 24) as nat);
    lemma_pow2_pos(149);
    lemma_pow2_adds(4, (k - 24) as nat);
    lemma2_to64();
    let (al, bl) = (order::val(wa), order::val(wb));
    assert(0 <= bl <= al) by {
        assert(round::units(0, 24) == 0);
    }
    let d = order::val(x) - order::val(p);
    let (a, b) = (
        order::val(blend(wa, x, p)) - order::val(p),
        order::val(blend(wb, x, p)) - order::val(p),
    );
    assert(order::distance(bl * d, 0) <= order::distance(al * d, 0)) by (nonlinear_arith)
        requires
            0 <= bl <= al,
    ;
    assert(order::distance(b * u, 0) <= order::distance(a * u, 0) + 10 * (e * u));
    assert(order::distance(b, 0) <= order::distance(a, 0) + 10 * e) by (nonlinear_arith)
        requires
            order::distance(b * u, 0) <= order::distance(a * u, 0) + 10 * (e * u),
            u > 0,
    ;
}

/// Whether one frame is at least as sure and as steady as another.
pub open spec fn at_least_as_good(good: FilterQuality, poor: FilterQuality) -> bool {
    &&& single::of(0).le(poor.conf)
    &&& poor.conf.le(good.conf)
    &&& good.conf.is_finite()
    &&& single::of(0).le(poor.stability())
    &&& poor.stability().le(good.stability())
    &&& good.stability().is_finite()
    &&& (good.conf * good.stability()).is_finite()
}

/// Whether a filter has put something out, and it and what comes in are below `2^k` in units of the
/// smallest number.
pub open spec fn follows(f: OneEuro, x: Single, dt: Single, cfg: FilterCfg, k: nat) -> bool {
    &&& f.xhat is Some
    &&& f.xhat->0.is_finite()
    &&& x.is_finite()
    &&& -pow2(k) < order::val(x) < pow2(k)
    &&& -pow2(k) < order::val(f.xhat->0) < pow2(k)
    &&& single::of(0).le(cfg.beta * f.speed(x, dt, cfg).abs())
}

/// Whether `b` is no farther from `last` than `a` is, but for rounding of numbers below `2^k`.
pub open spec fn no_farther(last: Single, a: Single, b: Single, k: nat) -> bool {
    order::distance(order::val(b), order::val(last)) <= order::distance(order::val(a), order::val(last))
        + pow2((k - 20) as nat)
}

/// A poorer frame is smoothed at least as strongly as a better one with the same numbers: place,
/// unwrapped angles, landmarks and points come out no farther from where they were last, but for
/// rounding.
pub proof fn lemma_poorer_frame_moves_less(
    a: OutputFilter,
    bg: OutputFilter,
    bp: OutputFilter,
    e0: Seq<Single>,
    eg: Seq<Single>,
    ep: Seq<Single>,
    t0: Seq<Single>,
    tg: Seq<Single>,
    tp: Seq<Single>,
    l0: Seq<[Single; 3]>,
    lg: Seq<[Single; 3]>,
    lp: Seq<[Single; 3]>,
    p0: Seq<[Single; 3]>,
    pg: Seq<[Single; 3]>,
    pp: Seq<[Single; 3]>,
    dt: Single,
    cfg: FilterCfg,
    good: FilterQuality,
    poor: FilterQuality,
    angles_g: Option<[Single; 3]>,
    angles_p: Option<[Single; 3]>,
    k: nat,
)
    requires
        cfg.kind == FilterKind::OneEuro,
        smoothed(a, bg, e0, eg, t0, tg, l0, lg, p0, pg, dt, cfg.rated(good), angles_g),
        smoothed(a, bp, e0, ep, t0, tp, l0, lp, p0, pp, dt, cfg.rated(poor), angles_p),
        at_least_as_good(good, poor),
        single::of(0).le(cfg.mincutoff),
        cfg.mincutoff.is_finite(),
        dt.is_finite(),
        150 <= k <= 260,
    ensures
        forall|i: int|
            0 <= i < 3 && follows(a.trans[i], t0[i], step_of(dt), cfg, k) ==> no_farther(
                a.trans[i].xhat->0,
                #[trigger] tg[i],
                tp[i],
                k,
            ),
        forall|i: int|
            0 <= i < 3 && follows(a.euler[i], a.angle_in(e0, i), step_of(dt), cfg, k) ==> no_farther(
                a.euler[i].xhat->0,
                #[trigger] bg.unwrapped->0[i],
                bp.unwrapped->0[i],
                k,
            ),
        forall|i: int, c: int|
            0 <= i < l0.len() && i < a.lms@.len() && 0 <= c < 2 && follows(
                a.lms@[i][c],
                l0[i][c],
                step_of(dt),
                cfg,
                k,
            ) ==> no_farther(a.lms@[i][c].xhat->0, #[trigger] lg[i][c], lp[i][c], k),
        forall|i: int, c: int|
            0 <= i < p0.len() && i < a.pts@.len() && 0 <= c < 3 && follows(
                a.pts@[i][c],
                p0[i][c],
                step_of(dt),
                cfg,
                k,
            ) ==> no_farther(a.pts@[i][c].xhat->0, #[trigger] pg[i][c], pp[i][c], k),
{
    let d = step_of(dt);
    assert forall|f: OneEuro, x: Single| follows(f, x, d, cfg, k) implies no_farther(
        f.xhat->0,
        (#[trigger] f.after(x, d, cfg.rated(good))).xhat->0,
        f.after(x, d, cfg.rated(poor)).xhat->0,
        k,
    ) by {
        reveal(OneEuro::after);
        lemma_poorer_moves_less(f, x, d, cfg, good, poor, k);
    }
    assert forall|i: int| 0 <= i < 3 && follows(a.trans[i], t0[i], d, cfg, k) implies no_farther(
        a.trans[i].xhat->0,
        #[trigger] tg[i],
        tp[i],
        k,
    ) by {
        let (x, y) = (bg.unwrapped->0[i], bp.unwrapped->0[i]);
        assert(bg.trans[i].xhat == Some(tg[i]) && bp.trans[i].xhat == Some(tp[i]));
    }
    assert forall|i: int| 0 <= i < 3 && follows(a.euler[i], a.angle_in(e0, i), d, cfg, k) implies no_farther(
        a.euler[i].xhat->0,
        #[trigger] bg.unwrapped->0[i],
        bp.unwrapped->0[i],
        k,
    ) by {
        assert(bp.euler[i].xhat == Some(bp.unwrapped->0[i]));
    }
    assert forall|i: int, c: int|
        0 <= i < l0.len() && i < a.lms@.len() && 0 <= c < 2 && follows(a.lms@[i][c], l0[i][c], d, cfg, k) implies no_farther(
        a.lms@[i][c].xhat->0,
        #[trigger] lg[i][c],
        lp[i][c],
        k,
    ) by {
        assert(bg.lms@[i][c] == a.lms@[i][c].after(l0[i][c], d, cfg.rated(good)));
        assert(bp.lms@[i][c] == a.lms@[i][c].after(l0[i][c], d, cfg.rated(poor)));
        assert(lp[i][c] == bp.lms@[i][c].xhat->0);
    }
    assert forall|i: int, c: int|
        0 <= i < p0.len() && i < a.pts@.len() && 0 <= c < 3 && follows(a.pts@[i][c], p0[i][c], d, cfg, k) implies no_farther(
        a.pts@[i][c].xhat->0,
        #[trigger] pg[i][c],
        pp[i][c],
        k,
    ) by {
        assert(bg.pts@[i][c] == a.pts@[i][c].after(p0[i][c], d, cfg.rated(good)));
        assert(bp.pts@[i][c] == a.pts@[i][c].after(p0[i][c], d, cfg.rated(poor)));
        assert(pp[i][c] == bp.pts@[i][c].xhat->0);
    }
}

/// A larger error makes a pose that was found less steady.
pub proof fn lemma_error_unsteadies(good: FilterQuality, poor: FilterQuality)
    requires
        good.success,
        poor.success,
        single::of(0).le(good.pnp_error),
        good.pnp_error.le(poor.pnp_error),
    ensures
        single::of(0).le(poor.stability()),
        poor.stability().le(good.stability()),
{
    let one = single::of(single::ONE);
    let d = single::of(decimal::N200);
    order::lemma_div_order(good.pnp_error, poor.pnp_error, d, d);
    order::lemma_add_order(good.pnp_error / d, poor.pnp_error / d, one);
    order::lemma_add_order(one, one, good.pnp_error / d);
    order::lemma_div_order(one, one, one + good.pnp_error / d, one + poor.pnp_error / d);
}

pub open spec fn unwrap_deg_spec(prev: Single, meas: Single) -> Single {
    let d = meas - prev;
    prev + (d - single::of(CIRCLE) * (d / single::of(CIRCLE)).round())
}

/// The angle nearest to `prev` that is a whole number of turns from `meas`, in degrees.
#[verifier::when_used_as_spec(unwrap_deg_spec)]
pub fn unwrap_deg(prev: Single, meas: Single) -> (r: Single)
    ensures
        r == unwrap_deg_spec(prev, meas),
{
    let d: Single = meas - prev;
    prev + (d - single::of(CIRCLE) * (d / single::of(CIRCLE)).round())
}

pub open spec fn wrap_deg_spec(a: Single) -> Single {
    let x = (a + single::of(HALF_CIRCLE)).remainder(single::of(CIRCLE));
    (if x.lt(single::of(0)) {
        x + single::of(CIRCLE)
    } else {
        x
    }) - single::of(HALF_CIRCLE)
}

/// The angle taken to within half a turn of zero, in degrees.
#[verifier::when_used_as_spec(wrap_deg_spec)]
pub fn wrap_deg(a: Single) -> (r: Single)
    ensures
        r == wrap_deg_spec(a),
{
    let mut x: Single = (a + single::of(HALF_CIRCLE)).remainder(single::of(CIRCLE));
    if x.lt(single::of(0)) {
        x = x + single::of(CIRCLE);
    }
    x - single::of(HALF_CIRCLE)
}

/// The rotation matrix of three angles, from their cosines and sines.
pub open spec fn turn_rows(c: Seq<Single>, s: Seq<Single>) -> Seq<Seq<Single>> {
    seq![
        seq![c[1] * c[2], c[2] * s[0] * s[1] - c[0] * s[2], s[0] * s[2] + c[0] * c[2] * s[1]],
        seq![c[1] * s[2], c[0] * c[2] + s[0] * s[1] * s[2], c[0] * s[1] * s[2] - c[2] * s[0]],
        seq![s[1].negated(), c[1] * s[0], c[0] * c[1]],
    ]
}

/// The rotation matrix of three angles, from their cosines and sines.
pub fn euler_to_rmat(c: [Single; 3], s: [Single; 3]) -> (r: [[Single; 3]; 3])
    ensures
        geom::rows(r) == turn_rows(c@, s@),
{
    let r: [[Single; 3]; 3] = [
        [c[1] * c[2], c[2] * s[0] * s[1] - c[0] * s[2], s[0] * s[2] + c[0] * c[2] * s[1]],
        [c[1] * s[2], c[0] * c[2] + s[0] * s[1] * s[2], c[0] * s[1] * s[2] - c[2] * s[0]],
        [s[1].negated(), c[1] * s[0], c[0] * c[1]],
    ];
    proof {
        let t = turn_rows(c@, s@);
        assert(r[0]@ =~= t[0]);
        assert(r[1]@ =~= t[1]);
        assert(r[2]@ =~= t[2]);
        assert(geom::rows(r) =~= t);
    }
    r
}

/// The length of a quaternion, and at least a tiny one.
pub open spec fn norm_of(q: Seq<Single>) -> Single {
    (q[0] * q[0] + q[1] * q[1] + q[2] * q[2] + q[3] * q[3]).sqrt().max(single::of(TINY_NORM))
}

/// The unit quaternion of three angles, from their cosines and sines.
pub fn euler_to_quat(c: [Single; 3], s: [Single; 3]) -> (r: [Single; 4])
    ensures
        ({
            let q = geom::quaternion_of(turn_rows(c@, s@));
            r@ == q.map_values(|v: Single| v / norm_of(q))
        }),
        (forall|i: int|
            0 <= i < 3 ==> (#[trigger] c@[i]).abs().le(single::of(single::ONE)) && s@[i].abs().le(
                single::of(single::ONE),
            )) ==> unit::is_unit(r@),
{
    let m = euler_to_rmat(c, s);
    let q: [Single; 4] = geom::matrix_to_quaternion(&m);
    let n: Single = (q[0] * q[0] + q[1] * q[1] + q[2] * q[2] + q[3] * q[3]).sqrt().max(
        single::of(TINY_NORM),
    );
    let r: [Single; 4] = [q[0] / n, q[1] / n, q[2] / n, q[3] / n];
    proof {
        assert(r@ =~= q@.map_values(|v: Single| v / norm_of(q@)));
        let one = single::of(single::ONE);
        if forall|i: int| 0 <= i < 3 ==> (#[trigger] c@[i]).abs().le(one) && s@[i].abs().le(one) {
            assert forall|i: int| 0 <= i < 3 implies (#[trigger] s@[i]).abs().le(one) by {
                assert(c@[i].abs().le(one));
            }
            unit::lemma_turn_has_unit_length(c@, s@);
        }
    }
    r
}

/// The filters of a face.
#[derive(Debug)]
pub struct OutputFilter {
    pub cfg: FilterCfg,
    pub trans: [OneEuro; 3],
    pub euler: [OneEuro; 3],
    pub lms: Vec<[OneEuro; 2]>,
    pub pts: Vec<[OneEuro; 3]>,
    pub unwrapped: Option<[Single; 3]>,
}

/// The time step that the filters use.
pub open spec fn step_of(dt: Single) -> Single {
    dt.clamp(single::of(SHORTEST), single::of(LONGEST))
}

/// The filter at `c` of point `i`, a fresh one where there is none yet.
pub open spec fn state_at<const N: usize>(v: Seq<[OneEuro; N]>, i: int, c: int) -> OneEuro {
    if i < v.len() {
        v[i][c]
    } else {
        fresh()
    }
}

/// Whether `new` is `old_v` once the coordinates `0..N` of `points` went through the filters.
pub open spec fn advanced<const N: usize>(
    old_v: Seq<[OneEuro; N]>,
    new: Seq<[OneEuro; N]>,
    points: Seq<[Single; 3]>,
    dt: Single,
    cfg: FilterCfg,
) -> bool {
    &&& new.len() == (if old_v.len() < points.len() {
        points.len()
    } else {
        old_v.len()
    })
    &&& forall|i: int, c: int|
        0 <= i < new.len() && 0 <= c < N ==> #[trigger] new[i][c] == (if i < points.len() {
            state_at(old_v, i, c).after(points[i][c], dt, cfg)
        } else {
            old_v[i][c]
        })
}

/// Whether `out` holds what the filters `new` put out, and `points` past coordinate `N`.
pub open spec fn put_out<const N: usize>(
    new: Seq<[OneEuro; N]>,
    points: Seq<[Single; 3]>,
    out: Seq<[Single; 3]>,
) -> bool {
    &&& out.len() == points.len()
    &&& forall|i: int, c: int|
        0 <= i < out.len() && 0 <= c < 3 ==> #[trigger] out[i][c] == (if c < N {
            new[i][c].xhat->0
        } else {
            points[i][c]
        })
}

impl OutputFilter {
    /// Whether nothing has come in.
    pub open spec fn is_fresh(self) -> bool {
        &&& forall|i: int| 0 <= i < 3 ==> self.trans[i] == fresh() && self.euler[i] == fresh()
        &&& self.lms@.len() == 0
        &&& self.pts@.len() == 0
        &&& self.unwrapped is None
    }

    /// The angle on axis `i` as it goes into its filter.
    pub open spec fn angle_in(self, euler: Seq<Single>, i: int) -> Single {
        match self.unwrapped {
            None => euler[i],
            Some(p) => unwrap_deg(p[i], euler[i]),
        }
    }

    /// The filters of a face that has just come up.
    pub fn new(cfg: FilterCfg) -> (r: OutputFilter)
        ensures
            r.cfg == cfg,
            r.is_fresh(),
    {
        OutputFilter {
            cfg,
            trans: [OneEuro::new(), OneEuro::new(), OneEuro::new()],
            euler: [OneEuro::new(), OneEuro::new(), OneEuro::new()],
            lms: Vec::new(),
            pts: Vec::new(),
            unwrapped: None,
        }
    }

    /// Forgets everything that has come in.
    pub fn reset(&mut self)
        ensures
            final(self).cfg == old(self).cfg,
            final(self).is_fresh(),
    {
        self.trans = [OneEuro::new(), OneEuro::new(), OneEuro::new()];
        self.euler = [OneEuro::new(), OneEuro::new(), OneEuro::new()];
        self.lms = Vec::new();
        self.pts = Vec::new();
        self.unwrapped = None;
    }

    /// Smooths one frame in place. Gives the smoothed angles in radians, whose cosines and
    /// sines `euler_to_quat` takes, or nothing where the filter is off.
    pub fn apply(
        &mut self,
        euler: &mut [Single; 3],
        translation: &mut [Single; 3],
        lms: &mut [[Single; 3]],
        pts_3d: &mut [[Single; 3]],
        dt: Single,
    ) -> (r: Option<[Single; 3]>)
        ensures
            smoothed(
                *old(self),
                *final(self),
                old(euler)@,
                final(euler)@,
                old(translation)@,
                final(translation)@,
                old(lms)@,
                final(lms)@,
                old(pts_3d)@,
                final(pts_3d)@,
                dt,
                old(self).cfg,
                r,
            ),
    {
        let cfg: FilterCfg = self.cfg;
        self.apply_as(euler, translation, lms, pts_3d, dt, &cfg)
    }

    /// Smooths one frame in place as `apply` does, and the more the poorer its quality is.
    pub fn apply_rated(
        &mut self,
        euler: &mut [Single; 3],
        translation: &mut [Single; 3],
        lms: &mut [[Single; 3]],
        pts_3d: &mut [[Single; 3]],
        dt: Single,
        quality: FilterQuality,
    ) -> (r: Option<[Single; 3]>)
        ensures
            smoothed(
                *old(self),
                *final(self),
                old(euler)@,
                final(euler)@,
                old(translation)@,
                final(translation)@,
                old(lms)@,
                final(lms)@,
                old(pts_3d)@,
                final(pts_3d)@,
                dt,
                old(self).cfg.rated(quality),
                r,
            ),
    {
        let cfg: FilterCfg = self.cfg.rated(quality);
        self.apply_as(euler, translation, lms, pts_3d, dt, &cfg)
    }

    fn apply_as(
        &mut self,
        euler: &mut [Single; 3],
        translation: &mut [Single; 3],
        lms: &mut [[Single; 3]],
        pts_3d: &mut [[Single; 3]],
        dt: Single,
        cfg: &FilterCfg,
    ) -> (r: Option<[Single; 3]>)
        requires
            cfg.kind == old(self).cfg.kind,
        ensures
            smoothed(
                *old(self),
                *final(self),
                old(euler)@,
                final(euler)@,
                old(translation)@,
                final(translation)@,
                old(lms)@,
                final(lms)@,
                old(pts_3d)@,
                final(pts_3d)@,
                dt,
                *cfg,
                r,
            ),
    {
        if cfg.kind == FilterKind::Off {
            return None;
        }
        let dt: Single = dt.clamp(single::of(SHORTEST), single::of(LONGEST));
        let input: [Single; 3] = match self.unwrapped {
            Some(p) => [
                unwrap_deg(p[0], euler[0]),
                unwrap_deg(p[1], euler[1]),
                unwrap_deg(p[2], euler[2]),
            ],
            None => *euler,
        };
        let (e0, f0) = self.euler[0].stepped(input[0], dt, cfg);
        let (e1, f1) = self.euler[1].stepped(input[1], dt, cfg);
        let (e2, f2) = self.euler[2].stepped(input[2], dt, cfg);
        let (t0, g0) = self.trans[0].stepped(translation[0], dt, cfg);
        let (t1, g1) = self.trans[1].stepped(translation[1], dt, cfg);
        let (t2, g2) = self.trans[2].stepped(translation[2], dt, cfg);
        self.euler = [e0, e1, e2];
        self.trans = [t0, t1, t2];
        self.unwrapped = Some([f0, f1, f2]);
        *euler = [wrap_deg(f0), wrap_deg(f1), wrap_deg(f2)];
        *translation = [g0, g1, g2];
        filter_planar(&mut self.lms, lms, dt, cfg);
        filter_solid(&mut self.pts, pts_3d, dt, cfg);
        Some([maths::radians(f0), maths::radians(f1), maths::radians(f2)])
    }
}

/// Whether a frame went through the filters: `a` before and `b` after, and so for the angles `e`,
/// the place `t`, the landmarks `l` and the points `p`, with the parameters `cfg`. `angles` are the
/// smoothed angles in radians, none where the filter is off and everything stays as it is.
pub open spec fn smoothed(
    a: OutputFilter,
    b: OutputFilter,
    e0: Seq<Single>,
    e1: Seq<Single>,
    t0: Seq<Single>,
    t1: Seq<Single>,
    l0: Seq<[Single; 3]>,
    l1: Seq<[Single; 3]>,
    p0: Seq<[Single; 3]>,
    p1: Seq<[Single; 3]>,
    dt: Single,
    cfg: FilterCfg,
    angles: Option<[Single; 3]>,
) -> bool {
    let step = step_of(dt);
    &&& b.cfg == a.cfg
    &&& match cfg.kind {
        FilterKind::Off => {
            &&& angles is None
            &&& b == a
            &&& e1 == e0
            &&& t1 == t0
            &&& l1 == l0
            &&& p1 == p0
        },
        FilterKind::OneEuro => {
            &&& angles is Some
            &&& b.unwrapped is Some
            &&& forall|i: int|
                0 <= i < 3 ==> {
                    let angle = #[trigger] b.unwrapped->0[i];
                    &&& b.euler[i] == a.euler[i].after(a.angle_in(e0, i), step, cfg)
                    &&& b.euler[i].xhat == Some(angle)
                    &&& e1[i] == wrap_deg(angle)
                    &&& angles->0[i] == maths::radians(angle)
                    &&& b.trans[i] == a.trans[i].after(t0[i], step, cfg)
                    &&& b.trans[i].xhat == Some(t1[i])
                }
            &&& advanced(a.lms@, b.lms@, l0, step, cfg)
            &&& put_out(b.lms@, l0, l1)
            &&& advanced(a.pts@, b.pts@, p0, step, cfg)
            &&& put_out(b.pts@, p0, p1)
        },
    }
}

/// Filters the first two coordinates of each point.
fn filter_planar(states: &mut Vec<[OneEuro; 2]>, points: &mut [[Single; 3]], dt: Single, cfg: &FilterCfg)
    ensures
        advanced(old(states)@, final(states)@, old(points)@, dt, *cfg),
        put_out(final(states)@, old(points)@, final(points)@),
{
    while states.len() < points.len()
        invariant
            points@ == old(points)@,
            states@.len() >= old(states)@.len(),
            states@.len() <= old(states)@.len() || states@.len() <= points@.len(),
            forall|i: int, c: int|
                0 <= i < states@.len() && 0 <= c < 2 ==> #[trigger] states@[i][c] == state_at(
                    old(states)@,
                    i,
                    c,
                ),
        decreases points@.len() - states@.len(),
    {
        states.push([OneEuro::new(), OneEuro::new()]);
    }
    let mut i: usize = 0;
    while i < points.len()
        invariant
            points@.len() == old(points)@.len(),
            states@.len() >= points@.len(),
            states@.len() >= old(states)@.len(),
            states@.len() <= old(states)@.len() || states@.len() <= points@.len(),
            i <= points@.len(),
            forall|j: int, c: int|
                0 <= j < i && 0 <= c < 2 ==> #[trigger] states@[j][c] == state_at(
                    old(states)@,
                    j,
                    c,
                ).after(old(points)@[j][c], dt, *cfg),
            forall|j: int, c: int|
                i <= j < states@.len() && 0 <= c < 2 ==> #[trigger] states@[j][c] == state_at(
                    old(states)@,
                    j,
                    c,
                ),
            forall|j: int, c: int|
                0 <= j < i && 0 <= c < 3 ==> #[trigger] points@[j][c] == (if c < 2 {
                    states@[j][c].xhat->0
                } else {
                    old(points)@[j][c]
                }),
            forall|j: int| i <= j < points@.len() ==> points@[j] == old(points)@[j],
        decreases points@.len() - i,
    {
        let p: [Single; 3] = points[i];
        let s: [OneEuro; 2] = states[i];
        let (a, x) = s[0].stepped(p[0], dt, cfg);
        let (b, y) = s[1].stepped(p[1], dt, cfg);
        states.set(i, [a, b]);
        points[i] = [x, y, p[2]];
        i = i + 1;
    }
}

/// Filters the three coordinates of each point.
fn filter_solid(states: &mut Vec<[OneEuro; 3]>, points: &mut [[Single; 3]], dt: Single, cfg: &FilterCfg)
    ensures
        advanced(old(states)@, final(states)@, old(points)@, dt, *cfg),
        put_out(final(states)@, old(points)@, final(points)@),
{
    while states.len() < points.len()
        invariant
            points@ == old(points)@,
            states@.len() >= old(states)@.len(),
            states@.len() <= old(states)@.len() || states@.len() <= points@.len(),
            forall|i: int, c: int|
                0 <= i < states@.len() && 0 <= c < 3 ==> #[trigger] states@[i][c] == state_at(
                    old(states)@,
                    i,
                    c,
                ),
        decreases points@.len() - states@.len(),
    {
        states.push([OneEuro::new(), OneEuro::new(), OneEuro::new()]);
    }
    let mut i: usize = 0;
    while i < points.len()
        invariant
            points@.len() == old(points)@.len(),
            states@.len() >= points@.len(),
            states@.len() >= old(states)@.len(),
            states@.len() <= old(states)@.len() || states@.len() <= points@.len(),
            i <= points@.len(),
            forall|j: int, c: int|
                0 <= j < i && 0 <= c < 3 ==> #[trigger] states@[j][c] == state_at(
                    old(states)@,
                    j,
                    c,
                ).after(old(points)@[j][c], dt, *cfg),
            forall|j: int, c: int|
                i <= j < states@.len() && 0 <= c < 3 ==> #[trigger] states@[j][c] == state_at(
                    old(states)@,
                    j,
                    c,
                ),
            forall|j: int, c: int|
                0 <= j < i && 0 <= c < 3 ==> #[trigger] points@[j][c] == states@[j][c].xhat->0,
            forall|j: int| i <= j < points@.len() ==> points@[j] == old(points)@[j],
        decreases points@.len() - i,
    {
        let p: [Single; 3] = points[i];
        let s: [OneEuro; 3] = states[i];
        let (a, x) = s[0].stepped(p[0], dt, cfg);
        let (b, y) = s[1].stepped(p[1], dt, cfg);
        let (c, z) = s[2].stepped(p[2], dt, cfg);
        states.set(i, [a, b, c]);
        points[i] = [x, y, z];
        i = i + 1;
    }
}

/// After a reset the first frame's points pass through unchanged: whatever `put_out` allows
/// for filters that were fresh is the measurement itself.
pub proof fn lemma_fresh_points_pass<const N: usize>(
    new: Seq<[OneEuro; N]>,
    points: Seq<[Single; 3]>,
    out: Seq<[Single; 3]>,
    dt: Single,
    cfg: FilterCfg,
)
    requires
        advanced(Seq::empty(), new, points, dt, cfg),
        put_out(new, points, out),
    ensures
        out == points,
{
    reveal(OneEuro::after);
    assert forall|i: int| 0 <= i < out.len() implies out[i] == points[i] by {
        assert forall|c: int| 0 <= c < 3 implies out[i][c] == points[i][c] by {
            if c < N {
                assert(new[i][c] == fresh().after(points[i][c], dt, cfg));
            }
        }
        assert(out[i]@ =~= points[i]@);
        assert(out[i] =~= points[i]);
    }
    assert(out =~= points);
}

/// The value of a full turn in units of the smallest number.
pub open spec fn turn_units() -> int {
    360 * pow2(149) as int
}

/// Whether `a` and `b` are the same angle but for `slack`, twice the distance after some full turns.
pub open spec fn same_angle(a: Single, b: Single, turns: int, slack: nat) -> bool {
    let d = order::val(b) - (order::val(a) - turn_units() * turns);
    -(slack as int) <= 2 * d <= slack
}

/// Twice what rounding may do to an angle that is wrapped.
pub open spec fn wrap_slack(k: nat) -> nat {
    pow2((k - 24) as nat) + 3 * pow2(134)
}

/// An angle taken to within half a turn of zero is the same angle, but for the rounding of one number
/// below `2^k` of the smallest and of three numbers below 512: for an angle of up to half a turn, by
/// less than 2^-13 degrees.
pub proof fn lemma_wrap_keeps_angle(a: Single, k: nat)
    requires
        a.is_finite(),
        158 <= k <= 270,
        -pow2(k) < order::val(a) + 180 * pow2(149) < pow2(k),
    ensures
        exists|turns: int| #[trigger] same_angle(a, wrap_deg(a), turns, wrap_slack(k)),
{
    let f = single::layout();
    let (h, c) = (single::of(HALF_CIRCLE), single::of(CIRCLE));
    let u = pow2(149);
    let turn = turn_units();
    lemma_circle();
    let s = a + h;
    order::lemma_sum_close(a, h, k);
    let x = s.remainder(c);
    let v = binary::value(s.mag(), f);
    let (i, r) = (v as int / turn, v as int % turn);
    lemma_fundamental_div_mod(v as int, turn);
    lemma_mod_bound(v as int, turn);
    order::lemma_remainder_close(s, c, 158);
    let neg = x.lt(single::of(0));
    order::lemma_val_sign(x);
    let y = if neg {
        x + c
    } else {
        x
    };
    if neg {
        order::lemma_sum_close(x, c, 158);
    }
    order::lemma_val_negated(h);
    order::lemma_sum_close(y, h.negated(), 158);
    let turns = if !s.minus() {
        i
    } else if neg {
        -(i + 1)
    } else {
        -i
    };
    assert(turn * (-(i + 1)) == -(turn * i) - turn && turn * (-i) == -(turn * i)) by (nonlinear_arith);
    assert(same_angle(a, wrap_deg(a), turns, wrap_slack(k)));
}

proof fn lemma_circle()
    ensures
        order::val(single::of(CIRCLE)) == 360 * pow2(149),
        order::val(single::of(HALF_CIRCLE)) == 180 * pow2(149),
        binary::value(CIRCLE as u64, single::layout()) == 360 * pow2(149),
        pow2(158) == 512 * pow2(149),
        pow2(149) == 0x8000 * pow2(134),
        pow2(134) > 0,
{
    lemma2_to64();
    lemma_pow2_adds(15, 134);
    lemma_pow2_adds(9, 149);
    lemma_pow2_unfold(134);
    lemma_pow2_pos(134);
    order::lemma_units_at(134, 0xb4_0000);
    order::lemma_units_at(133, 0xb4_0000);
    assert(134 * pow2(23) + 0xb4_0000 == 0x43b4_0000);
    assert(133 * pow2(23) + 0xb4_0000 == 0x4334_0000);
}

/// The first frame, of a new filter or after a reset, comes out as it went in: the place, the
/// landmarks and the points unchanged, and the angles taken to within half a turn of zero.
pub proof fn lemma_first_frame(
    a: OutputFilter,
    b: OutputFilter,
    e0: Seq<Single>,
    e1: Seq<Single>,
    t0: Seq<Single>,
    t1: Seq<Single>,
    l0: Seq<[Single; 3]>,
    l1: Seq<[Single; 3]>,
    p0: Seq<[Single; 3]>,
    p1: Seq<[Single; 3]>,
    dt: Single,
    cfg: FilterCfg,
    angles: Option<[Single; 3]>,
)
    requires
        a.is_fresh(),
        cfg.kind == FilterKind::OneEuro,
        smoothed(a, b, e0, e1, t0, t1, l0, l1, p0, p1, dt, cfg, angles),
        t0.len() == 3,
        t1.len() == 3,
    ensures
        t1 == t0,
        l1 == l0,
        p1 == p0,
        forall|i: int|
            0 <= i < 3 ==> #[trigger] e1[i] == wrap_deg(e0[i]) && angles->0[i] == maths::radians(e0[i]),
{
    let step = step_of(dt);
    assert forall|i: int| 0 <= i < 3 implies #[trigger] t1[i] == t0[i] by {
        let angle = b.unwrapped->0[i];
        lemma_first_passes(t0[i], step, cfg);
    }
    assert(t1 =~= t0);
    assert(a.lms@ =~= Seq::empty());
    assert(a.pts@ =~= Seq::empty());
    lemma_fresh_points_pass::<2>(b.lms@, l0, l1, step, cfg);
    lemma_fresh_points_pass::<3>(b.pts@, p0, p1, step, cfg);
    assert forall|i: int| 0 <= i < 3 implies #[trigger] e1[i] == wrap_deg(e0[i]) && angles->0[i]
        == maths::radians(e0[i]) by {
        let angle = b.unwrapped->0[i];
        lemma_first_passes(e0[i], step, cfg);
    }
}

} // verus!
