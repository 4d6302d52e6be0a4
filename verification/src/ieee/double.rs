//! Double precision: 53 significant bits.

use crate::ieee::binary;
use crate::ieee::binary::{Format, Toward};
use vstd::arithmetic::power2::*;
use vstd::prelude::*;

verus! {

/// A number of double precision, held as its word. Equality with `==` is equality of words.
#[derive(Clone, Copy, Debug, PartialEq, Eq, Structural)]
pub struct Double {
    pub bits: u64,
}

/// The word of infinity.
pub const INFINITY: u64 = 0x7ff0_0000_0000_0000;

/// The word that stands for every result that is not a number.
pub const NAN: u64 = 0x7ff8_0000_0000_0000;

/// The word of one.
pub const ONE: u64 = 0x3ff0_0000_0000_0000;

/// The word of the largest finite value.
pub const MAX: u64 = 0x7fef_ffff_ffff_ffff;

/// The word of the most negative finite value.
pub const MIN: u64 = 0xffef_ffff_ffff_ffff;

/// The sign bit.
pub const SIGN: u64 = 0x8000_0000_0000_0000;

/// The parameters of the format.
pub open spec fn layout() -> Format {
    Format { p: 53, top: 2047, unit: 1074 }
}

proof fn lemma_layout()
    ensures
        layout().wf(),
        layout().inf() == INFINITY,
{
    lemma2_to64();
    lemma2_to64_rest();
}

fn layout_of() -> (f: Format)
    ensures
        f == layout(),
{
    Format { p: 53, top: 2047, unit: 1074 }
}

/// The value with the given sign and magnitude word.
pub open spec fn with_sign(neg: bool, w: nat) -> Double {
    Double {
        bits: if neg {
            (w + SIGN) as u64
        } else {
            w as u64
        },
    }
}

fn build(neg: bool, w: u64) -> (r: Double)
    requires
        w < SIGN,
    ensures
        r == with_sign(neg, w as nat),
{
    if neg {
        Double { bits: w as u64 + SIGN }
    } else {
        Double { bits: w as u64 }
    }
}

/// The value of the given word.
pub open spec fn of_spec(bits: u64) -> Double {
    Double { bits }
}

/// The value of the given word.
#[verifier::when_used_as_spec(of_spec)]
pub fn of(bits: u64) -> (r: Double)
    ensures
        r == of_spec(bits),
{
    Double { bits }
}

impl Double {
    /// Whether the sign bit is set.
    pub open spec fn minus(self) -> bool {
        self.bits >= SIGN
    }

    /// The word without its sign bit.
    pub open spec fn mag(self) -> u64 {
        (if self.bits >= SIGN {
            self.bits - SIGN
        } else {
            self.bits as int
        }) as u64
    }

    fn parts(self) -> (r: (bool, u64))
        ensures
            r.0 == self.minus(),
            r.1 == self.mag(),
            r.1 < SIGN,
    {
        if self.bits >= SIGN {
            (true, (self.bits - SIGN) as u64)
        } else {
            (false, self.bits as u64)
        }
    }

    pub open spec fn is_nan_spec(self) -> bool {
        self.mag() > INFINITY
    }

    /// Whether this is not a number.
    #[verifier::when_used_as_spec(is_nan_spec)]
    pub fn is_nan(self) -> (r: bool)
        ensures
            r == self.is_nan_spec(),
    {
        self.parts().1 > INFINITY as u64
    }

    pub open spec fn is_finite_spec(self) -> bool {
        self.mag() < INFINITY
    }

    /// Whether this is a number and not an infinity.
    #[verifier::when_used_as_spec(is_finite_spec)]
    pub fn is_finite(self) -> (r: bool)
        ensures
            r == self.is_finite_spec(),
    {
        self.parts().1 < INFINITY as u64
    }

    /// The place of the value in the order of all values; both zeros have the same.
    pub open spec fn key(self) -> int {
        if self.minus() {
            -(self.mag() as int)
        } else {
            self.mag() as int
        }
    }

    fn order_key(self) -> (k: i64)
        ensures
            k == self.key(),
    {
        let (n, m) = self.parts();
        if n {
            -(m as i64)
        } else {
            m as i64
        }
    }

    pub open spec fn lt_spec(self, other: Double) -> bool {
        !self.is_nan() && !other.is_nan() && self.key() < other.key()
    }

    /// Whether this is less than `other`.
    #[verifier::when_used_as_spec(lt_spec)]
    pub fn lt(self, other: Double) -> (r: bool)
        ensures
            r == self.lt_spec(other),
    {
        !self.is_nan() && !other.is_nan() && self.order_key() < other.order_key()
    }

    pub open spec fn le_spec(self, other: Double) -> bool {
        !self.is_nan() && !other.is_nan() && self.key() <= other.key()
    }

    /// Whether this is at most `other`.
    #[verifier::when_used_as_spec(le_spec)]
    pub fn le(self, other: Double) -> (r: bool)
        ensures
            r == self.le_spec(other),
    {
        !self.is_nan() && !other.is_nan() && self.order_key() <= other.order_key()
    }

    pub open spec fn gt_spec(self, other: Double) -> bool {
        other.lt(self)
    }

    /// Whether this is greater than `other`.
    #[verifier::when_used_as_spec(gt_spec)]
    pub fn gt(self, other: Double) -> (r: bool)
        ensures
            r == self.gt_spec(other),
    {
        other.lt(self)
    }

    pub open spec fn ge_spec(self, other: Double) -> bool {
        other.le(self)
    }

    /// Whether this is at least `other`.
    #[verifier::when_used_as_spec(ge_spec)]
    pub fn ge(self, other: Double) -> (r: bool)
        ensures
            r == self.ge_spec(other),
    {
        other.le(self)
    }

    pub open spec fn same_spec(self, other: Double) -> bool {
        !self.is_nan() && !other.is_nan() && self.key() == other.key()
    }

    /// Whether the two values are equal as numbers.
    #[verifier::when_used_as_spec(same_spec)]
    pub fn same(self, other: Double) -> (r: bool)
        ensures
            r == self.same_spec(other),
    {
        !self.is_nan() && !other.is_nan() && self.order_key() == other.order_key()
    }

    pub open spec fn max_spec(self, other: Double) -> Double {
        if self.is_nan() || self.lt(other) {
            other
        } else {
            self
        }
    }

    /// The larger of two values; the other one where one is not a number.
    #[verifier::when_used_as_spec(max_spec)]
    pub fn max(self, other: Double) -> (r: Double)
        ensures
            r == self.max_spec(other),
    {
        if self.is_nan() || self.lt(other) {
            other
        } else {
            self
        }
    }

    pub open spec fn min_spec(self, other: Double) -> Double {
        if self.is_nan() || other.lt(self) {
            other
        } else {
            self
        }
    }

    /// The smaller of two values; the other one where one is not a number.
    #[verifier::when_used_as_spec(min_spec)]
    pub fn min(self, other: Double) -> (r: Double)
        ensures
            r == self.min_spec(other),
    {
        if self.is_nan() || other.lt(self) {
            other
        } else {
            self
        }
    }

    pub open spec fn clamp_spec(self, lo: Double, hi: Double) -> Double {
        if self.lt(lo) {
            lo
        } else if self.gt(hi) {
            hi
        } else {
            self
        }
    }

    /// The value, moved into `lo..=hi` where it is a number outside of it.
    #[verifier::when_used_as_spec(clamp_spec)]
    pub fn clamp(self, lo: Double, hi: Double) -> (r: Double)
        requires
            lo.le(hi),
        ensures
            r == self.clamp_spec(lo, hi),
    {
        if self.lt(lo) {
            lo
        } else if self.gt(hi) {
            hi
        } else {
            self
        }
    }

    pub open spec fn abs_spec(self) -> Double {
        with_sign(false, self.mag() as nat)
    }

    /// The value without its sign.
    #[verifier::when_used_as_spec(abs_spec)]
    pub fn abs(self) -> (r: Double)
        ensures
            r == self.abs_spec(),
    {
        let (_n, m) = self.parts();
        build(false, m)
    }

    pub open spec fn negated_spec(self) -> Double {
        with_sign(!self.minus(), self.mag() as nat)
    }

    /// The value with the other sign.
    #[verifier::when_used_as_spec(negated_spec)]
    pub fn negated(self) -> (r: Double)
        ensures
            r == self.negated_spec(),
    {
        let (n, m) = self.parts();
        build(!n, m)
    }

    #[verifier::opaque]
    pub open spec fn spec_add(self, rhs: Double) -> Double {
        if self.is_nan() || rhs.is_nan() {
            of(NAN)
        } else if !self.is_finite() {
            if !rhs.is_finite() && self.minus() != rhs.minus() {
                of(NAN)
            } else {
                self
            }
        } else if !rhs.is_finite() {
            rhs
        } else {
            with_sign(
                binary::sum_neg(self.minus(), self.mag(), rhs.minus(), rhs.mag(), layout()),
                binary::sum_word(self.minus(), self.mag(), rhs.minus(), rhs.mag(), layout()),
            )
        }
    }

    pub open spec fn spec_sub(self, rhs: Double) -> Double {
        self + rhs.negated_spec()
    }

    #[verifier::opaque]
    pub open spec fn spec_mul(self, rhs: Double) -> Double {
        let neg = self.minus() != rhs.minus();
        if self.is_nan() || rhs.is_nan() {
            of(NAN)
        } else if !self.is_finite() || !rhs.is_finite() {
            if self.mag() == 0 || rhs.mag() == 0 {
                of(NAN)
            } else {
                with_sign(neg, INFINITY as nat)
            }
        } else {
            with_sign(neg, binary::product_word(self.mag(), rhs.mag(), layout()))
        }
    }

    #[verifier::opaque]
    pub open spec fn spec_euclidean_or_real_div(self, rhs: Double) -> Double {
        let neg = self.minus() != rhs.minus();
        if self.is_nan() || rhs.is_nan() {
            of(NAN)
        } else if !self.is_finite() {
            if !rhs.is_finite() {
                of(NAN)
            } else {
                with_sign(neg, INFINITY as nat)
            }
        } else if !rhs.is_finite() {
            with_sign(neg, 0)
        } else if rhs.mag() == 0 {
            if self.mag() == 0 {
                of(NAN)
            } else {
                with_sign(neg, INFINITY as nat)
            }
        } else {
            with_sign(neg, binary::quotient_word(self.mag(), rhs.mag(), layout()))
        }
    }

    #[verifier::opaque]
    pub open spec fn integral_spec(self, t: Toward) -> Double {
        if self.is_finite() {
            with_sign(self.minus(), binary::integral_word(self.mag(), t, layout()))
        } else {
            self
        }
    }

    fn integral(self, t: Toward) -> (r: Double)
        ensures
            r == self.integral_spec(t),
    {
        let (n, m) = self.parts();
        proof {
            reveal(Double::integral_spec);
            lemma_layout();
        }
        if m < INFINITY as u64 {
            build(n, binary::integral(m, t, layout_of()))
        } else {
            self
        }
    }

    pub open spec fn floor_spec(self) -> Double {
        self.integral_spec(if self.minus() { Toward::Away } else { Toward::Zero })
    }

    /// The largest integer that is not above the value.
    #[verifier::when_used_as_spec(floor_spec)]
    pub fn floor(self) -> (r: Double)
        ensures
            r == self.floor_spec(),
    {
        let (n, _m) = self.parts();
        self.integral(if n { Toward::Away } else { Toward::Zero })
    }

    pub open spec fn ceil_spec(self) -> Double {
        self.integral_spec(if self.minus() { Toward::Zero } else { Toward::Away })
    }

    /// The smallest integer that is not below the value.
    #[verifier::when_used_as_spec(ceil_spec)]
    pub fn ceil(self) -> (r: Double)
        ensures
            r == self.ceil_spec(),
    {
        let (n, _m) = self.parts();
        self.integral(if n { Toward::Zero } else { Toward::Away })
    }

    pub open spec fn round_spec(self) -> Double {
        self.integral_spec(Toward::Nearest)
    }

    /// The nearest integer, and from the middle the one further from zero.
    #[verifier::when_used_as_spec(round_spec)]
    pub fn round(self) -> (r: Double)
        ensures
            r == self.round_spec(),
    {
        self.integral(Toward::Nearest)
    }

    #[verifier::opaque]
    pub open spec fn sqrt_spec(self) -> Double {
        if self.is_nan() || (self.minus() && self.mag() != 0) {
            of(NAN)
        } else if self.is_finite() {
            with_sign(self.minus(), binary::root_word(self.mag(), layout()))
        } else {
            self
        }
    }

    /// The square root.
    #[verifier::when_used_as_spec(sqrt_spec)]
    pub fn sqrt(self) -> (r: Double)
        ensures
            r == self.sqrt_spec(),
    {
        let (n, m) = self.parts();
        proof {
            reveal(Double::sqrt_spec);
            lemma_layout();
        }
        if m > INFINITY as u64 || (n && m != 0) {
            of(NAN)
        } else if m < INFINITY as u64 {
            build(n, binary::root(m, layout_of()))
        } else {
            self
        }
    }

    /// The integer part of the value, moved into `lo..=hi`; zero where it is not a
    /// number.
    #[verifier::opaque]
    pub open spec fn to_int(self, lo: int, hi: int) -> int {
        if self.is_nan() {
            0
        } else {
            let n: int = if self.is_finite() {
                binary::whole(self.mag(), layout()) as int
            } else if self.minus() {
                -lo
            } else {
                hi
            };
            if self.minus() {
                if -n < lo {
                    lo
                } else {
                    -n
                }
            } else if n > hi {
                hi
            } else {
                n
            }
        }
    }

    fn to_range(self, lo: i64, hi: i64) -> (r: i64)
        requires
            -0x1_0000_0000_0000 <= lo <= 0 <= hi <= 0x1_0000_0000_0000,
        ensures
            r == self.to_int(lo as int, hi as int),
    {
        let (n, m) = self.parts();
        proof {
            reveal(Double::to_int);
            lemma_layout();
        }
        if m > INFINITY as u64 {
            0
        } else if n {
            let limit: u64 = (-lo) as u64;
            if m == INFINITY as u64 {
                lo
            } else {
                -(binary::whole_capped(m, layout_of(), limit) as i64)
            }
        } else if m == INFINITY as u64 {
            hi
        } else {
            binary::whole_capped(m, layout_of(), hi as u64) as i64
        }
    }

    /// The integer part as a signed number.
    pub fn to_i32(self) -> (r: i32)
        ensures
            r == self.to_int(i32::MIN as int, i32::MAX as int),
    {
        proof {
            reveal(Double::to_int);
        }
        self.to_range(-0x8000_0000, 0x7fff_ffff) as i32
    }

    /// The integer part as an unsigned number.
    pub fn to_u32(self) -> (r: u32)
        ensures
            r == self.to_int(0, u32::MAX as int),
    {
        proof {
            reveal(Double::to_int);
        }
        self.to_range(0, 0xffff_ffff) as u32
    }

    /// The integer part as a byte.
    pub fn to_u8(self) -> (r: u8)
        ensures
            r == self.to_int(0, 255),
    {
        proof {
            reveal(Double::to_int);
        }
        self.to_range(0, 255) as u8
    }

    #[verifier::opaque]
    pub open spec fn from_int(n: int) -> Double {
        with_sign(n < 0, binary::int_word(binary::magnitude(n), layout()))
    }
}

/// The value nearest to an integer.
pub fn from_i64(n: i64) -> (r: Double)
    requires
        n > i64::MIN,
    ensures
        r == Double::from_int(n as int),
{
    proof {
        reveal(Double::from_int);
        lemma_layout();
    }
    if n < 0 {
        build(true, binary::from_int((-n) as u64, layout_of()))
    } else {
        build(false, binary::from_int(n as u64, layout_of()))
    }
}

/// The value nearest to an unsigned integer.
pub fn from_u64(n: u64) -> (r: Double)
    ensures
        r == Double::from_int(n as int),
{
    proof {
        reveal(Double::from_int);
        lemma_layout();
    }
    build(false, binary::from_int(n, layout_of()))
}

impl core::ops::Add for Double {
    type Output = Double;

    fn add(self, rhs: Double) -> (r: Double) {
        let (na, a) = self.parts();
        let (nb, b) = rhs.parts();
        proof {
            reveal(Double::spec_add);
            lemma_layout();
        }
        if self.is_nan() || rhs.is_nan() {
            of(NAN)
        } else if a == INFINITY as u64 {
            if b == INFINITY as u64 && na != nb {
                of(NAN)
            } else {
                self
            }
        } else if b == INFINITY as u64 {
            rhs
        } else {
            let (n, w) = binary::sum(na, a, nb, b, layout_of());
            build(n, w)
        }
    }
}

impl vstd::std_specs::ops::AddSpecImpl for Double {
    open spec fn obeys_add_spec() -> bool {
        true
    }

    open spec fn add_req(self, rhs: Double) -> bool {
        true
    }

    open spec fn add_spec(self, rhs: Double) -> Double {
        self + rhs
    }
}

impl core::ops::Sub for Double {
    type Output = Double;

    fn sub(self, rhs: Double) -> (r: Double) {
        self + rhs.negated()
    }
}

impl vstd::std_specs::ops::SubSpecImpl for Double {
    open spec fn obeys_sub_spec() -> bool {
        true
    }

    open spec fn sub_req(self, rhs: Double) -> bool {
        true
    }

    open spec fn sub_spec(self, rhs: Double) -> Double {
        self - rhs
    }
}

impl core::ops::Mul for Double {
    type Output = Double;

    fn mul(self, rhs: Double) -> (r: Double) {
        let (na, a) = self.parts();
        let (nb, b) = rhs.parts();
        proof {
            reveal(Double::spec_mul);
            lemma_layout();
        }
        if self.is_nan() || rhs.is_nan() {
            of(NAN)
        } else if a == INFINITY as u64 || b == INFINITY as u64 {
            if a == 0 || b == 0 {
                of(NAN)
            } else {
                build(na != nb, INFINITY as u64)
            }
        } else {
            build(na != nb, binary::product(a, b, layout_of()))
        }
    }
}

impl vstd::std_specs::ops::MulSpecImpl for Double {
    open spec fn obeys_mul_spec() -> bool {
        true
    }

    open spec fn mul_req(self, rhs: Double) -> bool {
        true
    }

    open spec fn mul_spec(self, rhs: Double) -> Double {
        self * rhs
    }
}

impl core::ops::Div for Double {
    type Output = Double;

    fn div(self, rhs: Double) -> (r: Double) {
        let (na, a) = self.parts();
        let (nb, b) = rhs.parts();
        let n: bool = na != nb;
        proof {
            reveal(Double::spec_euclidean_or_real_div);
            lemma_layout();
        }
        if self.is_nan() || rhs.is_nan() {
            of(NAN)
        } else if a == INFINITY as u64 {
            if b == INFINITY as u64 {
                of(NAN)
            } else {
                build(n, INFINITY as u64)
            }
        } else if b == INFINITY as u64 {
            build(n, 0)
        } else if b == 0 {
            if a == 0 {
                of(NAN)
            } else {
                build(n, INFINITY as u64)
            }
        } else {
            build(n, binary::quotient(a, b, layout_of()))
        }
    }
}

impl vstd::std_specs::ops::DivSpecImpl for Double {
    open spec fn obeys_div_spec() -> bool {
        true
    }

    open spec fn div_req(self, rhs: Double) -> bool {
        true
    }

    open spec fn div_spec(self, rhs: Double) -> Double {
        self / rhs
    }
}

} // verus!
