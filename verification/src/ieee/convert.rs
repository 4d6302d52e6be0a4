//! Conversions between the formats.

use crate::ieee::binary;
use crate::ieee::binary::Format;
use crate::ieee::double;
use crate::ieee::double::Double;
use crate::ieee::single;
use crate::ieee::single::Single;
use vstd::arithmetic::power2::*;
use vstd::prelude::*;

verus! {

/// Half precision: 11 significant bits.
pub open spec fn half_layout() -> Format {
    Format { p: 11, top: 31, unit: 24 }
}

proof fn lemma_layouts()
    ensures
        half_layout().wf(),
        half_layout().inf() == 0x7c00,
        single::layout().wf(),
        single::layout().inf() == single::INFINITY,
        double::layout().wf(),
        double::layout().inf() == double::INFINITY,
{
    lemma2_to64();
    lemma2_to64_rest();
}

#[verifier::opaque]
pub open spec fn to_double_spec(x: Single) -> Double {
    if x.is_nan() {
        double::of(double::NAN)
    } else if x.is_finite() {
        double::with_sign(
            x.minus(),
            binary::convert_word(x.mag(), single::layout(), double::layout()),
        )
    } else {
        double::with_sign(x.minus(), double::INFINITY as nat)
    }
}

/// A single as a double.
#[verifier::when_used_as_spec(to_double_spec)]
pub fn to_double(x: Single) -> (r: Double)
    ensures
        r == to_double_spec(x),
{
    proof {
        reveal(to_double_spec);
        lemma_layouts();
    }
    let neg: bool = x.bits >= single::SIGN;
    let mag: u32 = if neg { x.bits - single::SIGN } else { x.bits };
    let base: u64 = if neg { double::SIGN } else { 0 };
    if mag > single::INFINITY {
        double::of(double::NAN)
    } else if mag < single::INFINITY {
        let w: u64 = binary::convert(
            mag as u64,
            Format { p: 24, top: 255, unit: 149 },
            Format { p: 53, top: 2047, unit: 1074 },
        );
        double::of(base + w)
    } else {
        double::of(base + double::INFINITY)
    }
}

#[verifier::opaque]
pub open spec fn to_single_spec(x: Double) -> Single {
    if x.is_nan() {
        single::of(single::NAN)
    } else if x.is_finite() {
        single::with_sign(
            x.minus(),
            binary::convert_word(x.mag(), double::layout(), single::layout()),
        )
    } else {
        single::with_sign(x.minus(), single::INFINITY as nat)
    }
}

/// The single nearest to a double.
#[verifier::when_used_as_spec(to_single_spec)]
pub fn to_single(x: Double) -> (r: Single)
    ensures
        r == to_single_spec(x),
{
    proof {
        reveal(to_single_spec);
        lemma_layouts();
    }
    let neg: bool = x.bits >= double::SIGN;
    let mag: u64 = if neg { x.bits - double::SIGN } else { x.bits };
    let base: u32 = if neg { single::SIGN } else { 0 };
    if mag > double::INFINITY {
        single::of(single::NAN)
    } else if mag < double::INFINITY {
        let w: u64 = binary::convert(
            mag,
            Format { p: 53, top: 2047, unit: 1074 },
            Format { p: 24, top: 255, unit: 149 },
        );
        single::of(base + w as u32)
    } else {
        single::of(base + single::INFINITY)
    }
}

/// The half-precision word nearest to a single. What is not a number keeps its
/// sign and the leading bits of its payload, and is made quiet.
#[verifier::opaque]
pub open spec fn half_word_spec(x: Single) -> u16 {
    let sign: int = if x.minus() { 0x8000 } else { 0 };
    let mag: int = if x.is_nan() {
        let payload = (x.mag() - single::INFINITY) / 0x2000;
        if payload >= 0x200 {
            0x7c00 + payload
        } else {
            0x7e00 + payload
        }
    } else if x.is_finite() {
        binary::convert_word(x.mag(), single::layout(), half_layout()) as int
    } else {
        0x7c00
    };
    (sign + mag) as u16
}

/// A single as a half-precision word.
#[verifier::when_used_as_spec(half_word_spec)]
pub fn half_word(x: Single) -> (r: u16)
    ensures
        r == half_word_spec(x),
{
    proof {
        reveal(half_word_spec);
        lemma_layouts();
    }
    let neg: bool = x.bits >= single::SIGN;
    let mag: u32 = if neg { x.bits - single::SIGN } else { x.bits };
    let base: u16 = if neg { 0x8000 } else { 0 };
    if mag > single::INFINITY {
        let payload: u16 = ((mag - single::INFINITY) / 0x2000) as u16;
        if payload >= 0x200 {
            base + (0x7c00 + payload)
        } else {
            base + (0x7e00 + payload)
        }
    } else if mag < single::INFINITY {
        let w: u64 = binary::convert(
            mag as u64,
            Format { p: 24, top: 255, unit: 149 },
            Format { p: 11, top: 31, unit: 24 },
        );
        base + w as u16
    } else {
        base + 0x7c00
    }
}

/// The single that a half-precision word stands for. What is not a number is made
/// quiet.
#[verifier::opaque]
pub open spec fn from_half_spec(h: u16) -> Single {
    let neg = h >= 0x8000;
    let mag: int = if neg { h - 0x8000 } else { h as int };
    if mag > 0x7c00 {
        let payload = mag - 0x7c00;
        let kept = if payload >= 0x200 {
            payload - 0x200
        } else {
            payload
        };
        single::with_sign(neg, (single::NAN + kept * 0x2000) as nat)
    } else if mag < 0x7c00 {
        single::with_sign(neg, binary::convert_word(mag as u64, half_layout(), single::layout()))
    } else {
        single::with_sign(neg, single::INFINITY as nat)
    }
}

/// A half-precision word as a single.
#[verifier::when_used_as_spec(from_half_spec)]
pub fn from_half(h: u16) -> (r: Single)
    ensures
        r == from_half_spec(h),
{
    proof {
        reveal(from_half_spec);
        lemma_layouts();
    }
    let neg: bool = h >= 0x8000;
    let mag: u16 = if neg { h - 0x8000 } else { h };
    let base: u32 = if neg { single::SIGN } else { 0 };
    if mag > 0x7c00 {
        let payload: u32 = (mag - 0x7c00) as u32;
        let kept: u32 = if payload >= 0x200 { payload - 0x200 } else { payload };
        single::of(base + (single::NAN + kept * 0x2000))
    } else if mag < 0x7c00 {
        let w: u64 = binary::convert(
            mag as u64,
            Format { p: 11, top: 31, unit: 24 },
            Format { p: 24, top: 255, unit: 149 },
        );
        single::of(base + w as u32)
    } else {
        single::of(base + single::INFINITY)
    }
}

} // verus!
