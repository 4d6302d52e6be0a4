//! Lengths and angles.

use crate::ieee::convert;
use crate::ieee::double;
use crate::ieee::double::Double;
use crate::ieee::single;
use crate::ieee::single::Single;
use vstd::prelude::*;

verus! {

/// The word of the number of degrees in a radian.
pub const DEGREES: u32 = 0x4265_2ee1;

/// The word of the number of radians in a degree.
pub const RADIANS: u32 = 0x3c8e_fa35;

/// The word of a full turn in radians.
pub const TURN: u32 = 0x40c9_0fdb;

pub open spec fn hypot_spec(x: Single, y: Single) -> Single {
    if x.abs().bits == single::INFINITY || y.abs().bits == single::INFINITY {
        single::of(single::INFINITY)
    } else {
        let a = convert::to_double(x);
        let b = convert::to_double(y);
        convert::to_single((a * a + b * b).sqrt())
    }
}

/// The length of `(x, y)`, worked out in double precision.
#[verifier::when_used_as_spec(hypot_spec)]
pub fn hypot(x: Single, y: Single) -> (r: Single)
    ensures
        r == hypot_spec(x, y),
{
    if x.abs().bits == single::INFINITY || y.abs().bits == single::INFINITY {
        return single::of(single::INFINITY);
    }
    let a: Double = convert::to_double(x);
    let b: Double = convert::to_double(y);
    convert::to_single((a * a + b * b).sqrt())
}

pub open spec fn degrees_spec(x: Single) -> Single {
    x * single::of(DEGREES)
}

/// Radians as degrees.
#[verifier::when_used_as_spec(degrees_spec)]
pub fn degrees(x: Single) -> (r: Single)
    ensures
        r == degrees_spec(x),
{
    x * single::of(DEGREES)
}

pub open spec fn radians_spec(x: Single) -> Single {
    x * single::of(RADIANS)
}

/// Degrees as radians.
#[verifier::when_used_as_spec(radians_spec)]
pub fn radians(x: Single) -> (r: Single)
    ensures
        r == radians_spec(x),
{
    x * single::of(RADIANS)
}

/// A sum from left to right, starting at zero.
pub open spec fn sum_of(v: Seq<Single>) -> Single
    decreases v.len(),
{
    if v.len() == 0 {
        single::of(0)
    } else {
        sum_of(v.drop_last()) + v.last()
    }
}

/// Adds up from left to right.
pub fn sum(v: &[Single]) -> (r: Single)
    ensures
        r == sum_of(v@),
{
    let mut r: Single = single::of(0);
    let mut i: usize = 0;
    while i < v.len()
        invariant
            i <= v@.len(),
            r == sum_of(v@.take(i as int)),
        decreases v@.len() - i,
    {
        assert(v@.take(i + 1).drop_last() =~= v@.take(i as int));
        r = r + v[i];
        i = i + 1;
    }
    assert(v@.take(i as int) =~= v@);
    r
}

} // verus!
