//! What a device is handed to cut landmarks' pictures out of a frame by itself.

use crate::ieee::single;
use crate::ieee::single::Single;
use vstd::prelude::*;

verus! {

/// A device was asked for in a build without one.
#[derive(Clone, Copy, Debug, PartialEq, Eq, Structural)]
pub struct NeedGpu;

/// What every call to a device gives in a build without one.
pub fn need_gpu<T>() -> (r: Result<T, NeedGpu>)
    ensures
        r is Err,
        r->Err_0 == NeedGpu,
{
    Err(NeedGpu)
}

/// The part of a frame that a device cuts out: where it starts and ends on the axes of batch, rows,
/// columns and channels, and its place and scale for the landmarks.
#[derive(Clone, Copy)]
pub struct Slices {
    pub starts: [i64; 4],
    pub ends: [i64; 4],
    pub crop: [Single; 4],
}

/// The part of a frame between two corners; none where fewer than four rows or columns are left of
/// it. `size` is how wide and high the network takes its pictures.
pub fn roi_slices(x1: i32, y1: i32, x2: i32, y2: i32, size: u32) -> (r: Option<Slices>)
    ensures
        r is None <==> x2 - x1 < 4 || y2 - y1 < 4,
        r matches Some(s) ==> {
            &&& s.starts@ == seq![0i64, y1 as i64, x1 as i64, 0i64]
            &&& s.ends@ == seq![1i64, y2 as i64, x2 as i64, 3i64]
            &&& s.crop@ == seq![
                Single::from_int(x1 as int),
                Single::from_int(y1 as int),
                Single::from_int(x2 - x1) / Single::from_int(size as int),
                Single::from_int(y2 - y1) / Single::from_int(size as int),
            ]
        },
{
    let w: i64 = x2 as i64 - x1 as i64;
    let h: i64 = y2 as i64 - y1 as i64;
    if w < 4 || h < 4 {
        return None;
    }
    let n: Single = single::from_u64(size as u64);
    let starts: [i64; 4] = [0, y1 as i64, x1 as i64, 0];
    let ends: [i64; 4] = [1, y2 as i64, x2 as i64, 3];
    let crop: [Single; 4] = [
        single::from_i64(x1 as i64),
        single::from_i64(y1 as i64),
        single::from_i64(w) / n,
        single::from_i64(h) / n,
    ];
    proof {
        assert(starts@ =~= seq![0i64, y1 as i64, x1 as i64, 0i64]);
        assert(ends@ =~= seq![1i64, y2 as i64, x2 as i64, 3i64]);
        assert(crop@ =~= seq![
            Single::from_int(x1 as int),
            Single::from_int(y1 as int),
            Single::from_int(x2 - x1) / Single::from_int(size as int),
            Single::from_int(y2 - y1) / Single::from_int(size as int),
        ]);
    }
    Some(Slices { starts, ends, crop })
}

} // verus!
