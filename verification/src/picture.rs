//! Pictures out of the bytes of a file.

use crate::preprocess;
use crate::preprocess::BgrImage;
use vstd::prelude::*;

verus! {

/// `image::load_from_memory` finds the format of a file and decodes it; `to_rgb8` gives width,
/// height, and rows of 8-bit red, green and blue samples, and `into_raw` hands the samples out. There
/// are enough of them for every pixel, which is what an `ImageBuffer` keeps. None comes back where
/// the format is unknown or the file has a fault. Which picture comes back is left unsaid: formats
/// and decoders can be registered while the process runs. That no decoder panics on bytes that are
/// no picture is left unsaid too.
#[verifier::external_body]
fn decode_rgb(bytes: &[u8]) -> (r: Option<(u32, u32, Vec<u8>)>)
    ensures
        r matches Some((w, h, v)) ==> v@.len() >= w * h * 3,
{
    let picture = image::load_from_memory(bytes).ok()?.to_rgb8();
    Some((picture.width(), picture.height(), picture.into_raw()))
}

/// Why bytes are no picture.
#[derive(Clone, Copy, Debug, PartialEq, Eq, Structural)]
pub enum PictureError {
    /// The format is unknown, or the file is broken.
    Unreadable,
    /// There are more samples than 32 bits count.
    TooLarge,
    /// Samples are missing.
    Short,
}

/// The picture with the given size and red, green and blue samples.
pub open spec fn picture_of(w: u32, h: u32, rgb: Seq<u8>) -> Result<Seq<u8>, PictureError> {
    if w * h * 3 > u32::MAX {
        Err(PictureError::TooLarge)
    } else if rgb.len() < w * h * 3 {
        Err(PictureError::Short)
    } else {
        Ok(preprocess::swizzled(rgb.take(w * h * 3)))
    }
}

/// The picture with the given size and red, green and blue samples; samples past the last pixel are
/// left out.
pub fn from_rgb(width: u32, height: u32, rgb: Vec<u8>) -> (r: Result<BgrImage, PictureError>)
    ensures
        match picture_of(width, height, rgb@) {
            Ok(data) => r matches Ok(p) && p.wf() && p.width == width && p.height == height && p.data@
                == data,
            Err(e) => r == Err::<BgrImage, PictureError>(e),
        },
{
    proof {
        let (w, h) = (width as int, height as int);
        assert(w * h <= 0xffff_ffff * 0xffff_ffff) by (nonlinear_arith)
            requires
                0 <= w <= 0xffff_ffff,
                0 <= h <= 0xffff_ffff,
        ;
        assert(w * h >= 0) by (nonlinear_arith)
            requires
                0 <= w,
                0 <= h,
        ;
    }
    let n: u128 = width as u128 * height as u128 * 3;
    if n > 0xffff_ffff {
        return Err(PictureError::TooLarge);
    }
    if rgb.len() < n as usize {
        return Err(PictureError::Short);
    }
    let mut data: Vec<u8> = rgb;
    data.truncate(n as usize);
    assert(data@ =~= rgb@.take(n as int));
    preprocess::rgb_to_bgr_in_place(data.as_mut_slice());
    Ok(BgrImage { width, height, data })
}

impl BgrImage {
    /// The picture in the bytes of a file: what `from_rgb` makes of the decoded samples.
    pub fn decode(bytes: &[u8]) -> (r: Result<BgrImage, PictureError>)
        ensures
            r == Err::<BgrImage, PictureError>(PictureError::Unreadable) || exists|
                w: u32,
                h: u32,
                rgb: Seq<u8>,
            |
                rgb.len() >= w * h * 3 && match #[trigger] picture_of(w, h, rgb) {
                    Ok(data) => r matches Ok(p) && p.wf() && p.width == w && p.height == h && p.data@
                        == data,
                    Err(e) => r == Err::<BgrImage, PictureError>(e),
                },
    {
        match decode_rgb(bytes) {
            None => Err(PictureError::Unreadable),
            Some((w, h, rgb)) => from_rgb(w, h, rgb),
        }
    }
}

} // verus!
