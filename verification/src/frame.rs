//! Luminance conversion of captured frames.
//!
//! The QR detector works on one luminance byte per pixel; a captured frame
//! arrives as packed RGBA.  The conversion weighs the channels by the fixed
//! integer approximation of perceptual luminance.

use vstd::prelude::*;

verus! {

/// The luminance of one pixel: `(299 R + 587 G + 114 B) / 1000`.
pub open spec fn spec_luma(r: u8, g: u8, b: u8) -> u8 {
    ((299 * (r as int) + 587 * (g as int) + 114 * (b as int)) / 1000) as u8
}

/// Converts a packed RGBA frame of `width * height` pixels to one luminance
/// byte per pixel, ignoring the alpha channel.
pub fn to_grayscale(rgba: &Vec<u8>, width: usize, height: usize) -> (gray: Vec<u8>)
    requires
        rgba@.len() == 4 * (width as int) * (height as int),
    ensures
        gray@.len() == (width as int) * (height as int),
        forall|i: int|
            0 <= i < gray@.len() ==> gray@[i] == spec_luma(
                rgba@[4 * i],
                rgba@[4 * i + 1],
                rgba@[4 * i + 2],
            ),
{
    let len = rgba.len();
    proof {
        assert((width as int) * (height as int) >= 0) by (nonlinear_arith);
        assert(4 * ((width as int) * (height as int)) == 4 * (width as int) * (height as int))
            by (nonlinear_arith);
    }
    let count = width * height;
    let mut gray: Vec<u8> = Vec::new();
    let mut i: usize = 0;
    while i < count
        invariant
            i <= count,
            count == (width as int) * (height as int),
            rgba@.len() == 4 * count,
            4 * count <= usize::MAX,
            gray@.len() == i,
            forall|j: int|
                0 <= j < i ==> gray@[j] == spec_luma(
                    rgba@[4 * j],
                    rgba@[4 * j + 1],
                    rgba@[4 * j + 2],
                ),
        decreases count - i,
    {
        let base = 4 * i;
        let r = rgba[base] as u32;
        let g = rgba[base + 1] as u32;
        let b = rgba[base + 2] as u32;
        let weighted = 299 * r + 587 * g + 114 * b;
        assert(weighted <= 255000);
        let v = (weighted / 1000) as u8;
        gray.push(v);
        i = i + 1;
    }
    gray
}

} // verus!
