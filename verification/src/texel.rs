//! Texel addressing for image textures.
//!
//! An image texture is a decoded bitmap: `width * height` pixels of
//! three bytes each, rows laid out one scanline stride apart.  Sampling
//! maps a surface coordinate to a pixel index pair; the pair is clamped
//! to the valid range at the border and turned into a byte offset here,
//! with the guarantee that the three channel bytes lie inside the
//! buffer.

use vstd::prelude::*;

verus! {

/// An index clamped below `bound`.
pub open spec fn clamped(v: int, bound: int) -> int {
    if v < bound {
        v
    } else {
        bound - 1
    }
}

/// Byte offset of the first channel of pixel column `i`, row `j`,
/// with both clamped to the image, so that the offset and the two
/// bytes after it always fall inside a buffer of `height * stride`
/// bytes.
pub fn texel_offset(i: usize, j: usize, width: usize, height: usize, stride: usize) -> (off: usize)
    requires
        1 <= width,
        1 <= height,
        3 * width <= stride,
        height * stride <= usize::MAX,
    ensures
        off == clamped(j as int, height as int) * stride + clamped(i as int, width as int) * 3,
        off + 3 <= height * stride,
{
    let ic = if i >= width {
        width - 1
    } else {
        i
    };
    let jc = if j >= height {
        height - 1
    } else {
        j
    };
    proof {
        assert(jc * stride + ic * 3 + 3 <= height * stride) by (nonlinear_arith)
            requires
                ic < width,
                jc < height,
                1 <= width,
                1 <= height,
                3 * width <= stride,
        {
        }
    }
    jc * stride + ic * 3
}

} // verus!
