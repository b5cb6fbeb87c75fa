//! Real-CUGAN models (exported with `tile_mode=0`): input scaled to 0–1,
//! channel-first; output red, green and blue planes one after the other.
//! The network needs even sides, so an odd side is padded by repeating its
//! last pixel.

use vstd::prelude::*;
use crate::upscale::output_pixel_indices;
use crate::upscale::pixels::{encode_padded, is_padded_region, RgbPixels};

verus! {

pub struct RealCugan;

/// `n` rounded up to an even number (`(n + 1) & !1`).
pub open spec fn even_ceil(n: int) -> int {
    n + n % 2
}

impl RealCugan {
    /// The model file for a scale: the 4× model for 4, the 2× model otherwise.
    pub fn model_file(&self, scale: u32) -> (r: &'static str)
        ensures
            scale == 4 ==> r@ == "realcugan_4x_conservative.onnx"@,
            scale != 4 ==> r@ == "realcugan_2x_conservative.onnx"@,
    {
        if scale == 4 {
            "realcugan_4x_conservative.onnx"
        } else {
            "realcugan_2x_conservative.onnx"
        }
    }

    /// The model scales by the factor it was chosen for.
    pub fn output_scale(&self, scale: u32) -> (r: u32)
        ensures
            r == scale,
    {
        scale
    }

    pub fn input_name(&self) -> (r: &'static str)
        ensures
            r@ == "input"@,
    {
        "input"
    }

    pub fn output_name(&self) -> (r: &'static str)
        ensures
            r@ == "output"@,
    {
        "output"
    }

    /// Side of a tile's core region.
    pub fn tile_size(&self) -> (r: usize)
        ensures
            r == 256,
    {
        256
    }

    /// Margin around a tile's core region.
    pub fn tile_overlap(&self) -> (r: usize)
        ensures
            r == 32,
    {
        32
    }

    /// The network input for the `w` × `h` region of `img` at (`x0`, `y0`):
    /// channel-first bytes (to be scaled to 0–1), each side rounded up to an
    /// even length by repeating the last column or row; with the padded width
    /// and height.
    pub fn encode_region(&self, img: &RgbPixels, x0: usize, y0: usize, w: usize, h: usize) -> (r: (
        Vec<u8>,
        usize,
        usize,
    ))
        requires
            img.wf(),
            w == 0 || h == 0 || (x0 + w <= img.width && y0 + h <= img.height),
            3 * (w + 1) * (h + 1) <= usize::MAX,
        ensures
            r.1 == even_ceil(w as int),
            r.2 == even_ceil(h as int),
            is_padded_region(
                r.0@,
                *img,
                x0 as int,
                y0 as int,
                w as int,
                h as int,
                r.1 as int,
                r.2 as int,
            ),
    {
        proof {
            let (wi, hi) = (w as int, h as int);
            assert(wi + 1 <= 3 * (wi + 1) * (hi + 1) && hi + 1 <= 3 * (wi + 1) * (hi + 1))
                by (nonlinear_arith)
                requires
                    0 <= wi,
                    0 <= hi,
            ;
        }
        let pad_w = w + w % 2;
        let pad_h = h + h % 2;
        proof {
            let (wi, hi, pw, ph) = (w as int, h as int, pad_w as int, pad_h as int);
            assert(3 * ph * pw <= 3 * (wi + 1) * (hi + 1)) by (nonlinear_arith)
                requires
                    0 <= pw <= wi + 1,
                    0 <= ph <= hi + 1,
            ;
        }
        let data = encode_padded(img, x0, y0, w, h, pad_w, pad_h);
        (data, pad_w, pad_h)
    }

    /// Where the red, green and blue values of output pixel (`out_x`,
    /// `out_y`) lie in the output of an `out_w_total` × `out_h_total` tensor.
    pub fn decode_indices(&self, out_h_total: usize, out_w_total: usize, out_x: usize, out_y: usize) -> (r: (
        usize,
        usize,
        usize,
    ))
        requires
            out_y * out_w_total + out_x + 2 * (out_h_total * out_w_total) <= usize::MAX,
        ensures
            r.0 == out_y * out_w_total + out_x,
            r.1 == out_h_total * out_w_total + r.0,
            r.2 == 2 * (out_h_total * out_w_total) + r.0,
    {
        output_pixel_indices(out_h_total, out_w_total, out_x, out_y)
    }
}

/// Law of `RealCugan::encode_region`: each side is the region's, plus one
/// when it is odd; inside the region each value is the region's pixel, and
/// the added column and row repeat the last column and row.
pub proof fn law_real_cugan_input_pads_to_even(
    m: RealCugan,
    img: RgbPixels,
    x0: usize,
    y0: usize,
    w: usize,
    h: usize,
    r: (Vec<u8>, usize, usize),
)
    requires
        call_ensures(RealCugan::encode_region, (&m, &img, x0, y0, w, h), r),
    ensures
        r.1 == w + w % 2 && r.2 == h + h % 2,
        r.1 % 2 == 0 && r.2 % 2 == 0,
        r.0@.len() == 3 * r.2 * r.1,
        forall|c: int, ty: int, tx: int|
            0 <= c < 3 && 0 <= ty < r.2 && 0 <= tx < r.1 ==> #[trigger] r.0@[c * (r.2 * r.1) + ty
                * r.1 + tx] == img.data@[((y0 + (if ty < h { ty } else { h - 1 })) * img.width + (x0
                + (if tx < w { tx } else { w - 1 }))) * 3 + c],
{
}

} // verus!
