//! The OmniSR "descreenton" models: light 4× upscaling that also removes
//! JPEG compression noise. They were exported for a fixed input of
//! 128 × 128, so every region is padded to that size by repeating its last
//! column and row.

use vstd::prelude::*;
use crate::upscale::output_pixel_indices;
use crate::upscale::real_cugan::RealCugan;
use crate::upscale::pixels::{encode_padded, is_padded_region, RgbPixels};

verus! {

/// Side of the fixed input the models take.
pub const FIXED_SIZE: usize = 128;

/// Weights trained for strongly (`Vl4`) or lightly (`Vh4`) compressed JPEGs.
pub enum DescreentonVariant {
    Vl4,
    Vh4,
}

pub struct Descreenton(pub DescreentonVariant);

impl Descreenton {
    /// The model file of the variant (whatever the scale asked for).
    pub fn model_file(&self, scale: u32) -> (r: &'static str)
        ensures
            self.0 is Vl4 ==> r@ == "descreenton_vl4.onnx"@,
            self.0 is Vh4 ==> r@ == "descreenton_vh4.onnx"@,
    {
        match self.0 {
            DescreentonVariant::Vl4 => "descreenton_vl4.onnx",
            DescreentonVariant::Vh4 => "descreenton_vh4.onnx",
        }
    }

    /// Both variants scale by 4 whatever is asked.
    pub fn output_scale(&self, scale: u32) -> (r: u32)
        ensures
            r == 4,
    {
        4
    }

    pub fn input_name(&self) -> (r: &'static str)
        ensures
            r@ == "input"@,
    {
        "input"
    }

    pub fn output_name(&self) -> (r: &'static str)
        ensures
            r@ == "output"@,
    {
        "output"
    }

    /// Side of a tile's core region; with the margin on both sides it makes
    /// up the fixed input size.
    pub fn tile_size(&self) -> (r: usize)
        ensures
            r == 96,
            r + 2 * 16 == FIXED_SIZE,
    {
        96
    }

    /// Margin around a tile's core region.
    pub fn tile_overlap(&self) -> (r: usize)
        ensures
            r == 16,
    {
        16
    }

    /// The network input for the `w` × `h` region of `img` at (`x0`, `y0`):
    /// channel-first bytes (to be scaled to 0–1) padded to 128 × 128 by
    /// repeating the last column and row; with the padded width and height.
    pub fn encode_region(&self, img: &RgbPixels, x0: usize, y0: usize, w: usize, h: usize) -> (r: (
        Vec<u8>,
        usize,
        usize,
    ))
        requires
            img.wf(),
            1 <= w <= FIXED_SIZE,
            1 <= h <= FIXED_SIZE,
            x0 + w <= img.width,
            y0 + h <= img.height,
        ensures
            r.1 == FIXED_SIZE,
            r.2 == FIXED_SIZE,
            is_padded_region(
                r.0@,
                *img,
                x0 as int,
                y0 as int,
                w as int,
                h as int,
                r.1 as int,
                r.2 as int,
            ),
    {
        let data = encode_padded(img, x0, y0, w, h, FIXED_SIZE, FIXED_SIZE);
        (data, FIXED_SIZE, FIXED_SIZE)
    }

    /// Where the red, green and blue values of output pixel (`out_x`,
    /// `out_y`) lie in the output of an `out_w_total` × `out_h_total` tensor.
    pub fn decode_indices(&self, out_h_total: usize, out_w_total: usize, out_x: usize, out_y: usize) -> (r: (
        usize,
        usize,
        usize,
    ))
        requires
            out_y * out_w_total + out_x + 2 * (out_h_total * out_w_total) <= usize::MAX,
        ensures
            r.0 == out_y * out_w_total + out_x,
            r.1 == out_h_total * out_w_total + r.0,
            r.2 == 2 * (out_h_total * out_w_total) + r.0,
    {
        output_pixel_indices(out_h_total, out_w_total, out_x, out_y)
    }
}


/// Both models read a pixel of the network's output at the same three places:
/// whatever `decode_indices` of a Descreenton model and of Real-CUGAN return
/// for the same tensor size and pixel, the results are equal.
pub proof fn lemma_models_decode_alike(
    d: Descreenton,
    out_h_total: usize,
    out_w_total: usize,
    out_x: usize,
    out_y: usize,
    rd: (usize, usize, usize),
    rr: (usize, usize, usize),
)
    requires
        call_ensures(Descreenton::decode_indices, (&d, out_h_total, out_w_total, out_x, out_y), rd),
        call_ensures(RealCugan::decode_indices, (&RealCugan, out_h_total, out_w_total, out_x, out_y), rr),
    ensures
        rd == rr,
{
}

/// Law of `Descreenton::encode_region`: the input is always 128 × 128; it is
/// the region pixel for pixel, and the rest of the 128 × 128 area repeats the
/// region's last column to the right, its last row below, and its corner
/// pixel in the corner.
pub proof fn law_descreenton_input_repeats_edges(
    d: Descreenton,
    img: RgbPixels,
    x0: usize,
    y0: usize,
    w: usize,
    h: usize,
    r: (Vec<u8>, usize, usize),
)
    requires
        call_ensures(Descreenton::encode_region, (&d, &img, x0, y0, w, h), r),
    ensures
        r.1 == 128 && r.2 == 128,
        r.0@.len() == 3 * 128 * 128,
        forall|c: int, ty: int, tx: int|
            0 <= c < 3 && 0 <= ty < 128 && 0 <= tx < 128 ==> #[trigger] r.0@[c * (128 * 128) + ty
                * 128 + tx] == img.data@[((y0 + (if ty < h { ty } else { h - 1 })) * img.width + (x0
                + (if tx < w { tx } else { w - 1 }))) * 3 + c],
{
}

} // verus!
