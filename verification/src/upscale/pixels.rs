//! An RGB image as plain values, and the channel-first layout in which a
//! region of it is handed to an upscaling network.

use vstd::prelude::*;
use vstd::arithmetic::div_mod::lemma_fundamental_div_mod_converse;

verus! {

/// An image of 8-bit RGB pixels stored row by row, three bytes per pixel
/// (the layout of `image::RgbImage`).
pub struct RgbPixels {
    pub width: u32,
    pub height: u32,
    pub data: Vec<u8>,
}

impl RgbPixels {
    /// The buffer holds exactly three bytes for every pixel.
    pub open spec fn wf(&self) -> bool {
        self.data.len() == 3 * (self.width as int) * (self.height as int)
    }

    /// Channel `c` (0 red, 1 green, 2 blue) of the pixel in column `x`, row `y`.
    pub open spec fn channel(&self, x: int, y: int, c: int) -> u8 {
        self.data@[(y * self.width + x) * 3 + c]
    }

    /// Channel `c` of the pixel in column `x`, row `y`.
    pub fn get(&self, x: usize, y: usize, c: usize) -> (v: u8)
        requires
            self.wf(),
            x < self.width,
            y < self.height,
            c < 3,
        ensures
            v == self.channel(x as int, y as int, c as int),
    {
        let w = self.width as usize;
        let h = self.height as usize;
        proof {
            let wi = w as int;
            let hi = h as int;
            assert((y as int) * wi + (x as int) < hi * wi) by (nonlinear_arith)
                requires
                    (x as int) < wi,
                    (y as int) < hi,
                    0 <= (x as int),
                    0 <= (y as int),
            ;
            assert(((y as int) * wi + (x as int)) * 3 + (c as int) < 3 * wi * hi) by (nonlinear_arith)
                requires
                    (y as int) * wi + (x as int) < hi * wi,
                    (c as int) < 3,
                    0 <= (c as int),
            ;
            assert(0 <= (y as int) * wi) by (nonlinear_arith)
                requires
                    0 <= (y as int),
                    0 <= wi,
            ;
        }
        self.data[(y * w + x) * 3 + c]
    }
}

/// `a` if it is at most `b`, else `b`.
pub open spec fn min_int(a: int, b: int) -> int {
    if a <= b { a } else { b }
}

/// The value at channel `c`, row `ty`, column `tx` of the padded tensor made
/// from the `w` × `h` region of `img` at (`x0`, `y0`): the pixel of the region
/// nearest to that place, so that the padding repeats the last column and the
/// last row.
pub open spec fn clamped_value(
    img: RgbPixels,
    x0: int,
    y0: int,
    w: int,
    h: int,
    c: int,
    ty: int,
    tx: int,
) -> u8 {
    img.channel(x0 + min_int(tx, w - 1), y0 + min_int(ty, h - 1), c)
}

/// `data` is the channel-first (`[3][pad_h][pad_w]`) tensor of the `w` × `h`
/// region of `img` at (`x0`, `y0`), padded to `pad_w` × `pad_h` by repeating
/// the region's last column and last row.
pub open spec fn is_padded_region(
    data: Seq<u8>,
    img: RgbPixels,
    x0: int,
    y0: int,
    w: int,
    h: int,
    pad_w: int,
    pad_h: int,
) -> bool {
    &&& data.len() == 3 * pad_h * pad_w
    &&& forall|c: int, ty: int, tx: int|
        0 <= c < 3 && 0 <= ty < pad_h && 0 <= tx < pad_w ==> #[trigger] data[c * (pad_h * pad_w)
            + ty * pad_w + tx] == clamped_value(img, x0, y0, w, h, c, ty, tx)
}

/// The value at flat position `i` of the tensor, in the terms of
/// `clamped_value`.
pub open spec fn flat_value(
    img: RgbPixels,
    x0: int,
    y0: int,
    w: int,
    h: int,
    pad_w: int,
    pad_h: int,
    i: int,
) -> u8 {
    let plane = pad_h * pad_w;
    clamped_value(img, x0, y0, w, h, i / plane, (i % plane) / pad_w, (i % plane) % pad_w)
}

proof fn lemma_flat_index(c: int, ty: int, tx: int, pad_w: int, pad_h: int)
    requires
        0 <= c < 3,
        0 <= ty < pad_h,
        0 <= tx < pad_w,
    ensures
        ({
            let plane = pad_h * pad_w;
            let i = c * plane + ty * pad_w + tx;
            &&& 0 <= i < 3 * plane
            &&& i / plane == c
            &&& (i % plane) / pad_w == ty
            &&& (i % plane) % pad_w == tx
        }),
{
    let plane = pad_h * pad_w;
    let r = ty * pad_w + tx;
    assert(0 <= ty * pad_w <= (pad_h - 1) * pad_w) by (nonlinear_arith)
        requires
            0 <= ty <= pad_h - 1,
            0 <= pad_w,
    ;
    assert((pad_h - 1) * pad_w == plane - pad_w) by (nonlinear_arith)
        requires
            plane == pad_h * pad_w,
    ;
    assert(0 <= r < plane);
    assert(0 <= c * plane + r < 3 * plane) by (nonlinear_arith)
        requires
            0 <= c < 3,
            0 <= r < plane,
    ;
    lemma_fundamental_div_mod_converse(c * plane + r, plane, c, r);
    lemma_fundamental_div_mod_converse(r, pad_w, ty, tx);
}

proof fn lemma_flat_split(i: int, pad_w: int, pad_h: int)
    requires
        0 < pad_w,
        0 < pad_h,
        0 <= i < 3 * (pad_h * pad_w),
    ensures
        ({
            let plane = pad_h * pad_w;
            &&& 0 <= i / plane < 3
            &&& 0 <= (i % plane) / pad_w < pad_h
            &&& 0 <= (i % plane) % pad_w < pad_w
        }),
{
    let plane = pad_h * pad_w;
    assert(plane > 0) by (nonlinear_arith)
        requires
            0 < pad_w,
            0 < pad_h,
            plane == pad_h * pad_w,
    ;
    let q = i / plane;
    let r = i % plane;
    assert(i == q * plane + r && 0 <= r < plane) by (nonlinear_arith)
        requires
            plane > 0,
            q == i / plane,
            r == i % plane,
    ;
    assert(0 <= q < 3) by (nonlinear_arith)
        requires
            i == q * plane + r,
            0 <= r < plane,
            0 <= i < 3 * plane,
            plane > 0,
    ;
    let t = r / pad_w;
    let u = r % pad_w;
    assert(r == t * pad_w + u && 0 <= u < pad_w) by (nonlinear_arith)
        requires
            pad_w > 0,
            t == r / pad_w,
            u == r % pad_w,
    ;
    assert(0 <= t < pad_h) by (nonlinear_arith)
        requires
            r == t * pad_w + u,
            0 <= u < pad_w,
            0 <= r < plane,
            plane == pad_h * pad_w,
            pad_w > 0,
    ;
}

/// The padded channel-first tensor of the `w` × `h` region of `img` at
/// (`x0`, `y0`), padded to `pad_w` × `pad_h` by repeating its last column and
/// last row.
pub fn encode_padded(
    img: &RgbPixels,
    x0: usize,
    y0: usize,
    w: usize,
    h: usize,
    pad_w: usize,
    pad_h: usize,
) -> (data: Vec<u8>)
    requires
        img.wf(),
        pad_w == 0 || pad_h == 0 || (1 <= w && 1 <= h && x0 + w <= img.width && y0 + h
            <= img.height),
        3 * pad_h * pad_w <= usize::MAX,
    ensures
        is_padded_region(
            data@,
            *img,
            x0 as int,
            y0 as int,
            w as int,
            h as int,
            pad_w as int,
            pad_h as int,
        ),
{
    let mut data: Vec<u8> = Vec::new();
    if pad_w == 0 || pad_h == 0 {
        proof {
            assert(3 * (pad_h as int) * (pad_w as int) == 0) by (nonlinear_arith)
                requires
                    pad_w == 0 || pad_h == 0,
            ;
        }
        return data;
    }
    proof {
        assert(0 < (pad_h as int) * (pad_w as int) <= 3 * (pad_h as int) * (pad_w as int)
            && 3 * ((pad_h as int) * (pad_w as int)) == 3 * (pad_h as int) * (pad_w as int))
            by (nonlinear_arith)
            requires
                0 < pad_w,
                0 < pad_h,
        ;
    }
    let plane = pad_h * pad_w;
    let total = 3 * plane;
    let mut i: usize = 0;
    while i < total
        invariant
            img.wf(),
            1 <= w && 1 <= h && x0 + w <= img.width && y0 + h <= img.height,
            0 < pad_w,
            0 < pad_h,
            plane == pad_h * pad_w,
            total == 3 * plane,
            i <= total,
            data.len() == i,
            forall|j: int|
                0 <= j < i ==> #[trigger] data@[j] == flat_value(
                    *img,
                    x0 as int,
                    y0 as int,
                    w as int,
                    h as int,
                    pad_w as int,
                    pad_h as int,
                    j,
                ),
        decreases total - i,
    {
        proof {
            lemma_flat_split(i as int, pad_w as int, pad_h as int);
        }
        let c = i / plane;
        let r = i % plane;
        let ty = r / pad_w;
        let tx = r % pad_w;
        let sx = if tx <= w - 1 { tx } else { w - 1 };
        let sy = if ty <= h - 1 { ty } else { h - 1 };
        let v = img.get(x0 + sx, y0 + sy, c);
        data.push(v);
        i = i + 1;
    }
    proof {
        assert forall|c: int, ty: int, tx: int|
            0 <= c < 3 && 0 <= ty < pad_h && 0 <= tx < pad_w implies #[trigger] data@[c * (
            (pad_h as int) * (pad_w as int)) + ty * (pad_w as int) + tx] == clamped_value(
            *img,
            x0 as int,
            y0 as int,
            w as int,
            h as int,
            c,
            ty,
            tx,
        ) by {
            lemma_flat_index(c, ty, tx, pad_w as int, pad_h as int);
        }
    }
    data
}

/// Law of `encode_padded`: the tensor holds three planes of `pad_h` rows of
/// `pad_w` values; inside the region each value is the region's pixel, and
/// every place right of the region repeats its last column, every place
/// below it repeats its last row, and the corner repeats the corner pixel,
/// however far the padding reaches.
pub proof fn law_encode_padded_repeats_edges(
    img: RgbPixels,
    x0: usize,
    y0: usize,
    w: usize,
    h: usize,
    pad_w: usize,
    pad_h: usize,
    data: Vec<u8>,
)
    requires
        call_ensures(encode_padded, (&img, x0, y0, w, h, pad_w, pad_h), data),
    ensures
        data@.len() == 3 * pad_h * pad_w,
        forall|c: int, ty: int, tx: int|
            0 <= c < 3 && 0 <= ty < pad_h && 0 <= tx < pad_w ==> #[trigger] data@[c * (pad_h
                * pad_w) + ty * pad_w + tx] == img.data@[((y0 + (if ty < h { ty } else { h - 1 }))
                * img.width + (x0 + (if tx < w { tx } else { w - 1 }))) * 3 + c],
{
}

} // verus!
