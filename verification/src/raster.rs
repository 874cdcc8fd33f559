//! A decoded RGBA raster and extraction of rectangular sub-regions.

use vstd::prelude::*;

verus! {

/// A decoded RGBA raster: `width` x `height` pixels, four bytes per pixel,
/// rows stored top to bottom, each row left to right.
pub struct Raster {
    pub width: u32,
    pub height: u32,
    pub pixels: Vec<u8>,
}

/// The bytes of the `w` x `h` rectangle at `(x, y)` of a raster of row width
/// `rw`, in row-major order: output byte `k` lies in rectangle row `k / (4·w)`
/// at byte offset `k % (4·w)` within that row.
pub open spec fn crop_spec(px: Seq<u8>, rw: int, x: int, y: int, w: int, h: int) -> Seq<u8> {
    Seq::new((w * h * 4) as nat, |k: int| px[((y + k / (4 * w)) * rw + x) * 4 + k % (4 * w)])
}

impl Raster {
    /// Well-formed: at least one pixel each way, and the buffer holds exactly
    /// four bytes per pixel.
    pub open spec fn wf(self) -> bool {
        &&& self.width >= 1
        &&& self.height >= 1
        &&& self.pixels@.len() == self.width * self.height * 4
    }

    /// Builds a raster from raw RGBA bytes; `None` exactly when a dimension is
    /// zero or the buffer length does not match the dimensions.
    pub fn from_raw(width: u32, height: u32, pixels: Vec<u8>) -> (r: Option<Raster>)
        ensures
            match r {
                Some(img) => {
                    &&& img.wf()
                    &&& img.width == width
                    &&& img.height == height
                    &&& img.pixels@ == pixels@
                },
                None => !(width >= 1 && height >= 1 && pixels@.len() == width * height * 4),
            },
    {
        proof {
            assert(width as int * height as int * 4 < 0x1_0000_0000_0000_0000_0000)
                by (nonlinear_arith);
        }
        let need: u128 = (width as u128) * (height as u128) * 4;
        if width >= 1 && height >= 1 && pixels.len() as u128 == need {
            Some(Raster { width, height, pixels })
        } else {
            None
        }
    }
}

/// Copies the `w` x `h` rectangle at `(x, y)` out of a raster, row by row.
pub fn crop(img: &Raster, x: u32, y: u32, w: u32, h: u32) -> (out: Vec<u8>)
    requires
        img.wf(),
        1 <= w,
        1 <= h,
        x + w <= img.width,
        y + h <= img.height,
    ensures
        out@ == crop_spec(img.pixels@, img.width as int, x as int, y as int, w as int, h as int),
        out@.len() == w * h * 4,
{
    let ghost spec_out = crop_spec(
        img.pixels@,
        img.width as int,
        x as int,
        y as int,
        w as int,
        h as int,
    );
    proof {
        assert(4 * (w as int) <= img.width * img.height * 4 && w * h * 4
            <= img.width * img.height * 4) by (nonlinear_arith)
            requires
                1 <= w <= img.width,
                1 <= h <= img.height,
        ;
    }
    let mut out: Vec<u8> = Vec::new();
    let total: usize = img.pixels.len();
    let row_bytes: usize = 4 * (w as usize);
    let mut r: u32 = 0;
    while r < h
        invariant
            img.wf(),
            1 <= w,
            1 <= h,
            x + w <= img.width,
            y + h <= img.height,
            r <= h,
            total == img.pixels@.len(),
            row_bytes == 4 * (w as int),
            spec_out == crop_spec(img.pixels@, img.width as int, x as int, y as int, w as int, h as int),
            spec_out.len() == w * h * 4,
            out@ =~= spec_out.take(r as int * (4 * w as int)),
        decreases h - r,
    {
        proof {
            assert(0 <= r as int * (4 * w as int) && r as int * (4 * w as int) + 4 * (w as int)
                <= w * h * 4) by (nonlinear_arith)
                requires
                    0 <= r < h,
                    1 <= w,
            ;
            assert(((y + r) * img.width + x) * 4 + 4 * (w as int) <= img.pixels@.len())
                by (nonlinear_arith)
                requires
                    0 <= r < h,
                    y + h <= img.height,
                    x + w <= img.width,
                    1 <= w,
                    img.pixels@.len() == img.width * img.height * 4,
            ;
        }
        let src_row_start: usize = (((y + r) as usize) * (img.width as usize) + (x as usize)) * 4;
        let mut c: usize = 0;
        while c < row_bytes
            invariant
                img.wf(),
                1 <= w,
                1 <= h,
                x + w <= img.width,
                y + h <= img.height,
                r < h,
                c <= row_bytes,
                total == img.pixels@.len(),
                row_bytes == 4 * (w as int),
                src_row_start == ((y + r) * img.width + x) * 4,
                ((y + r) * img.width + x) * 4 + 4 * (w as int) <= img.pixels@.len(),
                r as int * (4 * w as int) + 4 * (w as int) <= w * h * 4,
                spec_out == crop_spec(img.pixels@, img.width as int, x as int, y as int, w as int, h as int),
                spec_out.len() == w * h * 4,
                out@ =~= spec_out.take(r as int * (4 * w as int) + c as int),
            decreases row_bytes - c,
        {
            let ghost k: int = r as int * (4 * w as int) + c as int;
            proof {
                assert(k / (4 * w as int) == r && k % (4 * w as int) == c) by (nonlinear_arith)
                    requires
                        k == r as int * (4 * w as int) + c as int,
                        0 <= c < 4 * w as int,
                        1 <= w,
                        0 <= r,
                ;
                assert(0 <= k && k < spec_out.len());
                assert(spec_out[k] == img.pixels@[((y + r) * img.width + x) * 4 + c]);
            }
            let b: u8 = img.pixels[src_row_start + c];
            out.push(b);
            proof {
                assert(out@ =~= spec_out.take(k + 1));
            }
            c += 1;
        }
        r += 1;
        proof {
            assert(r as int * (4 * w as int) == (r as int - 1) * (4 * w as int) + 4 * (w as int))
                by (nonlinear_arith);
        }
    }
    proof {
        assert(h as int * (4 * w as int) == w * h * 4) by (nonlinear_arith);
        assert(out@ =~= spec_out);
    }
    out
}

} // verus!
