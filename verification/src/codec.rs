//! The lossless tile codec: QOI encoding of one RGBA region.

use vstd::prelude::*;

verus! {

/// The QOI encoding of `w` x `h` RGBA pixel bytes, as `qoi::encode_to_vec`
/// computes it: a function of the pixel bytes and the dimensions alone.
pub uninterp spec fn qoi_of(px: Seq<u8>, w: int, h: int) -> Seq<u8>;

/// Largest pixel count the QOI format accepts (the crate's `QOI_PIXELS_MAX`).
pub const QOI_PIXELS_MAX: u64 = 400_000_000;

/// Relies on `qoi::encode_to_vec`: with exactly four bytes per pixel, at
/// least one pixel each way and at most `QOI_PIXELS_MAX` pixels, encoding
/// succeeds; the result depends on the pixel bytes and dimensions alone, and
/// never exceeds the crate's own `encode_max_len` bound of `5·w·h + 22`
/// bytes (14-byte header, at most 5 bytes per pixel, 8 padding bytes).
#[verifier::external_body]
pub(crate) fn qoi_encode(px: &Vec<u8>, w: u32, h: u32) -> (r: Vec<u8>)
    requires
        1 <= w,
        1 <= h,
        px@.len() == w * h * 4,
        w * h <= QOI_PIXELS_MAX,
    ensures
        r@ == qoi_of(px@, w as int, h as int),
        r@.len() <= w * h * 5 + 22,
{
    qoi::encode_to_vec(px, w, h).unwrap()
}

} // verus!
