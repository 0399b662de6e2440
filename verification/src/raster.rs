//! The RGBA buffer layout shared by the filters and the host: pixels stored
//! row by row, four bytes (red, green, blue, alpha) per pixel.

use vstd::prelude::*;
use vstd::arithmetic::div_mod::lemma_fundamental_div_mod_converse;

verus! {

/// Bytes per pixel.
pub const BYTES_PER_PIXEL: usize = 4;

/// The length that an RGBA buffer of `width` × `height` pixels has.
pub open spec fn rgba_len(width: int, height: int) -> int {
    width * height * 4
}

/// Where channel `c` of pixel `(x, y)` stands in a buffer `w` pixels wide.
pub open spec fn byte_index(w: int, x: int, y: int, c: int) -> int {
    (y * w + x) * 4 + c
}

/// The buffer length of a `width` × `height` image, or `None` when it does not
/// fit in `usize`.
pub fn expected_len(width: u32, height: u32) -> (r: Option<usize>)
    ensures
        match r {
            Some(n) => n == rgba_len(width as int, height as int),
            None => rgba_len(width as int, height as int) > usize::MAX,
        },
{
    let w = width as usize;
    let h = height as usize;
    match w.checked_mul(h) {
        Some(n) => match n.checked_mul(BYTES_PER_PIXEL) {
            Some(m) => Some(m),
            None => None,
        },
        None => {
            proof {
                assert(w * h * 4 >= w * h) by (nonlinear_arith)
                    requires
                        w >= 0,
                        h >= 0,
                ;
            }
            None
        },
    }
}

/// Where a pixel's channel lies, and how its position is read back from it.
pub proof fn lemma_byte_index(w: int, h: int, x: int, y: int, c: int)
    requires
        0 <= x < w,
        0 <= y < h,
        0 <= c < 4,
    ensures
        0 <= y * w + x < w * h,
        0 <= byte_index(w, x, y, c) < rgba_len(w, h),
        byte_index(w, x, y, c) / 4 == y * w + x,
        byte_index(w, x, y, c) % 4 == c,
        (y * w + x) / w == y,
        (y * w + x) % w == x,
{
    assert(0 <= y * w) by (nonlinear_arith)
        requires
            0 <= y,
            0 < w,
    ;
    assert(y * w + x < w * h) by (nonlinear_arith)
        requires
            0 <= x < w,
            0 <= y < h,
    ;
    lemma_fundamental_div_mod_converse(byte_index(w, x, y, c), 4, y * w + x, c);
    lemma_fundamental_div_mod_converse(y * w + x, w, y, x);
}


/// The column of the pixel that byte `k` belongs to.
pub open spec fn pixel_x(w: int, k: int) -> int {
    (k / 4) % w
}

/// The row of the pixel that byte `k` belongs to.
pub open spec fn pixel_y(w: int, k: int) -> int {
    (k / 4) / w
}

/// The channel that byte `k` holds.
pub open spec fn channel(k: int) -> int {
    k % 4
}

/// Every byte of a `w` × `h` buffer is a channel of one of its pixels.
pub proof fn lemma_decode(w: int, h: int, k: int)
    requires
        w > 0,
        h > 0,
        0 <= k < rgba_len(w, h),
    ensures
        0 <= pixel_x(w, k) < w,
        0 <= pixel_y(w, k) < h,
        0 <= channel(k) < 4,
        k == byte_index(w, pixel_x(w, k), pixel_y(w, k), channel(k)),
{
    let p = k / 4;
    assert(k == p * 4 + k % 4);
    assert(0 <= k % 4 < 4);
    assert(p < w * h);
    assert(0 <= p);
    assert(p == (p / w) * w + p % w) by (nonlinear_arith)
        requires
            w > 0,
    ;
    assert(0 <= p % w < w);
    assert(0 <= p / w);
    assert(p / w < h) by (nonlinear_arith)
        requires
            0 <= p < w * h,
            w > 0,
            p == (p / w) * w + p % w,
            0 <= p % w,
    ;
}

/// The position of a byte in a buffer, read back from its pixel and channel.
pub proof fn lemma_encode(w: int, h: int, x: int, y: int, c: int)
    requires
        0 <= x < w,
        0 <= y < h,
        0 <= c < 4,
    ensures
        0 <= byte_index(w, x, y, c) < rgba_len(w, h),
        pixel_x(w, byte_index(w, x, y, c)) == x,
        pixel_y(w, byte_index(w, x, y, c)) == y,
        channel(byte_index(w, x, y, c)) == c,
{
    lemma_byte_index(w, h, x, y, c);
}

} // verus!
