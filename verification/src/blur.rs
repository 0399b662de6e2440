//! Box blur over RGBA buffers, and the blur plugin's parameters.

use vstd::prelude::*;
use crate::params::{
    parse_u32, parse_u32_spec, settings, settings_from_text, is_word, Setting, no_separator,
    lemma_setting_appended, all_plain, lemma_setting_after_separator,
};
use crate::raster::{
    expected_len, rgba_len, byte_index, lemma_byte_index, lemma_decode, lemma_encode, pixel_x, pixel_y,
    channel,
};

verus! {

/// Parsed blur parameters.
#[derive(Debug, Clone, Copy, PartialEq, Eq, Structural)]
pub struct BlurParams {
    pub radius: u32,
    pub iterations: u32,
}

/// The parameters that a text without valid settings gives: radius 1, one pass.
pub open spec fn default_blur_params() -> BlurParams {
    BlurParams { radius: 1, iterations: 1 }
}

impl Default for BlurParams {
    fn default() -> (r: Self)
        ensures
            r == default_blur_params(),
    {
        BlurParams { radius: 1, iterations: 1 }
    }
}

/// One setting applied to the parameters: a `radius` or `iterations` key
/// with a valid `u32` value replaces that field; anything else is ignored.
pub open spec fn apply_blur_setting(p: BlurParams, kv: (Seq<char>, Seq<char>)) -> BlurParams {
    if kv.0 == "radius"@ {
        match parse_u32_spec(kv.1) {
            Some(v) => BlurParams { radius: v, ..p },
            None => p,
        }
    } else if kv.0 == "iterations"@ {
        match parse_u32_spec(kv.1) {
            Some(v) => BlurParams { iterations: v, ..p },
            None => p,
        }
    } else {
        p
    }
}

/// The settings applied in order, each later one overriding earlier ones.
pub open spec fn apply_blur_settings(p: BlurParams, kvs: Seq<(Seq<char>, Seq<char>)>) -> BlurParams
    decreases kvs.len(),
{
    if kvs.len() == 0 {
        p
    } else {
        apply_blur_setting(apply_blur_settings(p, kvs.drop_last()), kvs.last())
    }
}

/// The blur parameters that a parameter text describes.
pub open spec fn blur_params_of(s: Seq<char>) -> BlurParams {
    apply_blur_settings(default_blur_params(), settings(s))
}

fn apply_setting(p: BlurParams, st: &Setting) -> (r: BlurParams)
    ensures
        r == apply_blur_setting(p, st@),
{
    if is_word(&st.key, "radius") {
        match parse_u32(&st.value) {
            Some(v) => BlurParams { radius: v, ..p },
            None => p,
        }
    } else if is_word(&st.key, "iterations") {
        match parse_u32(&st.value) {
            Some(v) => BlurParams { iterations: v, ..p },
            None => p,
        }
    } else {
        p
    }
}

/// Parses `key=value` pairs separated by commas and/or white space.
///
/// Unknown keys are ignored. Invalid numeric values leave the field as it was.
pub fn parse_params(input: &str) -> (r: BlurParams)
    ensures
        r == blur_params_of(input@),
{
    let list = settings_from_text(input);
    let ghost kvs = settings(input@);
    let mut params = BlurParams::default();
    let mut i: usize = 0;
    while i < list.len()
        invariant
            list@.len() == kvs.len(),
            forall|k: int| 0 <= k < list@.len() ==> #[trigger] list@[k]@ == kvs[k],
            i <= list@.len(),
            params == apply_blur_settings(default_blur_params(), kvs.take(i as int)),
        decreases list@.len() - i,
    {
        assert(kvs.take(i + 1).drop_last() =~= kvs.take(i as int));
        params = apply_setting(params, &list[i]);
        i = i + 1;
    }
    assert(kvs.take(list@.len() as int) =~= kvs);
    params
}


/// The first row or column of a window of radius `r` around `v`.
pub open spec fn window_start(v: int, r: int) -> int {
    if v - r < 0 {
        0
    } else {
        v - r
    }
}

/// The last row or column of a window of radius `r` around `v`, in an image
/// `n` pixels across.
pub open spec fn window_end(v: int, r: int, n: int) -> int {
    if v + r > n - 1 {
        n - 1
    } else {
        v + r
    }
}

/// Sum of channel `c` over columns `x0 .. x_end` (end excluded) of row `y`.
pub open spec fn row_sum(img: Seq<u8>, w: int, y: int, x0: int, x_end: int, c: int) -> int
    decreases x_end - x0,
{
    if x_end <= x0 {
        0
    } else {
        row_sum(img, w, y, x0, x_end - 1, c) + img[byte_index(w, x_end - 1, y, c)]
    }
}

/// Sum of channel `c` over rows `y0 .. y_end` and columns `x0 .. x_end`
/// (ends excluded).
pub open spec fn box_sum(img: Seq<u8>, w: int, y0: int, y_end: int, x0: int, x_end: int, c: int) -> int
    decreases y_end - y0,
{
    if y_end <= y0 {
        0
    } else {
        box_sum(img, w, y0, y_end - 1, x0, x_end, c) + row_sum(img, w, y_end - 1, x0, x_end, c)
    }
}

/// The byte at index `i` after one pass: the mean of its channel over the
/// window of radius `r` around its pixel, clipped to the image, rounded down.
pub open spec fn blurred_byte(img: Seq<u8>, w: int, h: int, r: int, i: int) -> u8 {
    let p = i / 4;
    let c = i % 4;
    let x = p % w;
    let y = p / w;
    let x0 = window_start(x, r);
    let x1 = window_end(x, r, w);
    let y0 = window_start(y, r);
    let y1 = window_end(y, r, h);
    (box_sum(img, w, y0, y1 + 1, x0, x1 + 1, c) / ((x1 - x0 + 1) * (y1 - y0 + 1))) as u8
}

/// One box-blur pass over a `w` × `h` RGBA image.
pub open spec fn blur_pass(img: Seq<u8>, w: int, h: int, r: int) -> Seq<u8> {
    Seq::new(img.len(), |i: int| blurred_byte(img, w, h, r, i))
}

/// `n` box-blur passes, each over the result of the one before.
pub open spec fn blur_passes(img: Seq<u8>, w: int, h: int, r: int, n: nat) -> Seq<u8>
    decreases n,
{
    if n == 0 {
        img
    } else {
        blur_pass(blur_passes(img, w, h, r, (n - 1) as nat), w, h, r)
    }
}

/// Whether [`apply_blur`] changes the buffer at all: the buffer must hold
/// exactly `width` × `height` RGBA pixels, the image must not be empty, and
/// radius and pass count must be positive.
pub open spec fn blur_applies(width: u32, height: u32, len: int, params: BlurParams) -> bool {
    &&& len == rgba_len(width as int, height as int)
    &&& width > 0
    &&& height > 0
    &&& params.radius > 0
    &&& params.iterations > 0
}

/// What [`apply_blur`] leaves in the buffer.
pub open spec fn blurred(width: u32, height: u32, img: Seq<u8>, params: BlurParams) -> Seq<u8> {
    if blur_applies(width, height, img.len() as int, params) {
        blur_passes(img, width as int, height as int, params.radius as int, params.iterations as nat)
    } else {
        img
    }
}

/// Sum of one channel over a window of the image, as [`box_sum`] has it.
fn window_sum(src: &Vec<u8>, w: usize, h: usize, y0: usize, y1: usize, x0: usize, x1: usize, c: usize) -> (r: u128)
    requires
        src@.len() == rgba_len(w as int, h as int),
        x0 <= x1 < w,
        y0 <= y1 < h,
        c < 4,
    ensures
        r == box_sum(src@, w as int, y0 as int, y1 + 1, x0 as int, x1 + 1, c as int),
        r <= 255 * ((x1 - x0 + 1) * (y1 - y0 + 1)),
{
    let n = src.len();
    let mut total: u128 = 0;
    let mut yy: usize = y0;
    while yy <= y1
        invariant
            src@.len() == rgba_len(w as int, h as int),
            n == src@.len(),
            x0 <= x1 < w,
            y0 <= yy <= y1 + 1,
            y1 < h,
            c < 4,
            total == box_sum(src@, w as int, y0 as int, yy as int, x0 as int, x1 + 1, c as int),
            total <= 255 * ((x1 - x0 + 1) * (yy - y0)),
        decreases y1 + 1 - yy,
    {
        let mut row: u128 = 0;
        let mut xx: usize = x0;
        while xx <= x1
            invariant
                src@.len() == rgba_len(w as int, h as int),
                n == src@.len(),
                x0 <= xx <= x1 + 1,
                x1 < w,
                y0 <= yy <= y1 < h,
                c < 4,
                row == row_sum(src@, w as int, yy as int, x0 as int, xx as int, c as int),
                row <= 255 * (xx - x0),
            decreases x1 + 1 - xx,
        {
            proof {
                lemma_byte_index(w as int, h as int, xx as int, yy as int, c as int);
                assert(yy * w <= yy * w + xx);
            }
            let idx = (yy * w + xx) * 4 + c;
            row = row + src[idx] as u128;
            xx = xx + 1;
        }
        proof {
            let k = (x1 - x0 + 1) as int;
            let m = (yy - y0) as int;
            assert(255 * (k * m) + 255 * k == 255 * (k * (m + 1))) by (nonlinear_arith);
            assert(k * (m + 1) <= w * h) by (nonlinear_arith)
                requires
                    0 <= k <= w,
                    0 <= m + 1 <= h,
            ;
            assert(w * h * 4 == n);
        }
        total = total + row;
        yy = yy + 1;
    }
    total
}


/// One box-blur pass from `src` into `dst`.
fn blur_once(src: &Vec<u8>, dst: &mut Vec<u8>, w: usize, h: usize, r: usize)
    requires
        src@.len() == rgba_len(w as int, h as int),
        old(dst)@.len() == src@.len(),
        w > 0,
        h > 0,
    ensures
        final(dst)@ == blur_pass(src@, w as int, h as int, r as int),
{
    let n = src.len();
    let mut y: usize = 0;
    while y < h
        invariant
            src@.len() == rgba_len(w as int, h as int),
            n == src@.len(),
            dst@.len() == n,
            w > 0,
            y <= h,
            forall|j: int|
                0 <= j < y * w * 4 ==> #[trigger] dst@[j] == blurred_byte(
                    src@,
                    w as int,
                    h as int,
                    r as int,
                    j,
                ),
        decreases h - y,
    {
        let y0: usize = if y >= r {
            y - r
        } else {
            0
        };
        let y1: usize = if r >= h - 1 - y {
            h - 1
        } else {
            y + r
        };
        let mut x: usize = 0;
        while x < w
            invariant
                src@.len() == rgba_len(w as int, h as int),
                n == src@.len(),
                dst@.len() == n,
                y < h,
                x <= w,
                y0 == window_start(y as int, r as int),
                y1 == window_end(y as int, r as int, h as int),
                forall|j: int|
                    0 <= j < (y * w + x) * 4 ==> #[trigger] dst@[j] == blurred_byte(
                        src@,
                        w as int,
                        h as int,
                        r as int,
                        j,
                    ),
            decreases w - x,
        {
            let x0: usize = if x >= r {
                x - r
            } else {
                0
            };
            let x1: usize = if r >= w - 1 - x {
                w - 1
            } else {
                x + r
            };
            let cols = (x1 - x0 + 1) as u128;
            let rows = (y1 - y0 + 1) as u128;
            proof {
                assert(cols * rows <= u128::MAX && cols * rows > 0) by (nonlinear_arith)
                    requires
                        0 < cols <= usize::MAX,
                        0 < rows <= usize::MAX,
                        usize::MAX < 0x1_0000_0000_0000_0000,
                ;
            }
            let count: u128 = cols * rows;
            proof {
                lemma_byte_index(w as int, h as int, x as int, y as int, 0);
                assert(w * h * 4 == n);
            }
            let out = (y * w + x) * 4;
            let mut c: usize = 0;
            while c < 4
                invariant
                    src@.len() == rgba_len(w as int, h as int),
                    n == src@.len(),
                    dst@.len() == n,
                    x < w,
                    y < h,
                    c <= 4,
                    out == (y * w + x) * 4,
                    out + 4 <= n,
                    x0 == window_start(x as int, r as int),
                    x1 == window_end(x as int, r as int, w as int),
                    y0 == window_start(y as int, r as int),
                    y1 == window_end(y as int, r as int, h as int),
                    count == (x1 - x0 + 1) * (y1 - y0 + 1),
                    count > 0,
                    forall|j: int|
                        0 <= j < out + c ==> #[trigger] dst@[j] == blurred_byte(
                            src@,
                            w as int,
                            h as int,
                            r as int,
                            j,
                        ),
                decreases 4 - c,
            {
                let sum = window_sum(src, w, h, y0, y1, x0, x1, c);
                proof {
                    lemma_byte_index(w as int, h as int, x as int, y as int, c as int);
                    assert(sum / count <= 255) by (nonlinear_arith)
                        requires
                            sum <= 255 * count,
                            count > 0,
                    ;
                }
                let v = (sum / count) as u8;
                dst.set(out + c, v);
                c = c + 1;
            }
            x = x + 1;
        }
        proof {
            assert((y * w + w) * 4 == (y + 1) * w * 4) by (nonlinear_arith);
        }
        y = y + 1;
    }
    proof {
        assert(h * w * 4 == n) by (nonlinear_arith)
            requires
                n == w * h * 4,
        ;
    }
    assert(dst@ =~= blur_pass(src@, w as int, h as int, r as int));
}

/// Applies box blur in place. Each channel (including alpha) is averaged.
///
/// Each pass replaces every byte by the mean, rounded down, of its channel
/// over the pixels at most `radius` rows and columns away that lie in the
/// image; `iterations` passes run one after another. The buffer is left as it
/// is unless it holds exactly `width` × `height` RGBA pixels, the image is not
/// empty, and radius and pass count are positive. Window sums are held in
/// 128 bits, so they are exact for every image that fits in memory.
pub fn apply_blur(width: u32, height: u32, rgba: &mut [u8], params: BlurParams)
    ensures
        final(rgba)@ == blurred(width, height, old(rgba)@, params),
{
    let w = width as usize;
    let h = height as usize;
    let len = rgba.len();
    let expected = match expected_len(width, height) {
        Some(n) => n,
        None => {
            return;
        },
    };
    if len != expected || w == 0 || h == 0 {
        return;
    }
    if params.radius == 0 || params.iterations == 0 {
        return;
    }
    let r = params.radius as usize;
    let ghost orig = rgba@;
    let mut src: Vec<u8> = vstd::slice::slice_to_vec(rgba);
    let mut dst: Vec<u8> = vec![0u8; expected];
    let mut k: u32 = 0;
    while k < params.iterations
        invariant
            orig.len() == rgba_len(w as int, h as int),
            src@.len() == orig.len(),
            dst@.len() == orig.len(),
            w > 0,
            h > 0,
            k <= params.iterations,
            src@ == blur_passes(orig, w as int, h as int, r as int, k as nat),
        decreases params.iterations - k,
    {
        blur_once(&src, &mut dst, w, h, r);
        std::mem::swap(&mut src, &mut dst);
        k = k + 1;
    }
    let mut i: usize = 0;
    while i < expected
        invariant
            rgba@.len() == expected,
            src@.len() == expected,
            i <= expected,
            forall|j: int| 0 <= j < i ==> rgba@[j] == src@[j],
        decreases expected - i,
    {
        rgba[i] = src[i];
        i = i + 1;
    }
    assert(rgba@ =~= src@);
}


/// A setting `k=v` written after a comma at the end of a parameter text is
/// applied after all the earlier ones: a `radius` or `iterations` key with a
/// valid number sets that field, anything else leaves the parameters as they
/// were.
pub proof fn lemma_blur_setting_appended(s: Seq<char>, k: Seq<char>, v: Seq<char>)
    requires
        no_separator(k),
        no_separator(v),
        !k.contains('='),
    ensures
        blur_params_of(s + seq![','] + k + seq!['='] + v) == apply_blur_setting(
            blur_params_of(s),
            (k, v),
        ),
{
    lemma_setting_appended(s, k, v);
    assert(settings(s).push((k, v)).drop_last() =~= settings(s));
}

/// Unknown keys are ignored: a setting with a key other than `radius` and
/// `iterations`, written after a comma at the end of a text, changes nothing.
pub proof fn lemma_blur_unknown_key_ignored(s: Seq<char>, k: Seq<char>, v: Seq<char>)
    requires
        no_separator(k),
        no_separator(v),
        !k.contains('='),
        k != "radius"@,
        k != "iterations"@,
    ensures
        blur_params_of(s + seq![','] + k + seq!['='] + v) == blur_params_of(s),
{
    lemma_blur_setting_appended(s, k, v);
}

/// Every pixel of `img` has the same colour: each byte equals the same
/// channel of the first pixel.
pub open spec fn is_uniform(img: Seq<u8>) -> bool {
    forall|k: int| 0 <= k < img.len() ==> #[trigger] img[k] == img[k % 4]
}

proof fn lemma_row_sum_uniform(img: Seq<u8>, w: int, h: int, y: int, x0: int, x_end: int, c: int)
    requires
        is_uniform(img),
        img.len() == rgba_len(w, h),
        0 <= y < h,
        0 <= x0 <= x_end <= w,
        0 <= c < 4,
    ensures
        row_sum(img, w, y, x0, x_end, c) == (x_end - x0) * img[c],
    decreases x_end - x0,
{
    if x_end > x0 {
        lemma_row_sum_uniform(img, w, h, y, x0, x_end - 1, c);
        lemma_byte_index(w, h, x_end - 1, y, c);
        let k = byte_index(w, x_end - 1, y, c);
        assert(img[k] == img[k % 4]);
        let v = img[c] as int;
        assert((x_end - 1 - x0) * v + v == (x_end - x0) * v) by (nonlinear_arith);
    } else {
        let v = img[c] as int;
        assert((x_end - x0) * v == 0) by (nonlinear_arith)
            requires
                x_end == x0,
        ;
    }
}

proof fn lemma_box_sum_uniform(img: Seq<u8>, w: int, h: int, y0: int, y_end: int, x0: int, x_end: int, c: int)
    requires
        is_uniform(img),
        img.len() == rgba_len(w, h),
        0 <= y0 <= y_end <= h,
        0 <= x0 <= x_end <= w,
        0 <= c < 4,
    ensures
        box_sum(img, w, y0, y_end, x0, x_end, c) == (y_end - y0) * ((x_end - x0) * img[c]),
    decreases y_end - y0,
{
    if y_end > y0 {
        lemma_box_sum_uniform(img, w, h, y0, y_end - 1, x0, x_end, c);
        lemma_row_sum_uniform(img, w, h, y_end - 1, x0, x_end, c);
        let q = (x_end - x0) * img[c];
        assert((y_end - 1 - y0) * q + q == (y_end - y0) * q) by (nonlinear_arith);
    } else {
        let q = (x_end - x0) * img[c];
        assert((y_end - y0) * q == 0) by (nonlinear_arith)
            requires
                y_end == y0,
        ;
    }
}

/// In an image of one colour, the mean over any window is that colour.
proof fn lemma_blurred_byte_uniform(img: Seq<u8>, w: int, h: int, r: int, i: int)
    requires
        is_uniform(img),
        img.len() == rgba_len(w, h),
        w > 0,
        h > 0,
        r >= 0,
        0 <= i < img.len(),
    ensures
        blurred_byte(img, w, h, r, i) == img[i],
{
    lemma_decode(w, h, i);
    let p = i / 4;
    let c = i % 4;
    let x = p % w;
    let y = p / w;
    let x0 = window_start(x, r);
    let x1 = window_end(x, r, w);
    let y0 = window_start(y, r);
    let y1 = window_end(y, r, h);
    lemma_box_sum_uniform(img, w, h, y0, y1 + 1, x0, x1 + 1, c);
    let a = y1 + 1 - y0;
    let b = x1 + 1 - x0;
    let v = img[c] as int;
    assert((a * (b * v)) / (b * a) == v) by (nonlinear_arith)
        requires
            a > 0,
            b > 0,
    ;
    assert(img[i] == img[i % 4]);
}

/// A blur pass leaves an image of one colour as it is.
proof fn lemma_blur_pass_uniform(img: Seq<u8>, w: int, h: int, r: int)
    requires
        is_uniform(img),
        img.len() == rgba_len(w, h),
        w > 0,
        h > 0,
        r >= 0,
    ensures
        blur_pass(img, w, h, r) == img,
{
    assert forall|i: int| 0 <= i < img.len() implies #[trigger] blur_pass(img, w, h, r)[i]
        == img[i] by {
        lemma_blurred_byte_uniform(img, w, h, r, i);
    }
    assert(blur_pass(img, w, h, r) =~= img);
}

/// Blurring an image of one colour leaves it as it is, whatever the radius
/// and the number of passes.
pub proof fn lemma_blur_keeps_uniform(width: u32, height: u32, img: Seq<u8>, params: BlurParams)
    requires
        is_uniform(img),
    ensures
        blurred(width, height, img, params) == img,
{
    if blur_applies(width, height, img.len() as int, params) {
        lemma_blur_passes_uniform(img, width as int, height as int, params.radius as int, params.iterations as nat);
    }
}

proof fn lemma_blur_passes_uniform(img: Seq<u8>, w: int, h: int, r: int, n: nat)
    requires
        is_uniform(img),
        img.len() == rgba_len(w, h),
        w > 0,
        h > 0,
        r >= 0,
    ensures
        blur_passes(img, w, h, r, n) == img,
    decreases n,
{
    if n > 0 {
        lemma_blur_passes_uniform(img, w, h, r, (n - 1) as nat);
        lemma_blur_pass_uniform(img, w, h, r);
    }
}


/// What the plugin does with a buffer and the parameter text it was handed:
/// reads the parameters and applies the filter to the buffer in place.
pub fn process_buffer(width: u32, height: u32, rgba: &mut [u8], params: &str)
    ensures
        final(rgba)@ == blurred(width, height, old(rgba)@, blur_params_of(params@)),
{
    let parsed = parse_params(params);
    apply_blur(width, height, rgba, parsed);
}


/// A `radius=v` setting at the end of a text sets `radius` to the number that
/// `v` spells (keeping it when `v` is no `u32`) and leaves `iterations` as it
/// was; an `iterations=v` setting likewise sets only `iterations`.
pub proof fn lemma_blur_keys_set_own_field(s: Seq<char>, v: Seq<char>)
    requires
        all_plain(v),
    ensures
        blur_params_of(s + seq![','] + "radius"@ + seq!['='] + v).iterations == blur_params_of(
            s,
        ).iterations,
        blur_params_of(s + seq![','] + "radius"@ + seq!['='] + v).radius == match parse_u32_spec(v) {
            Some(n) => n,
            None => blur_params_of(s).radius,
        },
        blur_params_of(s + seq![','] + "iterations"@ + seq!['='] + v).radius == blur_params_of(
            s,
        ).radius,
        blur_params_of(s + seq![','] + "iterations"@ + seq!['='] + v).iterations == match parse_u32_spec(
            v,
        ) {
            Some(n) => n,
            None => blur_params_of(s).iterations,
        },
{
    reveal_strlit("radius");
    reveal_strlit("iterations");
    let rk = "radius"@;
    let ik = "iterations"@;
    assert(rk != ik) by {
        assert(rk.len() != ik.len());
    }
    lemma_setting_after_separator(s, ',', rk, v);
    lemma_setting_after_separator(s, ',', ik, v);
    assert(settings(s).push((rk, v)).drop_last() =~= settings(s));
    assert(settings(s).push((ik, v)).drop_last() =~= settings(s));
}


/// One pass with radius `radius`: channel `c` of pixel `(x, y)` becomes the
/// floor of the mean of channel `c` over the pixels at most `radius` columns
/// and `radius` rows away that lie in the image.
pub proof fn lemma_blur_one_pass(width: u32, height: u32, img: Seq<u8>, radius: u32, x: int, y: int, c: int)
    requires
        img.len() == width * height * 4,
        width > 0,
        height > 0,
        radius > 0,
        0 <= x < width,
        0 <= y < height,
        0 <= c < 4,
    ensures
        ({
            let x0 = if x >= radius {
                x - radius
            } else {
                0
            };
            let x1 = if x + radius < width {
                x + radius
            } else {
                width - 1
            };
            let y0 = if y >= radius {
                y - radius
            } else {
                0
            };
            let y1 = if y + radius < height {
                y + radius
            } else {
                height - 1
            };
            blurred(width, height, img, BlurParams { radius, iterations: 1 })[(y * width + x) * 4 + c]
                == (box_sum(img, width as int, y0, y1 + 1, x0, x1 + 1, c) / ((x1 - x0 + 1) * (y1 - y0
                + 1))) as u8
        }),
{
    lemma_encode(width as int, height as int, x, y, c);
    let p = BlurParams { radius, iterations: 1 };
    assert(blur_passes(img, width as int, height as int, radius as int, 1) == blur_pass(
        blur_passes(img, width as int, height as int, radius as int, 0),
        width as int,
        height as int,
        radius as int,
    ));
}

proof fn lemma_row_sum_single(img: Seq<u8>, w: int, h: int, y: int, x0: int, x_end: int, c: int, px: int, py: int, c0: int)
    requires
        img.len() == rgba_len(w, h),
        0 <= px < w,
        0 <= py < h,
        0 <= c0 < 4,
        forall|k: int| 0 <= k < img.len() && k != byte_index(w, px, py, c0) ==> #[trigger] img[k] == 0,
        0 <= y < h,
        0 <= x0 <= x_end <= w,
        0 <= c < 4,
    ensures
        row_sum(img, w, y, x0, x_end, c) == if c == c0 && y == py && x0 <= px < x_end {
            img[byte_index(w, px, py, c0)] as int
        } else {
            0
        },
    decreases x_end - x0,
{
    if x_end > x0 {
        lemma_row_sum_single(img, w, h, y, x0, x_end - 1, c, px, py, c0);
        lemma_encode(w, h, x_end - 1, y, c);
        lemma_encode(w, h, px, py, c0);
    }
}

proof fn lemma_box_sum_single(img: Seq<u8>, w: int, h: int, y0: int, y_end: int, x0: int, x_end: int, c: int, px: int, py: int, c0: int)
    requires
        img.len() == rgba_len(w, h),
        0 <= px < w,
        0 <= py < h,
        0 <= c0 < 4,
        forall|k: int| 0 <= k < img.len() && k != byte_index(w, px, py, c0) ==> #[trigger] img[k] == 0,
        0 <= y0 <= y_end <= h,
        0 <= x0 <= x_end <= w,
        0 <= c < 4,
    ensures
        box_sum(img, w, y0, y_end, x0, x_end, c) == if c == c0 && y0 <= py < y_end && x0 <= px
            < x_end {
            img[byte_index(w, px, py, c0)] as int
        } else {
            0
        },
    decreases y_end - y0,
{
    if y_end > y0 {
        lemma_box_sum_single(img, w, h, y0, y_end - 1, x0, x_end, c, px, py, c0);
        lemma_row_sum_single(img, w, h, y_end - 1, x0, x_end, c, px, py, c0);
    }
}

/// One pass over an image whose only non-zero byte is channel `c0` of pixel
/// `(px, py)`, holding `v`: channel `c0` of every pixel at most `radius`
/// columns and rows from `(px, py)` becomes `v` divided (rounding down) by
/// the number of image pixels within `radius` of it; every other byte stays
/// zero. So the value reaches exactly the pixels within the radius.
pub proof fn lemma_blur_spreads_single_pixel(
    width: u32,
    height: u32,
    img: Seq<u8>,
    radius: u32,
    px: int,
    py: int,
    c0: int,
    x: int,
    y: int,
    c: int,
)
    requires
        img.len() == width * height * 4,
        width > 0,
        height > 0,
        radius > 0,
        0 <= px < width,
        0 <= py < height,
        0 <= c0 < 4,
        forall|k: int| 0 <= k < img.len() && k != (py * width + px) * 4 + c0 ==> #[trigger] img[k] == 0,
        0 <= x < width,
        0 <= y < height,
        0 <= c < 4,
    ensures
        ({
            let cols = (if x + radius < width {
                x + radius
            } else {
                width - 1
            }) - (if x >= radius {
                x - radius
            } else {
                0
            }) + 1;
            let rows = (if y + radius < height {
                y + radius
            } else {
                height - 1
            }) - (if y >= radius {
                y - radius
            } else {
                0
            }) + 1;
            let near = x - radius <= px <= x + radius && y - radius <= py <= y + radius;
            blurred(width, height, img, BlurParams { radius, iterations: 1 })[(y * width + x) * 4 + c]
                == if c == c0 && near {
                ((img[(py * width + px) * 4 + c0] as int) / (cols * rows)) as u8
            } else {
                0u8
            }
        }),
{
    let w = width as int;
    let h = height as int;
    let r = radius as int;
    lemma_blur_one_pass(width, height, img, radius, x, y, c);
    let x0 = if x >= r {
        x - r
    } else {
        0
    };
    let x1 = if x + r < w {
        x + r
    } else {
        w - 1
    };
    let y0 = if y >= r {
        y - r
    } else {
        0
    };
    let y1 = if y + r < h {
        y + r
    } else {
        h - 1
    };
    lemma_box_sum_single(img, w, h, y0, y1 + 1, x0, x1 + 1, c, px, py, c0);
    let cnt = (x1 - x0 + 1) * (y1 - y0 + 1);
    assert(cnt > 0) by (nonlinear_arith)
        requires
            cnt == (x1 - x0 + 1) * (y1 - y0 + 1),
            x1 - x0 + 1 > 0,
            y1 - y0 + 1 > 0,
    ;
    assert(0int / cnt == 0) by (nonlinear_arith)
        requires
            cnt > 0,
    ;
    let v = img[byte_index(w, px, py, c0)] as int;
    assert(0 <= v / cnt <= v) by (nonlinear_arith)
        requires
            cnt > 0,
            0 <= v,
    ;
}

/// `n + 1` passes are one more pass over the result of `n` passes.
pub proof fn lemma_blur_passes_compose(width: u32, height: u32, img: Seq<u8>, radius: u32, n: u32)
    requires
        img.len() == width * height * 4,
        width > 0,
        height > 0,
        radius > 0,
        0 < n < u32::MAX,
    ensures
        blurred(width, height, img, BlurParams { radius, iterations: (n + 1) as u32 }) == blurred(
            width,
            height,
            blurred(width, height, img, BlurParams { radius, iterations: n }),
            BlurParams { radius, iterations: 1 },
        ),
{
    let w = width as int;
    let h = height as int;
    let r = radius as int;
    let mid = blur_passes(img, w, h, r, n as nat);
    lemma_blur_passes_len(img, w, h, r, n as nat);
    assert(blur_passes(mid, w, h, r, 1) == blur_pass(blur_passes(mid, w, h, r, 0), w, h, r));
}

proof fn lemma_blur_passes_len(img: Seq<u8>, w: int, h: int, r: int, n: nat)
    ensures
        blur_passes(img, w, h, r, n).len() == img.len(),
    decreases n,
{
    if n > 0 {
        lemma_blur_passes_len(img, w, h, r, (n - 1) as nat);
    }
}

/// The buffer is left as it is when it is not exactly `width` × `height`
/// RGBA pixels, when the image is empty, and when radius or pass count is 0.
pub proof fn lemma_blur_other_inputs_unchanged(width: u32, height: u32, img: Seq<u8>, params: BlurParams)
    requires
        img.len() != width * height * 4 || width == 0 || height == 0 || params.radius == 0
            || params.iterations == 0,
    ensures
        blurred(width, height, img, params) == img,
{
}

} // verus!
