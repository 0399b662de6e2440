//! Horizontal and/or vertical flip of RGBA buffers, and the mirror plugin's
//! parameters.

use vstd::prelude::*;
use crate::params::{
    settings, settings_from_text, is_word, Setting, no_separator, lemma_setting_appended,
    all_plain, lemma_setting_after_separator,
};
use crate::raster::{
    expected_len, rgba_len, byte_index, pixel_x, pixel_y, channel, lemma_byte_index, lemma_decode,
    lemma_encode,
};

verus! {

/// Parsed mirror parameters. Missing or invalid keys keep defaults (`false`).
#[derive(Debug, Clone, Copy, PartialEq, Eq, Structural)]
pub struct MirrorParams {
    pub horizontal: bool,
    pub vertical: bool,
}

/// The parameters that a text without valid settings gives: no flip.
pub open spec fn default_mirror_params() -> MirrorParams {
    MirrorParams { horizontal: false, vertical: false }
}

impl Default for MirrorParams {
    fn default() -> (r: Self)
        ensures
            r == default_mirror_params(),
    {
        MirrorParams { horizontal: false, vertical: false }
    }
}

/// `c` with ASCII upper-case letters mapped to lower case.
pub open spec fn ascii_lower(c: char) -> char {
    if 'A' <= c && c <= 'Z' {
        ((c as int) + 32) as char
    } else {
        c
    }
}

/// `s` with ASCII upper-case letters mapped to lower case, as
/// `str::to_ascii_lowercase` does.
pub open spec fn ascii_lowercase(s: Seq<char>) -> Seq<char> {
    Seq::new(s.len(), |i: int| ascii_lower(s[i]))
}

/// A boolean value: `true`, `1`, `yes` or `false`, `0`, `no`, in any ASCII case.
pub open spec fn bool_value(s: Seq<char>) -> Option<bool> {
    let l = ascii_lowercase(s);
    if l == "true"@ || l == "1"@ || l == "yes"@ {
        Some(true)
    } else if l == "false"@ || l == "0"@ || l == "no"@ {
        Some(false)
    } else {
        None
    }
}

/// One setting applied to the parameters: a `horizontal` or `vertical` key
/// with a valid boolean value replaces that field; anything else is ignored.
pub open spec fn apply_mirror_setting(p: MirrorParams, kv: (Seq<char>, Seq<char>)) -> MirrorParams {
    if kv.0 == "horizontal"@ {
        match bool_value(kv.1) {
            Some(v) => MirrorParams { horizontal: v, ..p },
            None => p,
        }
    } else if kv.0 == "vertical"@ {
        match bool_value(kv.1) {
            Some(v) => MirrorParams { vertical: v, ..p },
            None => p,
        }
    } else {
        p
    }
}

/// The settings applied in order, each later one overriding earlier ones.
pub open spec fn apply_mirror_settings(p: MirrorParams, kvs: Seq<(Seq<char>, Seq<char>)>) -> MirrorParams
    decreases kvs.len(),
{
    if kvs.len() == 0 {
        p
    } else {
        apply_mirror_setting(apply_mirror_settings(p, kvs.drop_last()), kvs.last())
    }
}

/// The mirror parameters that a parameter text describes.
pub open spec fn mirror_params_of(s: Seq<char>) -> MirrorParams {
    apply_mirror_settings(default_mirror_params(), settings(s))
}

fn to_ascii_lower(c: char) -> (r: char)
    ensures
        r == ascii_lower(c),
{
    if 'A' <= c && c <= 'Z' {
        ((c as u8) + 32) as char
    } else {
        c
    }
}

/// Reads a boolean value as [`bool_value`] describes.
fn parse_bool(value: &Vec<char>) -> (r: Option<bool>)
    ensures
        r == bool_value(value@),
{
    let mut lower: Vec<char> = Vec::new();
    let mut i: usize = 0;
    while i < value.len()
        invariant
            i <= value@.len(),
            lower@ == ascii_lowercase(value@.take(i as int)),
        decreases value@.len() - i,
    {
        lower.push(to_ascii_lower(value[i]));
        i = i + 1;
        assert(lower@ =~= ascii_lowercase(value@.take(i as int)));
    }
    assert(value@.take(value@.len() as int) =~= value@);
    if is_word(&lower, "true") || is_word(&lower, "1") || is_word(&lower, "yes") {
        Some(true)
    } else if is_word(&lower, "false") || is_word(&lower, "0") || is_word(&lower, "no") {
        Some(false)
    } else {
        None
    }
}

fn apply_setting(p: MirrorParams, st: &Setting) -> (r: MirrorParams)
    ensures
        r == apply_mirror_setting(p, st@),
{
    if is_word(&st.key, "horizontal") {
        match parse_bool(&st.value) {
            Some(v) => MirrorParams { horizontal: v, ..p },
            None => p,
        }
    } else if is_word(&st.key, "vertical") {
        match parse_bool(&st.value) {
            Some(v) => MirrorParams { vertical: v, ..p },
            None => p,
        }
    } else {
        p
    }
}

/// Parses `key=value` pairs separated by commas and/or white space.
///
/// Unknown keys are ignored. Invalid boolean values leave the field as it was.
pub fn parse_params(input: &str) -> (r: MirrorParams)
    ensures
        r == mirror_params_of(input@),
{
    let list = settings_from_text(input);
    let ghost kvs = settings(input@);
    let mut params = MirrorParams::default();
    let mut i: usize = 0;
    while i < list.len()
        invariant
            list@.len() == kvs.len(),
            forall|k: int| 0 <= k < list@.len() ==> #[trigger] list@[k]@ == kvs[k],
            i <= list@.len(),
            params == apply_mirror_settings(default_mirror_params(), kvs.take(i as int)),
        decreases list@.len() - i,
    {
        assert(kvs.take(i + 1).drop_last() =~= kvs.take(i as int));
        params = apply_setting(params, &list[i]);
        i = i + 1;
    }
    assert(kvs.take(list@.len() as int) =~= kvs);
    params
}


/// Whether [`apply_mirror`] touches the buffer: it must hold exactly
/// `width` × `height` RGBA pixels of a non-empty image.
pub open spec fn mirror_applies(width: u32, height: u32, len: int) -> bool {
    &&& len == rgba_len(width as int, height as int)
    &&& width > 0
    &&& height > 0
}

/// The byte that ends up at index `k` of a mirrored `w` × `h` image: the same
/// channel of the pixel in the mirrored column (when flipping horizontally)
/// and the mirrored row (when flipping vertically).
pub open spec fn mirror_source(w: int, h: int, p: MirrorParams, k: int) -> int {
    let x = pixel_x(w, k);
    let y = pixel_y(w, k);
    byte_index(
        w,
        if p.horizontal {
            w - 1 - x
        } else {
            x
        },
        if p.vertical {
            h - 1 - y
        } else {
            y
        },
        channel(k),
    )
}

/// What [`apply_mirror`] leaves in the buffer.
pub open spec fn mirrored(width: u32, height: u32, img: Seq<u8>, p: MirrorParams) -> Seq<u8> {
    if mirror_applies(width, height, img.len() as int) {
        Seq::new(img.len(), |k: int| img[mirror_source(width as int, height as int, p, k)])
    } else {
        img
    }
}

/// `s` with the `n` bytes at `a` and the `n` bytes at `b` exchanged.
pub open spec fn exchanged(s: Seq<u8>, a: int, b: int, n: int) -> Seq<u8> {
    Seq::new(
        s.len(),
        |k: int|
            if a <= k < a + n {
                s[b + (k - a)]
            } else if b <= k < b + n {
                s[a + (k - b)]
            } else {
                s[k]
            },
    )
}

/// Exchanges the `n` bytes at `a` with the `n` bytes at `b`, byte by byte.
fn swap_ranges(buf: &mut [u8], a: usize, b: usize, n: usize)
    requires
        a + n <= b,
        b + n <= old(buf)@.len(),
    ensures
        final(buf)@ == exchanged(old(buf)@, a as int, b as int, n as int),
{
    let ghost orig = buf@;
    let mut i: usize = 0;
    assert(buf@ =~= exchanged(orig, a as int, b as int, 0));
    while i < n
        invariant
            a + n <= b,
            b + n <= orig.len(),
            i <= n,
            buf@ == exchanged(orig, a as int, b as int, i as int),
        decreases n - i,
    {
        let t = buf[a + i];
        buf[a + i] = buf[b + i];
        buf[b + i] = t;
        i = i + 1;
        assert(buf@ =~= exchanged(orig, a as int, b as int, i as int));
    }
}

/// A `w` × `h` image with every row reversed.
pub open spec fn flipped_horizontally(img: Seq<u8>, w: int) -> Seq<u8> {
    Seq::new(img.len(), |k: int| img[byte_index(w, w - 1 - pixel_x(w, k), pixel_y(w, k), channel(k))])
}

/// A `w` × `h` image with the order of its rows reversed.
pub open spec fn flipped_vertically(img: Seq<u8>, w: int, h: int) -> Seq<u8> {
    Seq::new(img.len(), |k: int| img[byte_index(w, pixel_x(w, k), h - 1 - pixel_y(w, k), channel(k))])
}

/// The buffer part-way through a horizontal flip: rows before `y`, and the
/// first and last `x` pixels of row `y`, are reversed.
spec fn row_flip_state(img: Seq<u8>, w: int, y: int, x: int) -> Seq<u8> {
    Seq::new(
        img.len(),
        |k: int|
            {
                let kx = pixel_x(w, k);
                let ky = pixel_y(w, k);
                if ky < y || (ky == y && (kx < x || kx >= w - x)) {
                    img[byte_index(w, w - 1 - kx, ky, channel(k))]
                } else {
                    img[k]
                }
            },
    )
}

fn flip_horizontally(buf: &mut [u8], w: usize, h: usize)
    requires
        old(buf)@.len() == rgba_len(w as int, h as int),
        w > 0,
        h > 0,
    ensures
        final(buf)@ == flipped_horizontally(old(buf)@, w as int),
{
    let ghost orig = buf@;
    let n = buf.len();
    let mut y: usize = 0;
    assert(buf@ =~= row_flip_state(orig, w as int, 0, 0)) by {
        assert forall|k: int| 0 <= k < n implies pixel_y(w as int, k) >= 0 by {
            lemma_decode(w as int, h as int, k);
        }
    }
    while y < h
        invariant
            n == orig.len() == rgba_len(w as int, h as int),
            w > 0,
            y <= h,
            buf@ == row_flip_state(orig, w as int, y as int, 0),
        decreases h - y,
    {
        let mut x: usize = 0;
        while x < w / 2
            invariant
                n == orig.len() == rgba_len(w as int, h as int),
                w > 0,
                y < h,
                x <= w / 2,
                buf@ == row_flip_state(orig, w as int, y as int, x as int),
            decreases w / 2 - x,
        {
            proof {
                lemma_byte_index(w as int, h as int, x as int, y as int, 0);
                lemma_byte_index(w as int, h as int, (w - 1 - x) as int, y as int, 0);
            }
            let left = (y * w + x) * 4;
            let right = (y * w + (w - 1 - x)) * 4;
            swap_ranges(buf, left, right, 4);
            proof {
                let next = row_flip_state(orig, w as int, y as int, x + 1);
                assert forall|k: int| 0 <= k < n implies #[trigger] buf@[k] == next[k] by {
                    lemma_decode(w as int, h as int, k);
                    let kx = pixel_x(w as int, k);
                    let ky = pixel_y(w as int, k);
                    let c = channel(k);
                    if left <= k < left + 4 {
                        lemma_encode(w as int, h as int, (w - 1 - x) as int, y as int, c);
                        lemma_encode(w as int, h as int, x as int, y as int, c);
                    } else if right <= k < right + 4 {
                        lemma_encode(w as int, h as int, x as int, y as int, c);
                        lemma_encode(w as int, h as int, (w - 1 - x) as int, y as int, c);
                    } else {
                        if ky == y && kx == x {
                            lemma_encode(w as int, h as int, x as int, y as int, c);
                        }
                        if ky == y && kx == w - 1 - x {
                            lemma_encode(w as int, h as int, (w - 1 - x) as int, y as int, c);
                        }
                    }
                }
                assert(buf@ =~= next);
            }
            x = x + 1;
        }
        proof {
            let next = row_flip_state(orig, w as int, y + 1, 0);
            assert forall|k: int| 0 <= k < n implies #[trigger] buf@[k] == next[k] by {
                lemma_decode(w as int, h as int, k);
                let kx = pixel_x(w as int, k);
                let ky = pixel_y(w as int, k);
                if ky == y && !(kx < x || kx >= w - x) {
                    assert(kx == w - 1 - kx);
                    lemma_encode(w as int, h as int, kx, ky, channel(k));
                }
            }
            assert(buf@ =~= next);
        }
        y = y + 1;
    }
    proof {
        assert forall|k: int| 0 <= k < n implies #[trigger] buf@[k] == flipped_horizontally(
            orig,
            w as int,
        )[k] by {
            lemma_decode(w as int, h as int, k);
        }
        assert(buf@ =~= flipped_horizontally(orig, w as int));
    }
}


/// The buffer part-way through a vertical flip: the first and last `y` rows
/// are exchanged.
spec fn col_flip_state(img: Seq<u8>, w: int, h: int, y: int) -> Seq<u8> {
    Seq::new(
        img.len(),
        |k: int|
            {
                let ky = pixel_y(w, k);
                if ky < y || ky >= h - y {
                    img[byte_index(w, pixel_x(w, k), h - 1 - ky, channel(k))]
                } else {
                    img[k]
                }
            },
    )
}

/// The bytes of row `y` are those from `y * w * 4` on, `w * 4` of them.
proof fn lemma_row_bytes(w: int, h: int, k: int, y: int)
    requires
        w > 0,
        h > 0,
        0 <= k < rgba_len(w, h),
        0 <= y < h,
    ensures
        (y * w * 4 <= k < y * w * 4 + w * 4) == (pixel_y(w, k) == y),
{
    lemma_decode(w, h, k);
    let kx = pixel_x(w, k);
    let ky = pixel_y(w, k);
    let c = channel(k);
    assert((y * w * 4 <= (ky * w + kx) * 4 + c < y * w * 4 + w * 4) == (ky == y)) by (nonlinear_arith)
        requires
            0 <= kx < w,
            0 <= c < 4,
            0 <= ky,
            0 <= y,
    ;
}

fn flip_vertically(buf: &mut [u8], w: usize, h: usize)
    requires
        old(buf)@.len() == rgba_len(w as int, h as int),
        w > 0,
        h > 0,
    ensures
        final(buf)@ == flipped_vertically(old(buf)@, w as int, h as int),
{
    let ghost orig = buf@;
    let n = buf.len();
    proof {
        assert(w * 4 <= w * h * 4) by (nonlinear_arith)
            requires
                w > 0,
                h > 0,
        ;
    }
    let row_bytes = w * 4;
    let mut y: usize = 0;
    assert(buf@ =~= col_flip_state(orig, w as int, h as int, 0)) by {
        assert forall|k: int| 0 <= k < n implies 0 <= #[trigger] pixel_y(w as int, k) < h by {
            lemma_decode(w as int, h as int, k);
        }
    }
    while y < h / 2
        invariant
            n == orig.len() == rgba_len(w as int, h as int),
            row_bytes == w * 4,
            w > 0,
            h > 0,
            y <= h / 2,
            buf@ == col_flip_state(orig, w as int, h as int, y as int),
        decreases h / 2 - y,
    {
        proof {
            lemma_byte_index(w as int, h as int, 0, y as int, 0);
            lemma_byte_index(w as int, h as int, 0, (h - 1 - y) as int, 0);
            assert(((h - 1 - y) * w) * 4 + w * 4 <= n) by (nonlinear_arith)
                requires
                    n == w * h * 4,
                    0 <= y < h,
                    w > 0,
            ;
            assert(y * w * 4 + w * 4 <= (h - 1 - y) * w * 4) by (nonlinear_arith)
                requires
                    y + 1 <= h - 1 - y,
                    w > 0,
            ;
        }
        let top = y * w * 4;
        let bottom = (h - 1 - y) * w * 4;
        swap_ranges(buf, top, bottom, row_bytes);
        proof {
            let next = col_flip_state(orig, w as int, h as int, y + 1);
            assert forall|k: int| 0 <= k < n implies #[trigger] buf@[k] == next[k] by {
                lemma_decode(w as int, h as int, k);
                lemma_row_bytes(w as int, h as int, k, y as int);
                lemma_row_bytes(w as int, h as int, k, (h - 1 - y) as int);
                let kx = pixel_x(w as int, k);
                let ky = pixel_y(w as int, k);
                let c = channel(k);
                if ky == y {
                    lemma_encode(w as int, h as int, kx, (h - 1 - y) as int, c);
                    assert(bottom + (k - top) == byte_index(w as int, kx, (h - 1 - y) as int, c));
                    lemma_row_bytes(
                        w as int,
                        h as int,
                        byte_index(w as int, kx, (h - 1 - y) as int, c),
                        (h - 1 - y) as int,
                    );
                } else if ky == h - 1 - y {
                    lemma_encode(w as int, h as int, kx, y as int, c);
                    assert(top + (k - bottom) == byte_index(w as int, kx, y as int, c));
                }
            }
            assert(buf@ =~= next);
        }
        y = y + 1;
    }
    proof {
        let target = flipped_vertically(orig, w as int, h as int);
        assert forall|k: int| 0 <= k < n implies #[trigger] buf@[k] == target[k] by {
            lemma_decode(w as int, h as int, k);
            let ky = pixel_y(w as int, k);
            if !(ky < y || ky >= h - y) {
                assert(ky == h - 1 - ky);
            }
        }
        assert(buf@ =~= target);
    }
}

/// Mirrors the RGBA buffer in place according to `params`: with
/// `horizontal` every row is reversed, with `vertical` the order of the rows
/// is reversed. The buffer is left as it is unless it holds exactly
/// `width` × `height` RGBA pixels of a non-empty image.
pub fn apply_mirror(width: u32, height: u32, rgba: &mut [u8], params: MirrorParams)
    ensures
        final(rgba)@ == mirrored(width, height, old(rgba)@, params),
{
    let w = width as usize;
    let h = height as usize;
    let len = rgba.len();
    let expected = match expected_len(width, height) {
        Some(n) => n,
        None => {
            return;
        },
    };
    if len != expected || w == 0 || h == 0 {
        return;
    }
    let ghost orig = rgba@;
    if params.horizontal {
        flip_horizontally(rgba, w, h);
    }
    if params.vertical {
        flip_vertically(rgba, w, h);
    }
    proof {
        let target = mirrored(width, height, orig, params);
        assert forall|k: int| 0 <= k < len implies #[trigger] rgba@[k] == target[k] by {
            lemma_decode(w as int, h as int, k);
            let kx = pixel_x(w as int, k);
            let ky = pixel_y(w as int, k);
            let c = channel(k);
            if params.vertical {
                lemma_encode(w as int, h as int, kx, (h - 1 - ky) as int, c);
            }
            if params.horizontal {
                let j = if params.vertical {
                    byte_index(w as int, kx, (h - 1 - ky) as int, c)
                } else {
                    k
                };
                lemma_decode(w as int, h as int, j);
            }
        }
        assert(rgba@ =~= target);
    }
}


/// A setting `k=v` written after a comma at the end of a parameter text is
/// applied after all the earlier ones: a `horizontal` or `vertical` key with a
/// valid boolean sets that field, anything else leaves the parameters as they
/// were.
pub proof fn lemma_mirror_setting_appended(s: Seq<char>, k: Seq<char>, v: Seq<char>)
    requires
        no_separator(k),
        no_separator(v),
        !k.contains('='),
    ensures
        mirror_params_of(s + seq![','] + k + seq!['='] + v) == apply_mirror_setting(
            mirror_params_of(s),
            (k, v),
        ),
{
    lemma_setting_appended(s, k, v);
    assert(settings(s).push((k, v)).drop_last() =~= settings(s));
}

/// Unknown keys are ignored: a setting with a key other than `horizontal` and
/// `vertical`, written after a comma at the end of a text, changes nothing.
pub proof fn lemma_mirror_unknown_key_ignored(s: Seq<char>, k: Seq<char>, v: Seq<char>)
    requires
        no_separator(k),
        no_separator(v),
        !k.contains('='),
        k != "horizontal"@,
        k != "vertical"@,
    ensures
        mirror_params_of(s + seq![','] + k + seq!['='] + v) == mirror_params_of(s),
{
    lemma_mirror_setting_appended(s, k, v);
}

/// Mirroring twice with the same parameters gives back the original buffer.
pub proof fn lemma_mirror_twice(width: u32, height: u32, img: Seq<u8>, p: MirrorParams)
    ensures
        mirrored(width, height, mirrored(width, height, img, p), p) == img,
{
    if mirror_applies(width, height, img.len() as int) {
        let w = width as int;
        let h = height as int;
        let once = mirrored(width, height, img, p);
        let twice = mirrored(width, height, once, p);
        assert forall|k: int| 0 <= k < img.len() implies #[trigger] twice[k] == img[k] by {
            lemma_decode(w, h, k);
            let j = mirror_source(w, h, p, k);
            let x = pixel_x(w, k);
            let y = pixel_y(w, k);
            let jx = if p.horizontal {
                w - 1 - x
            } else {
                x
            };
            let jy = if p.vertical {
                h - 1 - y
            } else {
                y
            };
            lemma_encode(w, h, jx, jy, channel(k));
        }
        assert(twice =~= img);
    }
}

/// Mirroring horizontally and then vertically, or vertically and then
/// horizontally, is mirroring both ways at once.
pub proof fn lemma_mirror_compose(width: u32, height: u32, img: Seq<u8>)
    ensures
        mirrored(
            width,
            height,
            mirrored(width, height, img, MirrorParams { horizontal: true, vertical: false }),
            MirrorParams { horizontal: false, vertical: true },
        ) == mirrored(width, height, img, MirrorParams { horizontal: true, vertical: true }),
        mirrored(
            width,
            height,
            mirrored(width, height, img, MirrorParams { horizontal: false, vertical: true }),
            MirrorParams { horizontal: true, vertical: false },
        ) == mirrored(width, height, img, MirrorParams { horizontal: true, vertical: true }),
{
    let hp = MirrorParams { horizontal: true, vertical: false };
    let vp = MirrorParams { horizontal: false, vertical: true };
    let bp = MirrorParams { horizontal: true, vertical: true };
    if mirror_applies(width, height, img.len() as int) {
        let w = width as int;
        let h = height as int;
        let hv = mirrored(width, height, mirrored(width, height, img, hp), vp);
        let vh = mirrored(width, height, mirrored(width, height, img, vp), hp);
        let both = mirrored(width, height, img, bp);
        assert forall|k: int| 0 <= k < img.len() implies #[trigger] hv[k] == both[k] && vh[k]
            == both[k] by {
            lemma_decode(w, h, k);
            let x = pixel_x(w, k);
            let y = pixel_y(w, k);
            let c = channel(k);
            lemma_encode(w, h, x, h - 1 - y, c);
            lemma_encode(w, h, w - 1 - x, y, c);
        }
        assert(hv =~= both);
        assert(vh =~= both);
    }
}


/// What the plugin does with a buffer and the parameter text it was handed:
/// reads the parameters and applies the filter to the buffer in place.
pub fn process_buffer(width: u32, height: u32, rgba: &mut [u8], params: &str)
    ensures
        final(rgba)@ == mirrored(width, height, old(rgba)@, mirror_params_of(params@)),
{
    let parsed = parse_params(params);
    apply_mirror(width, height, rgba, parsed);
}


/// A `horizontal=v` setting at the end of a text sets `horizontal` to the
/// boolean that `v` spells (keeping it when `v` spells none) and leaves
/// `vertical` as it was; a `vertical=v` setting likewise sets only
/// `vertical`.
pub proof fn lemma_mirror_keys_set_own_field(s: Seq<char>, v: Seq<char>)
    requires
        all_plain(v),
    ensures
        mirror_params_of(s + seq![','] + "horizontal"@ + seq!['='] + v).vertical == mirror_params_of(
            s,
        ).vertical,
        mirror_params_of(s + seq![','] + "horizontal"@ + seq!['='] + v).horizontal == match bool_value(
            v,
        ) {
            Some(b) => b,
            None => mirror_params_of(s).horizontal,
        },
        mirror_params_of(s + seq![','] + "vertical"@ + seq!['='] + v).horizontal == mirror_params_of(
            s,
        ).horizontal,
        mirror_params_of(s + seq![','] + "vertical"@ + seq!['='] + v).vertical == match bool_value(
            v,
        ) {
            Some(b) => b,
            None => mirror_params_of(s).vertical,
        },
{
    reveal_strlit("horizontal");
    reveal_strlit("vertical");
    let hk = "horizontal"@;
    let vk = "vertical"@;
    assert(hk != vk) by {
        assert(hk.len() != vk.len());
    }
    lemma_setting_after_separator(s, ',', hk, v);
    lemma_setting_after_separator(s, ',', vk, v);
    assert(settings(s).push((hk, v)).drop_last() =~= settings(s));
    assert(settings(s).push((vk, v)).drop_last() =~= settings(s));
}


/// Where each byte of a mirrored image comes from: channel `c` of pixel
/// `(x, y)` after mirroring is channel `c` of pixel `(w - 1 - x, y)` when
/// flipping horizontally, of pixel `(x, h - 1 - y)` when flipping
/// vertically, of pixel `(w - 1 - x, h - 1 - y)` when flipping both ways, and
/// of pixel `(x, y)` itself when flipping neither way. Every row and every
/// column moves, the inner ones too.
pub proof fn lemma_mirror_moves_pixels(
    width: u32,
    height: u32,
    img: Seq<u8>,
    p: MirrorParams,
    x: int,
    y: int,
    c: int,
)
    requires
        img.len() == width * height * 4,
        width > 0,
        height > 0,
        0 <= x < width,
        0 <= y < height,
        0 <= c < 4,
    ensures
        mirrored(width, height, img, p).len() == img.len(),
        mirrored(width, height, img, p)[(y * width + x) * 4 + c] == img[((if p.vertical {
            height - 1 - y
        } else {
            y
        }) * width + (if p.horizontal {
            width - 1 - x
        } else {
            x
        })) * 4 + c],
{
    lemma_encode(width as int, height as int, x, y, c);
}

/// A buffer that is not exactly `width` × `height` RGBA pixels of a
/// non-empty image comes back unchanged.
pub proof fn lemma_mirror_other_buffers_unchanged(width: u32, height: u32, img: Seq<u8>, p: MirrorParams)
    requires
        img.len() != width * height * 4 || width == 0 || height == 0,
    ensures
        mirrored(width, height, img, p) == img,
{
}


/// Boolean values are read without regard to ASCII case.
pub proof fn lemma_bool_value_ignores_case(v: Seq<char>)
    ensures
        bool_value(v) == bool_value(ascii_lowercase(v)),
{
    assert(ascii_lowercase(ascii_lowercase(v)) =~= ascii_lowercase(v));
}

} // verus!
