use image_processor::mirror::{apply_mirror, parse_params, process_buffer, MirrorParams};

#[test]
fn lib_parse_valid_params() {
    let p = parse_params("horizontal=true,vertical=false");
    assert_eq!(
        p,
        MirrorParams {
            horizontal: true,
            vertical: false
        }
    );
}

#[test]
fn lib_parse_empty_uses_defaults() {
    assert_eq!(parse_params(""), MirrorParams::default());
    assert_eq!(parse_params("   "), MirrorParams::default());
}

#[test]
fn lib_parse_unknown_keys_ignored() {
    let p = parse_params("horizontal=true,foo=bar,vertical=true");
    assert_eq!(
        p,
        MirrorParams {
            horizontal: true,
            vertical: true
        }
    );
}

#[test]
fn parse_invalid_bool_keeps_default() {
    let p = parse_params("horizontal=maybe,vertical=nope");
    assert_eq!(p, MirrorParams::default());
}

fn pixel(r: u8, g: u8, b: u8, a: u8) -> [u8; 4] {
    [r, g, b, a]
}

/// 2×2 layout: A B / C D  as flat RGBA.
fn buffer_2x2() -> Vec<u8> {
    let mut buf = Vec::with_capacity(16);
    buf.extend_from_slice(&pixel(1, 0, 0, 255)); // A
    buf.extend_from_slice(&pixel(2, 0, 0, 255)); // B
    buf.extend_from_slice(&pixel(3, 0, 0, 255)); // C
    buf.extend_from_slice(&pixel(4, 0, 0, 255)); // D
    buf
}

#[test]
fn mirror_horizontal_2x2() {
    let mut buf = buffer_2x2();
    apply_mirror(
        2,
        2,
        &mut buf,
        MirrorParams {
            horizontal: true,
            vertical: false,
        },
    );
    // B A / D C
    let mut expected = Vec::new();
    expected.extend_from_slice(&pixel(2, 0, 0, 255));
    expected.extend_from_slice(&pixel(1, 0, 0, 255));
    expected.extend_from_slice(&pixel(4, 0, 0, 255));
    expected.extend_from_slice(&pixel(3, 0, 0, 255));
    assert_eq!(buf, expected);
}

#[test]
fn mirror_vertical_2x2() {
    let mut buf = buffer_2x2();
    apply_mirror(
        2,
        2,
        &mut buf,
        MirrorParams {
            horizontal: false,
            vertical: true,
        },
    );
    // C D / A B
    let mut expected = Vec::new();
    expected.extend_from_slice(&pixel(3, 0, 0, 255));
    expected.extend_from_slice(&pixel(4, 0, 0, 255));
    expected.extend_from_slice(&pixel(1, 0, 0, 255));
    expected.extend_from_slice(&pixel(2, 0, 0, 255));
    assert_eq!(buf, expected);
}

#[test]
fn mirror_both_2x2() {
    let mut buf = buffer_2x2();
    apply_mirror(
        2,
        2,
        &mut buf,
        MirrorParams {
            horizontal: true,
            vertical: true,
        },
    );
    // D C / B A
    let mut expected = Vec::new();
    expected.extend_from_slice(&pixel(4, 0, 0, 255));
    expected.extend_from_slice(&pixel(3, 0, 0, 255));
    expected.extend_from_slice(&pixel(2, 0, 0, 255));
    expected.extend_from_slice(&pixel(1, 0, 0, 255));
    assert_eq!(buf, expected);
}

#[test]
fn default_is_no_flip() {
    assert_eq!(
        MirrorParams::default(),
        MirrorParams {
            horizontal: false,
            vertical: false
        }
    );
}

#[test]
fn parse_bool_words_in_any_ascii_case() {
    assert_eq!(
        parse_params("horizontal=TRUE,vertical=Yes"),
        MirrorParams { horizontal: true, vertical: true }
    );
    assert_eq!(
        parse_params("horizontal=1\nvertical=1,vertical=No"),
        MirrorParams { horizontal: true, vertical: false }
    );
    assert_eq!(
        parse_params("horizontal=yes,horizontal=0"),
        MirrorParams { horizontal: false, vertical: false }
    );
    assert_eq!(
        parse_params("horizontal=y,vertical=on"),
        MirrorParams { horizontal: false, vertical: false }
    );
    assert_eq!(
        parse_params("HORIZONTAL=true"),
        MirrorParams { horizontal: false, vertical: false }
    );
}

#[test]
fn mirror_horizontal_odd_width_keeps_middle_column() {
    // 3×1: pixels 1, 2, 3.
    let mut buf = vec![1u8, 1, 1, 1, 2, 2, 2, 2, 3, 3, 3, 3];
    apply_mirror(3, 1, &mut buf, MirrorParams { horizontal: true, vertical: false });
    assert_eq!(buf, vec![3u8, 3, 3, 3, 2, 2, 2, 2, 1, 1, 1, 1]);
}

#[test]
fn mirror_vertical_three_rows() {
    // 1×3: rows 1, 2, 3.
    let mut buf = vec![1u8, 10, 100, 200, 2, 20, 120, 210, 3, 30, 130, 220];
    apply_mirror(1, 3, &mut buf, MirrorParams { horizontal: false, vertical: true });
    assert_eq!(buf, vec![3u8, 30, 130, 220, 2, 20, 120, 210, 1, 10, 100, 200]);
}

#[test]
fn mirror_twice_restores_buffer() {
    let original: Vec<u8> = (0..(3 * 2 * 4) as u8).collect();
    for (h, v) in [(true, false), (false, true), (true, true), (false, false)] {
        let p = MirrorParams { horizontal: h, vertical: v };
        let mut buf = original.clone();
        apply_mirror(3, 2, &mut buf, p);
        apply_mirror(3, 2, &mut buf, p);
        assert_eq!(buf, original);
    }
}

#[test]
fn mirror_leaves_buffer_when_not_applicable() {
    let original: Vec<u8> = (0..16u8).collect();
    let both = MirrorParams { horizontal: true, vertical: true };
    let mut buf = original.clone();
    apply_mirror(3, 2, &mut buf, both);
    assert_eq!(buf, original);
    apply_mirror(0, 4, &mut buf, both);
    assert_eq!(buf, original);
    apply_mirror(u32::MAX, u32::MAX, &mut buf, both);
    assert_eq!(buf, original);
}

#[test]
fn process_buffer_parses_then_mirrors() {
    let mut buf = buffer_2x2();
    process_buffer(2, 2, &mut buf, "vertical=true horizontal=true");
    assert_eq!(buf[0], 4);
    assert_eq!(buf[12], 1);
    let mut same = buffer_2x2();
    process_buffer(2, 2, &mut same, "nothing here");
    assert_eq!(same, buffer_2x2());
}
