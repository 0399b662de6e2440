use image_processor::blur::{apply_blur, parse_params, process_buffer, BlurParams};

#[test]
fn parse_valid_params() {
    let p = parse_params("radius=4,iterations=3");
    assert_eq!(
        p,
        BlurParams {
            radius: 4,
            iterations: 3
        }
    );
}

#[test]
fn parse_empty_uses_defaults() {
    assert_eq!(parse_params(""), BlurParams::default());
}

#[test]
fn parse_unknown_keys_ignored() {
    let p = parse_params("radius=2,foo=bar,iterations=5");
    assert_eq!(
        p,
        BlurParams {
            radius: 2,
            iterations: 5
        }
    );
}

#[test]
fn parse_invalid_numbers_keep_defaults() {
    let p = parse_params("radius=abc,iterations=xyz");
    assert_eq!(p, BlurParams::default());
}

#[test]
fn blur_monochrome_unchanged() {
    let mut buf = vec![100u8; 3 * 3 * 4];
    let original = buf.clone();
    apply_blur(
        3,
        3,
        &mut buf,
        BlurParams {
            radius: 1,
            iterations: 2,
        },
    );
    assert_eq!(buf, original);
}

#[test]
fn blur_bright_center_spreads_to_neighbors() {
    // 3×3 all black except bright center pixel.
    let mut buf = vec![0u8; 3 * 3 * 4];
    let center = (1 * 3 + 1) * 4;
    buf[center] = 255;
    buf[center + 1] = 255;
    buf[center + 2] = 255;
    buf[center + 3] = 255;

    apply_blur(
        3,
        3,
        &mut buf,
        BlurParams {
            radius: 1,
            iterations: 1,
        },
    );

    // A neighbor (top-middle) must become non-zero after blur.
    let top = (0 * 3 + 1) * 4;
    assert!(
        buf[top] > 0 || buf[top + 1] > 0 || buf[top + 2] > 0,
        "neighbors should be non-zero after blurring a bright center"
    );
}

#[test]
fn default_is_radius_one_single_pass() {
    assert_eq!(
        BlurParams::default(),
        BlurParams {
            radius: 1,
            iterations: 1
        }
    );
}

#[test]
fn parse_newlines_and_unicode_white_space_separate() {
    assert_eq!(
        parse_params("radius=2\niterations=7"),
        BlurParams {
            radius: 2,
            iterations: 7
        }
    );
    assert_eq!(
        parse_params("radius=6\u{3000}iterations=8"),
        BlurParams {
            radius: 6,
            iterations: 8
        }
    );
    assert_eq!(
        parse_params(" , radius=3 ,\t,"),
        BlurParams {
            radius: 3,
            iterations: 1
        }
    );
}

#[test]
fn parse_later_setting_overrides() {
    assert_eq!(
        parse_params("radius=2,radius=9,iterations=4,iterations=oops"),
        BlurParams {
            radius: 9,
            iterations: 4
        }
    );
}

#[test]
fn parse_numbers_as_u32_from_str() {
    assert_eq!(parse_params("radius=+5").radius, 5);
    assert_eq!(parse_params("radius=-5").radius, 1);
    assert_eq!(parse_params("radius=").radius, 1);
    assert_eq!(parse_params("radius=+").radius, 1);
    assert_eq!(parse_params("radius=007").radius, 7);
    assert_eq!(parse_params("radius=4294967295").radius, u32::MAX);
    assert_eq!(parse_params("radius=4294967296").radius, 1);
    assert_eq!(parse_params("radius=99999999999999999999").radius, 1);
    assert_eq!(parse_params("radius=1x").radius, 1);
    assert_eq!(parse_params("radius=١").radius, 1);
}

#[test]
fn parse_key_is_before_first_equals() {
    // "radius==3": value "=3" is not a number.
    assert_eq!(parse_params("radius==3").radius, 1);
    // Spaces split the setting into separate fields.
    assert_eq!(parse_params("radius = 3").radius, 1);
    // Keys are case-sensitive.
    assert_eq!(parse_params("Radius=3").radius, 1);
}

#[test]
fn blur_center_exact_means() {
    let mut buf = vec![0u8; 3 * 3 * 4];
    for c in 0..4 {
        buf[16 + c] = 255;
    }
    apply_blur(3, 3, &mut buf, BlurParams { radius: 1, iterations: 1 });
    // corners see 4 pixels, edges 6, the centre 9; means rounded down.
    let expected_pixel = [63u8, 42, 63, 42, 28, 42, 63, 42, 63];
    for p in 0..9 {
        for c in 0..4 {
            assert_eq!(buf[p * 4 + c], expected_pixel[p]);
        }
    }
}

#[test]
fn blur_two_passes_of_a_row() {
    // 3×1: values 0, 90, 0 in every channel.
    let mut buf = vec![0u8; 12];
    for c in 0..4 {
        buf[4 + c] = 90;
    }
    apply_blur(3, 1, &mut buf, BlurParams { radius: 1, iterations: 2 });
    // pass 1: 45, 30, 45; pass 2: (45+30)/2=37, (45+30+45)/3=40, 37
    for c in 0..4 {
        assert_eq!(buf[c], 37);
        assert_eq!(buf[4 + c], 40);
        assert_eq!(buf[8 + c], 37);
    }
}

#[test]
fn blur_channels_are_independent() {
    // 2×1: pixel (10, 20, 30, 40) and pixel (30, 40, 50, 60), radius 5.
    let mut buf = vec![10u8, 20, 30, 40, 30, 40, 50, 60];
    apply_blur(2, 1, &mut buf, BlurParams { radius: 5, iterations: 1 });
    assert_eq!(buf, vec![20u8, 30, 40, 50, 20, 30, 40, 50]);
}

#[test]
fn blur_leaves_buffer_when_not_applicable() {
    let original: Vec<u8> = (0..36u8).collect();
    let mut buf = original.clone();
    apply_blur(3, 3, &mut buf, BlurParams { radius: 0, iterations: 3 });
    assert_eq!(buf, original);
    apply_blur(3, 3, &mut buf, BlurParams { radius: 2, iterations: 0 });
    assert_eq!(buf, original);
    apply_blur(3, 2, &mut buf, BlurParams { radius: 1, iterations: 1 });
    assert_eq!(buf, original);
    apply_blur(0, 3, &mut buf, BlurParams { radius: 1, iterations: 1 });
    assert_eq!(buf, original);
    apply_blur(u32::MAX, u32::MAX, &mut buf, BlurParams { radius: 1, iterations: 1 });
    assert_eq!(buf, original);
}

#[test]
fn process_buffer_parses_then_blurs() {
    let mut buf = vec![0u8, 0, 0, 0, 200, 100, 50, 0];
    process_buffer(2, 1, &mut buf, "iterations=1,radius=1");
    assert_eq!(buf, vec![100u8, 50, 25, 0, 100, 50, 25, 0]);
    let mut same = vec![0u8, 0, 0, 0, 200, 100, 50, 0];
    process_buffer(2, 1, &mut same, "radius=0");
    assert_eq!(same, vec![0u8, 0, 0, 0, 200, 100, 50, 0]);
}
