use image_processor::params::{is_white_space_char, parse_u32, settings_from_text};
use image_processor::raster::expected_len;

fn chars(s: &str) -> Vec<char> {
    s.chars().collect()
}

#[test]
fn white_space_matches_char_is_whitespace() {
    for code in 0u32..=0x10FFFF {
        if let Some(c) = char::from_u32(code) {
            assert_eq!(is_white_space_char(c), c.is_whitespace(), "U+{code:04X}");
        }
    }
    assert!(!is_white_space_char('\u{FEFF}'));
}

#[test]
fn settings_cut_at_separators_and_first_equals() {
    let list = settings_from_text("a=1, b==2\n,c\t=x=y,,novalue, =z");
    let got: Vec<(String, String)> = list
        .iter()
        .map(|s| (s.key.iter().collect(), s.value.iter().collect()))
        .collect();
    let expected: Vec<(String, String)> = vec![
        ("a".into(), "1".into()),
        ("b".into(), "=2".into()),
        ("".into(), "x=y".into()),
        ("".into(), "z".into()),
    ];
    assert_eq!(got, expected);
    assert!(settings_from_text("").is_empty());
    assert!(settings_from_text(" ,\n ").is_empty());
}

#[test]
fn parse_u32_agrees_with_str_parse() {
    for text in [
        "0", "+0", "+", "", "-0", "-1", "12", "0042", "4294967295", "4294967296", "1 2", "١٢",
        "18446744073709551616", "+4294967295", "9a",
    ] {
        assert_eq!(parse_u32(&chars(text)), text.parse::<u32>().ok(), "{text:?}");
    }
}

#[test]
fn expected_len_is_checked() {
    assert_eq!(expected_len(3, 2), Some(24));
    assert_eq!(expected_len(0, 7), Some(0));
    assert_eq!(expected_len(u32::MAX, u32::MAX), None);
}
