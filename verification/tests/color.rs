use typesetter::color::{parse_color, rgb_to_hex, LayoutError, RgbColor};

fn chars(s: &str) -> Vec<char> {
    s.chars().collect()
}

#[test]
fn parses_a_valid_color() {
    let c = parse_color(&chars("#198964")).unwrap();
    assert_eq!(c, RgbColor { red: 0x19, green: 0x89, blue: 0x64 });
}

#[test]
fn accepts_both_digit_cases() {
    let c = parse_color(&chars("#FFa0Ee")).unwrap();
    assert_eq!(c, RgbColor { red: 0xFF, green: 0xA0, blue: 0xEE });
}

#[test]
fn rejects_missing_hash() {
    assert_eq!(parse_color(&chars("198964")), Err(LayoutError::MalformedColor));
}

#[test]
fn rejects_short_and_long_texts() {
    assert_eq!(parse_color(&chars("#19896")), Err(LayoutError::MalformedColor));
    assert_eq!(parse_color(&chars("#1989641")), Err(LayoutError::MalformedColor));
    assert_eq!(parse_color(&chars("")), Err(LayoutError::MalformedColor));
}

#[test]
fn rejects_non_hex_digits() {
    assert_eq!(parse_color(&chars("#19896g")), Err(LayoutError::MalformedColor));
    assert_eq!(parse_color(&chars("#zzzzzz")), Err(LayoutError::MalformedColor));
}

#[test]
fn round_trips_every_kind_of_channel_value() {
    let samples = [
        RgbColor { red: 0, green: 0, blue: 0 },
        RgbColor { red: 255, green: 255, blue: 255 },
        RgbColor { red: 0x19, green: 0x89, blue: 0x64 },
        RgbColor { red: 1, green: 16, blue: 240 },
    ];
    for c in samples {
        let text = rgb_to_hex(&c);
        assert_eq!(parse_color(&text), Ok(c));
    }
}

#[test]
fn hex_text_is_canonical_lowercase() {
    let text: String = rgb_to_hex(&RgbColor { red: 0x19, green: 0x89, blue: 0x64 })
        .iter()
        .collect();
    assert_eq!(text, "#198964");
}
